use webgu::security::SecurityManager;

#[test]
fn sanitize_removes_the_denylisted_markers() {
    let m = SecurityManager::new();
    assert_eq!(m.sanitize_html("<script>x</script>"), ">x");
    assert_eq!(
        m.sanitize_html("<a href=\"javascript:alert(1)\">x</a>"),
        "<a href=\"alert(1)\">x</a>"
    );
    assert_eq!(m.sanitize_html("<iframe src=\"u\"></iframe>"), " src=\"u\">");
    assert_eq!(m.sanitize_html("<object></object><embed></embed>"), ">>");
    assert_eq!(m.sanitize_html("plain text"), "plain text");
}

#[test]
fn sanitize_twice_equals_sanitize_once() {
    let m = SecurityManager::new();
    let inputs = [
        "<script>alert(1)</script>",
        "hello <iframe>world</iframe>",
        "javascript:javascript:nested",
        "no markers at all",
    ];
    for input in inputs {
        let once = m.sanitize_html(input);
        let twice = m.sanitize_html(&once);
        assert_eq!(twice, once);
    }
}

#[test]
fn detect_flags_javascript_and_stays_quiet_otherwise() {
    let m = SecurityManager::new();
    assert!(m.check_xss_vulnerability("click javascript:alert(1)"));
    assert!(m.check_xss_vulnerability("<script>"));
    assert!(m.check_xss_vulnerability("<img onload=pwn()>"));
    assert!(m.check_xss_vulnerability("onerror=x"));
    assert!(m.check_xss_vulnerability("onclick=x"));
    assert!(m.check_xss_vulnerability("onmouseover=x"));
    assert!(m.check_xss_vulnerability("eval(code)"));
    assert!(m.check_xss_vulnerability("alert(1)"));
    assert!(!m.check_xss_vulnerability("a perfectly harmless sentence"));
    assert!(!m.check_xss_vulnerability(""));
}

#[test]
fn hash_is_deterministic_with_known_digests() {
    let m = SecurityManager::new();
    assert_eq!(
        m.calculate_hash(b"abc"),
        "ba7816bf8f01cfea414140de5dae2223b00361a396177a9cb410ff61f20015ad"
    );
    assert_eq!(
        m.calculate_hash(b""),
        "e3b0c44298fc1c149afbf4c8996fb92427ae41e4649b934ca495991b7852b855"
    );
    assert_eq!(m.calculate_hash(b"abc"), m.calculate_hash(b"abc"));
}

#[test]
fn single_bit_change_changes_the_digest() {
    let m = SecurityManager::new();
    // 'b' (0x62) and 'c' (0x63) differ in one bit
    assert_ne!(m.calculate_hash(b"ab"), m.calculate_hash(b"ac"));
}

#[test]
fn check_url_security_is_scheme_only() {
    let m = SecurityManager::new();
    let secure = m.check_url_security("https://example.com/");
    assert!(secure.is_https);
    assert!(secure.certificate_valid);
    assert!(secure.content_security_policy.is_none());
    assert!(secure.x_frame_options.is_none());
    assert!(secure.x_content_type_options.is_none());
    assert!(secure.strict_transport_security.is_none());
    let plain = m.check_url_security("http://example.com/");
    assert!(!plain.is_https);
    assert!(!plain.certificate_valid);
}

#[test]
fn blocked_domain_matches_by_substring() {
    let m = SecurityManager::new();
    assert!(m.is_domain_blocked("sub.malware.example.com"));
    assert!(m.is_domain_blocked("phishing.example.com"));
    assert!(!m.is_domain_blocked("example.com"));
    assert!(!m.is_domain_blocked(""));
}

#[test]
fn csp_gates_only_under_default_src_self() {
    let m = SecurityManager::new();
    assert!(m.validate_content_security_policy("default-src 'self'", "https://cdn.example.com/a.js"));
    assert!(m.validate_content_security_policy("default-src 'self'", "data:image/png;base64,AA"));
    assert!(!m.validate_content_security_policy("default-src 'self'", "http://cdn.example.com/a.js"));
    assert!(m.validate_content_security_policy("script-src *", "http://anything"));
    assert!(m.validate_content_security_policy("", "http://anything"));
}
