//! The sanitizer / threat-heuristic layer: literal-substring removal of a
//! fixed denylist, pattern-based threat detection, content hashing, and
//! coarse scheme/domain classification.
//!
//! The sanitizer is a best-effort rewrite, not parser-aware: encoded
//! variants or markers split across chunks are not caught, and false
//! negatives are an accepted property of the detection heuristic.
use vstd::prelude::*;

verus! {

use vstd::string::StringExecFns;
use crate::text::{contains_sub, contains_at, lemma_contains_skip_one, chars_vec, string_of,
    subvec, find_sub, match_at, starts_with_chars};

/// The SHA-256 digest of a byte sequence; a pure function of the bytes,
/// given meaning by the hashing wrapper alone.
pub uninterp spec fn sha256_of(data: Seq<u8>) -> Seq<u8>;

/// The lowercase hexadecimal digit for a value below sixteen.
pub open spec fn hex_digit(n: u8) -> char
    recommends
        n < 16,
{
    if n < 10 {
        ((n + 48) as char)
    } else {
        ((n + 87) as char)
    }
}

/// Lowercase hexadecimal rendering of a byte sequence, two digits per byte,
/// most significant digit first.
pub open spec fn hex_of(b: Seq<u8>) -> Seq<char>
    decreases b.len(),
{
    if b.len() == 0 {
        Seq::empty()
    } else {
        seq![hex_digit(b[0] / 16), hex_digit(b[0] % 16)] + hex_of(b.drop_first())
    }
}

/// Relies on `ring::digest::digest` with the SHA-256 algorithm: the digest
/// is a function of the input bytes alone and is 32 bytes long.
#[verifier::external_body]
fn sha256_bytes(data: &[u8]) -> (r: Vec<u8>)
    ensures
        r@ == sha256_of(data@),
        r@.len() == 32,
{
    ring::digest::digest(&ring::digest::SHA256, data).as_ref().to_vec()
}

/// Relies on `hex::encode`: two lowercase hexadecimal digits per input
/// byte, most significant digit first.
#[verifier::external_body]
fn to_hex(data: &Vec<u8>) -> (r: String)
    ensures
        r@ == hex_of(data@),
{
    hex::encode(data.as_slice())
}

/// All occurrences of `p` removed from `t`, scanning left to right over
/// non-overlapping matches. An empty pattern removes nothing.
pub open spec fn remove_all(t: Seq<char>, p: Seq<char>) -> Seq<char>
    decreases t.len(),
{
    if p.len() == 0 || t.len() == 0 {
        t
    } else if t.len() >= p.len() && t.take(p.len() as int) == p {
        remove_all(t.skip(p.len() as int), p)
    } else {
        seq![t[0]] + remove_all(t.skip(1), p)
    }
}

/// Removes every occurrence of `p` from `t`, matching `remove_all`.
pub fn remove_all_x(t: &Vec<char>, p: &Vec<char>) -> (r: Vec<char>)
    ensures
        r@ == remove_all(t@, p@),
{
    let tlen = t.len();
    let plen = p.len();
    if plen == 0 {
        let r = subvec(t, 0, tlen);
        proof {
            assert(r@ =~= t@);
        }
        return r;
    }
    let mut out: Vec<char> = Vec::new();
    let mut i: usize = 0;
    proof {
        assert(t@.skip(0) =~= t@);
        assert(out@ + remove_all(t@, p@) =~= remove_all(t@, p@));
    }
    while i < tlen
        invariant
            i <= t@.len(),
            tlen == t@.len(),
            plen == p@.len(),
            plen >= 1,
            out@ + remove_all(t@.skip(i as int), p@) == remove_all(t@, p@),
        decreases t@.len() - i,
    {
        let ghost s = t@.skip(i as int);
        let ghost out0 = out@;
        if plen <= tlen - i && match_at(t, p, i) {
            proof {
                assert(s.take(plen as int) =~= t@.subrange(i as int, i as int + plen as int));
                assert(s.skip(plen as int) =~= t@.skip(i as int + plen as int));
                assert(remove_all(s, p@) == remove_all(t@.skip(i as int + plen as int), p@));
            }
            i += plen;
        } else {
            proof {
                if plen <= tlen - i {
                    assert(s.take(plen as int) =~= t@.subrange(
                        i as int,
                        i as int + plen as int,
                    ));
                    assert(!(s.take(plen as int) == p@));
                } else {
                    assert(s.len() < plen);
                }
                assert(s.skip(1) =~= t@.skip(i as int + 1));
                assert(s[0] == t@[i as int]);
                assert(remove_all(s, p@) == seq![s[0]] + remove_all(t@.skip(i as int + 1), p@));
            }
            let c = t[i];
            out.push(c);
            i += 1;
            proof {
                assert(out@ + remove_all(t@.skip(i as int), p@) =~= out0 + remove_all(s, p@));
            }
        }
    }
    proof {
        assert(t@.skip(tlen as int) =~= Seq::<char>::empty());
        assert(out@ =~= remove_all(t@, p@));
    }
    out
}

/// The sanitizer's model: the fixed denylist removed in order, each entry by
/// repeated literal-substring removal.
pub open spec fn sanitize_model(t: Seq<char>) -> Seq<char> {
    remove_all(
        remove_all(
            remove_all(
                remove_all(
                    remove_all(
                        remove_all(
                            remove_all(
                                remove_all(remove_all(t, "<script"@), "</script>"@),
                                "<iframe"@,
                            ),
                            "</iframe>"@,
                        ),
                        "<object"@,
                    ),
                    "</object>"@,
                ),
                "<embed"@,
            ),
            "</embed>"@,
        ),
        "javascript:"@,
    )
}

/// No entry of the fixed denylist occurs in `t`.
pub open spec fn denylist_free(t: Seq<char>) -> bool {
    &&& !contains_sub(t, "<script"@)
    &&& !contains_sub(t, "</script>"@)
    &&& !contains_sub(t, "<iframe"@)
    &&& !contains_sub(t, "</iframe>"@)
    &&& !contains_sub(t, "<object"@)
    &&& !contains_sub(t, "</object>"@)
    &&& !contains_sub(t, "<embed"@)
    &&& !contains_sub(t, "</embed>"@)
    &&& !contains_sub(t, "javascript:"@)
}

/// Text that holds no occurrence of a non-empty pattern is left unchanged
/// by its removal.
pub proof fn lemma_remove_all_absent(t: Seq<char>, p: Seq<char>)
    requires
        !contains_sub(t, p),
        p.len() > 0,
    ensures
        remove_all(t, p) == t,
    decreases t.len(),
{
    if t.len() > 0 {
        if t.len() >= p.len() && t.take(p.len() as int) == p {
            assert(t.subrange(0, p.len() as int) =~= t.take(p.len() as int));
            assert(contains_at(t, p, 0));
            assert(false);
        }
        if contains_sub(t.skip(1), p) {
            lemma_contains_skip_one(t, p);
            assert(false);
        }
        lemma_remove_all_absent(t.skip(1), p);
        assert(remove_all(t, p) =~= seq![t[0]] + t.skip(1));
        assert(seq![t[0]] + t.skip(1) =~= t);
    }
}

/// Denylist-free text is a fixed point of the sanitizer.
pub proof fn lemma_sanitize_fixed(t: Seq<char>)
    requires
        denylist_free(t),
    ensures
        sanitize_model(t) == t,
{
    reveal_strlit("<script");
    reveal_strlit("</script>");
    reveal_strlit("<iframe");
    reveal_strlit("</iframe>");
    reveal_strlit("<object");
    reveal_strlit("</object>");
    reveal_strlit("<embed");
    reveal_strlit("</embed>");
    reveal_strlit("javascript:");
    lemma_remove_all_absent(t, "<script"@);
    lemma_remove_all_absent(t, "</script>"@);
    lemma_remove_all_absent(t, "<iframe"@);
    lemma_remove_all_absent(t, "</iframe>"@);
    lemma_remove_all_absent(t, "<object"@);
    lemma_remove_all_absent(t, "</object>"@);
    lemma_remove_all_absent(t, "<embed"@);
    lemma_remove_all_absent(t, "</embed>"@);
    lemma_remove_all_absent(t, "javascript:"@);
}

/// Sanitizing is idempotent whenever one pass leaves no denylisted marker
/// behind (adjacent fragments can, in principle, reassemble one): a clean
/// first pass makes the second a no-op.
pub proof fn lemma_sanitize_idempotent(t: Seq<char>)
    requires
        denylist_free(sanitize_model(t)),
    ensures
        sanitize_model(sanitize_model(t)) == sanitize_model(t),
{
    lemma_sanitize_fixed(sanitize_model(t));
}

/// The detector flags any input containing the script-URL marker, and stays
/// quiet on input in which no pattern of its fixed set occurs.
pub proof fn lemma_detect_fixed_patterns(t: Seq<char>)
    ensures
        contains_sub(t, "javascript:"@) ==> xss_detect(t),
        (!contains_sub(t, "<script"@) && !contains_sub(t, "javascript:"@) && !contains_sub(
            t,
            "onload="@,
        ) && !contains_sub(t, "onerror="@) && !contains_sub(t, "onclick="@) && !contains_sub(
            t,
            "onmouseover="@,
        ) && !contains_sub(t, "eval("@) && !contains_sub(t, "alert("@)) ==> !xss_detect(t),
{
}

/// Hashing is deterministic: the digest is a function of the bytes alone,
/// so equal byte sequences always render to the same fingerprint.
pub proof fn lemma_hash_deterministic(a: Seq<u8>, b: Seq<u8>)
    requires
        a == b,
    ensures
        hex_of(sha256_of(a)) == hex_of(sha256_of(b)),
{
}

/// The detection heuristic's model: a fixed pattern set, matched literally.
pub open spec fn xss_detect(t: Seq<char>) -> bool {
    ||| contains_sub(t, "<script"@)
    ||| contains_sub(t, "javascript:"@)
    ||| contains_sub(t, "onload="@)
    ||| contains_sub(t, "onerror="@)
    ||| contains_sub(t, "onclick="@)
    ||| contains_sub(t, "onmouseover="@)
    ||| contains_sub(t, "eval("@)
    ||| contains_sub(t, "alert("@)
}

/// Whether a policy admits a resource: under `default-src 'self'` only
/// secure-scheme or data URLs pass; any other policy text admits everything.
pub open spec fn csp_allows(policy: Seq<char>, resource_url: Seq<char>) -> bool {
    if contains_sub(policy, "default-src 'self'"@) {
        "https://"@.is_prefix_of(resource_url) || "data:"@.is_prefix_of(resource_url)
    } else {
        true
    }
}

/// Whether any entry of `blocked` occurs in `domain` as a substring.
pub open spec fn any_blocked(blocked: Seq<Seq<char>>, domain: Seq<char>) -> bool {
    exists|i: int| 0 <= i < blocked.len() && contains_sub(domain, blocked[i])
}

/// The transient per-query security classification of a URL. Header-derived
/// fields are always absent at this layer.
pub struct SecurityInfo {
    pub is_https: bool,
    pub certificate_valid: bool,
    pub content_security_policy: Option<String>,
    pub x_frame_options: Option<String>,
    pub x_content_type_options: Option<String>,
    pub strict_transport_security: Option<String>,
}

/// The sanitizer / threat-heuristic instance: a built-in domain denylist and
/// a (currently empty) trusted-certificate store.
pub struct SecurityManager {
    trusted_certificates: Vec<Vec<u8>>,
    blocked_domains: Vec<String>,
}

impl SecurityManager {
    /// The certificate store, as byte sequences.
    pub closed spec fn trusted_certs(&self) -> Seq<Seq<u8>> {
        self.trusted_certificates@.map_values(|v: Vec<u8>| v@)
    }

    /// The built-in domain denylist.
    pub closed spec fn blocked(&self) -> Seq<Seq<char>> {
        self.blocked_domains@.map_values(|s: String| s@)
    }

    pub fn new() -> (r: Self)
        ensures
            r.trusted_certs() == Seq::<Seq<u8>>::empty(),
            r.blocked() == seq!["malware.example.com"@, "phishing.example.com"@],
    {
        let mut blocked_domains: Vec<String> = Vec::new();
        blocked_domains.push(String::from_str("malware.example.com"));
        blocked_domains.push(String::from_str("phishing.example.com"));
        let r = Self { trusted_certificates: Vec::new(), blocked_domains };
        proof {
            assert(r.trusted_certs() =~= Seq::<Seq<u8>>::empty());
            assert(r.blocked() =~= seq!["malware.example.com"@, "phishing.example.com"@]);
        }
        r
    }

    /// Scheme-only classification: encrypted transport iff the URL starts
    /// with the secure-scheme prefix; the trust signal mirrors that same
    /// check, and no header-derived field is filled in at this layer. No
    /// certificate validation is performed.
    pub fn check_url_security(&self, url: &str) -> (r: SecurityInfo)
        ensures
            r.is_https == "https://"@.is_prefix_of(url@),
            r.certificate_valid == r.is_https,
            r.content_security_policy is None,
            r.x_frame_options is None,
            r.x_content_type_options is None,
            r.strict_transport_security is None,
    {
        let u = chars_vec(url);
        let p = chars_vec("https://");
        let is_https = starts_with_chars(&u, &p);
        SecurityInfo {
            is_https,
            certificate_valid: is_https,
            content_security_policy: None,
            x_frame_options: None,
            x_content_type_options: None,
            strict_transport_security: None,
        }
    }

    /// Whether `domain` contains any denylist entry as a substring: an
    /// intentionally over-broad containment check, not exact-host matching.
    pub fn is_domain_blocked(&self, domain: &str) -> (r: bool)
        ensures
            r == any_blocked(self.blocked(), domain@),
    {
        let d = chars_vec(domain);
        let mut i: usize = 0;
        while i < self.blocked_domains.len()
            invariant
                i <= self.blocked_domains@.len(),
                d@ == domain@,
                forall|j: int| 0 <= j < i ==> !contains_sub(domain@, self.blocked()[j]),
            decreases self.blocked_domains@.len() - i,
        {
            let b = chars_vec(self.blocked_domains[i].as_str());
            proof {
                assert(self.blocked()[i as int] == self.blocked_domains@[i as int]@);
            }
            if find_sub(&d, &b) {
                proof {
                    assert(contains_sub(domain@, self.blocked()[i as int]));
                }
                return true;
            }
            i += 1;
        }
        false
    }

    /// A deterministic content fingerprint: the lowercase hexadecimal
    /// rendering of the SHA-256 digest of `data`. A total function with no
    /// failure path.
    pub fn calculate_hash(&self, data: &[u8]) -> (r: String)
        ensures
            r@ == hex_of(sha256_of(data@)),
    {
        let digest = sha256_bytes(data);
        to_hex(&digest)
    }

    /// Whether `policy` admits `resource_url`, by the `csp_allows` rule.
    pub fn validate_content_security_policy(&self, policy: &str, resource_url: &str) -> (r:
        bool)
        ensures
            r == csp_allows(policy@, resource_url@),
    {
        let p = chars_vec(policy);
        let needle = chars_vec("default-src 'self'");
        if find_sub(&p, &needle) {
            let u = chars_vec(resource_url);
            let h = chars_vec("https://");
            if starts_with_chars(&u, &h) {
                return true;
            }
            let dpre = chars_vec("data:");
            starts_with_chars(&u, &dpre)
        } else {
            true
        }
    }

    /// Removes the fixed denylist from `html`, entry by entry, by literal
    /// substring removal. Best-effort: encoded variants and markers
    /// reassembled by adjacent fragments are not caught.
    pub fn sanitize_html(&self, html: &str) -> (r: String)
        ensures
            r@ == sanitize_model(html@),
    {
        let t = chars_vec(html);
        let p1 = chars_vec("<script");
        let cur = remove_all_x(&t, &p1);
        let p2 = chars_vec("</script>");
        let cur = remove_all_x(&cur, &p2);
        let p3 = chars_vec("<iframe");
        let cur = remove_all_x(&cur, &p3);
        let p4 = chars_vec("</iframe>");
        let cur = remove_all_x(&cur, &p4);
        let p5 = chars_vec("<object");
        let cur = remove_all_x(&cur, &p5);
        let p6 = chars_vec("</object>");
        let cur = remove_all_x(&cur, &p6);
        let p7 = chars_vec("<embed");
        let cur = remove_all_x(&cur, &p7);
        let p8 = chars_vec("</embed>");
        let cur = remove_all_x(&cur, &p8);
        let p9 = chars_vec("javascript:");
        let cur = remove_all_x(&cur, &p9);
        string_of(&cur)
    }

    /// Whether any pattern of the fixed threat set occurs in `input` as a
    /// literal substring. False negatives are an accepted property.
    pub fn check_xss_vulnerability(&self, input: &str) -> (r: bool)
        ensures
            r == xss_detect(input@),
    {
        let t = chars_vec(input);
        let p = chars_vec("<script");
        if find_sub(&t, &p) {
            return true;
        }
        let p = chars_vec("javascript:");
        if find_sub(&t, &p) {
            return true;
        }
        let p = chars_vec("onload=");
        if find_sub(&t, &p) {
            return true;
        }
        let p = chars_vec("onerror=");
        if find_sub(&t, &p) {
            return true;
        }
        let p = chars_vec("onclick=");
        if find_sub(&t, &p) {
            return true;
        }
        let p = chars_vec("onmouseover=");
        if find_sub(&t, &p) {
            return true;
        }
        let p = chars_vec("eval(");
        if find_sub(&t, &p) {
            return true;
        }
        let p = chars_vec("alert(");
        find_sub(&t, &p)
    }
}

} // verus!
