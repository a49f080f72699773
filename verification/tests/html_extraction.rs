use webgu::html::HtmlParser;

fn tag_at(p: &HtmlParser, i: usize) -> String {
    p.get_element_tag_name(i).unwrap().clone()
}

fn text_at(p: &HtmlParser, i: usize) -> String {
    p.get_element_text(i).unwrap().clone()
}

#[test]
fn extracts_div_and_p_with_attributes_and_text() {
    let mut p = HtmlParser::new();
    p.parse("<div class=\"a\">Hi</div><p>Yo</p>");
    assert_eq!(p.get_element_count(), 4);
    assert_eq!(tag_at(&p, 0), "div");
    assert_eq!(p.get_element_attribute(0, "class").unwrap().as_str(), "a");
    assert_eq!(p.get_element_attribute_count(0), 1);
    assert_eq!(
        p.get_element_attribute_name(0, 0).unwrap().as_str(),
        "class"
    );
    assert_eq!(text_at(&p, 0), "Hi");
    assert_eq!(tag_at(&p, 1), "#text");
    assert_eq!(text_at(&p, 1), "Hi");
    assert_eq!(tag_at(&p, 2), "p");
    assert_eq!(p.get_element_attribute_count(2), 0);
    assert_eq!(text_at(&p, 2), "Yo");
    assert_eq!(tag_at(&p, 3), "#text");
    let mut non_text = 0;
    for i in 0..p.get_element_count() {
        if tag_at(&p, i) != "#text" {
            non_text += 1;
        }
    }
    assert_eq!(non_text, 2);
}

#[test]
fn tag_names_are_lowercased() {
    let mut p = HtmlParser::new();
    p.parse("<DIV ID=\"x\"><SpAn>ab</SpAn>");
    assert_eq!(tag_at(&p, 0), "div");
    assert_eq!(tag_at(&p, 1), "span");
    // attribute keys keep their case; only the tag name is lowered
    assert_eq!(p.get_element_attribute(0, "ID").unwrap().as_str(), "x");
    assert!(p.get_element_attribute(0, "id").is_none());
}

#[test]
fn cap_truncates_silently_at_five_hundred() {
    let mut p = HtmlParser::new();
    let html = "<b>".repeat(600);
    p.parse(&html);
    assert_eq!(p.get_element_count(), 500);
    assert_eq!(tag_at(&p, 499), "b");
}

#[test]
fn skipped_tags_do_not_consume_the_cap() {
    let mut p = HtmlParser::new();
    let mut html = "<b>".repeat(499);
    html.push_str("<!-- note --><!-- note --><!-- note --><i>");
    p.parse(&html);
    assert_eq!(p.get_element_count(), 500);
    assert_eq!(tag_at(&p, 499), "i");
}

#[test]
fn comments_doctypes_closers_and_inert_tags_yield_nothing() {
    let mut p = HtmlParser::new();
    p.parse("<!DOCTYPE html><div>Hello</div><script></script><style></style><meta c=\"d\"><link><noscript></noscript><p>World</p>");
    assert_eq!(p.get_element_count(), 4);
    assert_eq!(tag_at(&p, 0), "div");
    assert_eq!(text_at(&p, 0), "Hello");
    assert_eq!(tag_at(&p, 1), "#text");
    assert_eq!(tag_at(&p, 2), "p");
    assert_eq!(text_at(&p, 2), "World");
    assert_eq!(tag_at(&p, 3), "#text");
}

#[test]
fn double_and_single_quotes_store_the_same_value() {
    let mut p = HtmlParser::new();
    p.parse("<a x=\"v1\" y='v1' z=v1>");
    let x = p.get_element_attribute(0, "x").unwrap().clone();
    let y = p.get_element_attribute(0, "y").unwrap().clone();
    let z = p.get_element_attribute(0, "z").unwrap().clone();
    assert_eq!(x, "v1");
    assert_eq!(y, "v1");
    assert_eq!(z, "v1");
}

#[test]
fn duplicate_attribute_keys_last_write_wins() {
    let mut p = HtmlParser::new();
    p.parse("<a k=\"1\" k=\"2\">");
    assert_eq!(p.get_element_attribute(0, "k").unwrap().as_str(), "2");
    assert_eq!(p.get_element_attribute_count(0), 1);
}

#[test]
fn empty_attribute_value_and_missing_attribute() {
    let mut p = HtmlParser::new();
    p.parse("<a k=>");
    assert_eq!(p.get_element_attribute(0, "k").unwrap().as_str(), "");
    assert!(p.get_element_attribute(0, "absent").is_none());
}

#[test]
fn short_text_runs_are_not_significant() {
    let mut p = HtmlParser::new();
    // one-character runs are dropped; two-character runs are kept
    p.parse("<b>x</b><b>xy</b>");
    assert_eq!(p.get_element_count(), 3);
    assert_eq!(tag_at(&p, 0), "b");
    assert_eq!(text_at(&p, 0), "");
    assert_eq!(tag_at(&p, 1), "b");
    assert_eq!(text_at(&p, 1), "xy");
    assert_eq!(tag_at(&p, 2), "#text");
    assert_eq!(text_at(&p, 2), "xy");
}

#[test]
fn unterminated_tag_and_bare_text_end_the_scan_quietly() {
    let mut p = HtmlParser::new();
    p.parse("<div");
    assert_eq!(p.get_element_count(), 0);
    p.parse("no markup at all");
    assert_eq!(p.get_element_count(), 0);
    p.parse("");
    assert_eq!(p.get_element_count(), 0);
}

#[test]
fn reparsing_replaces_the_inventory() {
    let mut p = HtmlParser::new();
    p.parse("<div></div><p></p>");
    assert_eq!(p.get_element_count(), 2);
    p.parse("<span></span>");
    assert_eq!(p.get_element_count(), 1);
    assert_eq!(tag_at(&p, 0), "span");
}

#[test]
fn lookup_stubs_return_empty_and_absent() {
    let mut p = HtmlParser::new();
    p.parse("<div id=\"a\"></div>");
    assert!(p.get_elements_by_tag("div").is_empty());
    assert!(p.get_element_by_id("a").is_none());
}

#[test]
fn accessors_out_of_range_return_nothing() {
    let mut p = HtmlParser::new();
    p.parse("<div></div>");
    assert!(p.get_element_tag_name(1).is_none());
    assert!(p.get_element_text(7).is_none());
    assert!(p.get_element_attribute(3, "k").is_none());
    assert_eq!(p.get_element_attribute_count(3), 0);
    assert!(p.get_element_attribute_name(0, 0).is_none());
    assert!(p.get_element_attribute_name(9, 0).is_none());
}

#[test]
fn gt_inside_quoted_value_still_ends_the_tag() {
    // accepted edge-case policy: the first `>` closes the tag even inside a
    // quoted attribute value
    let mut p = HtmlParser::new();
    p.parse("<a t=\"x>y\">");
    assert_eq!(tag_at(&p, 0), "a");
    assert_eq!(p.get_element_attribute(0, "t").unwrap().as_str(), "\"x");
}

#[test]
fn inert_prefix_match_is_case_sensitive() {
    // the skip check matches the raw content; only the produced tag name is
    // lowered
    let mut p = HtmlParser::new();
    p.parse("<SCRIPT>x</SCRIPT>");
    assert_eq!(p.get_element_count(), 1);
    assert_eq!(tag_at(&p, 0), "script");
}

#[test]
fn leading_space_keeps_a_tag_alive() {
    // `< script>` does not match the inert prefix: its first token names it
    let mut p = HtmlParser::new();
    p.parse("< script>");
    assert_eq!(p.get_element_count(), 1);
    assert_eq!(tag_at(&p, 0), "script");
}
