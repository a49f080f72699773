use webgu::css::CssParser;

#[test]
fn single_rule_with_one_declaration() {
    let mut p = CssParser::new();
    p.parse(".a {\n color: red;\n}\n");
    let rules = p.get_rules_for_selector(".a");
    assert_eq!(rules.len(), 1);
    assert_eq!(rules[0].selector, ".a");
    assert_eq!(rules[0].properties.len(), 1);
    assert_eq!(rules[0].properties[0].0, "color");
    assert_eq!(rules[0].properties[0].1, "red");
    assert_eq!(p.get_property_value(".a", "color").unwrap().as_str(), "red");
}

#[test]
fn rule_without_declarations_is_discarded() {
    let mut p = CssParser::new();
    p.parse(".empty {\n}\n.b {\n x: y;\n}\n");
    assert!(p.get_rules_for_selector(".empty").is_empty());
    let rules = p.get_rules_for_selector(".b");
    assert_eq!(rules.len(), 1);
    assert_eq!(p.get_property_value(".b", "x").unwrap().as_str(), "y");
}

#[test]
fn next_opening_brace_flushes_the_pending_rule() {
    let mut p = CssParser::new();
    p.parse(".a {\n color: red\n.b {\n z: w;\n}\n");
    let a = p.get_rules_for_selector(".a");
    assert_eq!(a.len(), 1);
    assert_eq!(a[0].properties[0].0, "color");
    assert_eq!(a[0].properties[0].1, "red");
    let b = p.get_rules_for_selector(".b");
    assert_eq!(b.len(), 1);
    assert_eq!(p.get_property_value(".b", "z").unwrap().as_str(), "w");
}

#[test]
fn rules_for_returns_all_matches_in_discovery_order() {
    let mut p = CssParser::new();
    p.parse(".nav {\n color: blue;\n}\n.navbar {\n width: 10px;\n}\n.other {\n color: green;\n}\n");
    let rules = p.get_rules_for_selector("nav");
    assert_eq!(rules.len(), 2);
    assert_eq!(rules[0].selector, ".nav");
    assert_eq!(rules[1].selector, ".navbar");
}

#[test]
fn property_value_reads_only_the_first_matching_rule() {
    let mut p = CssParser::new();
    p.parse(".nav {\n color: blue;\n}\n.navbar {\n width: 10px;\n}\n");
    // the first rule matching "nav" lacks `width`: the second is not consulted
    assert!(p.get_property_value("nav", "width").is_none());
    assert_eq!(p.get_property_value("navbar", "width").unwrap().as_str(), "10px");
    assert_eq!(p.get_property_value("nav", "color").unwrap().as_str(), "blue");
}

#[test]
fn value_is_read_up_to_the_second_colon() {
    // accepted simplification: a value containing another `:` is kept only up
    // to that point
    let mut p = CssParser::new();
    p.parse(".a {\n background: url(http://x);\n}\n");
    assert_eq!(
        p.get_property_value(".a", "background").unwrap().as_str(),
        "url(http"
    );
}

#[test]
fn duplicate_property_keys_last_write_wins() {
    let mut p = CssParser::new();
    p.parse(".a {\n color: red;\n color: blue;\n}\n");
    let rules = p.get_rules_for_selector(".a");
    assert_eq!(rules[0].properties.len(), 1);
    assert_eq!(p.get_property_value(".a", "color").unwrap().as_str(), "blue");
}

#[test]
fn declarations_outside_any_selector_are_ignored() {
    let mut p = CssParser::new();
    p.parse("color: red;\n.a {\n x: y;\n}\n");
    let rules = p.get_rules_for_selector("");
    assert_eq!(rules.len(), 1);
    assert_eq!(rules[0].selector, ".a");
    assert!(p.get_property_value(".a", "color").is_none());
}

#[test]
fn comma_grouped_selector_passes_through_opaquely() {
    let mut p = CssParser::new();
    p.parse("h1, h2 {\n margin: 0;\n}\n");
    let rules = p.get_rules_for_selector("h2");
    assert_eq!(rules.len(), 1);
    assert_eq!(rules[0].selector, "h1, h2");
}

#[test]
fn reparsing_replaces_the_rule_list() {
    let mut p = CssParser::new();
    p.parse(".a {\n x: y;\n}\n");
    p.parse(".b {\n u: v;\n}\n");
    assert!(p.get_rules_for_selector(".a").is_empty());
    assert_eq!(p.get_rules_for_selector(".b").len(), 1);
}

#[test]
fn pending_rule_at_end_of_input_is_dropped() {
    let mut p = CssParser::new();
    p.parse(".a {\n color: red;\n");
    assert!(p.get_rules_for_selector(".a").is_empty());
}

#[test]
fn declaration_wins_over_closing_brace_on_one_line() {
    // a line holding `:` is read as a declaration even when it ends in `}`
    let mut p = CssParser::new();
    p.parse(".a {\n color:red}\n x: y;\n}\n");
    let rules = p.get_rules_for_selector(".a");
    assert_eq!(rules.len(), 1);
    assert_eq!(p.get_property_value(".a", "color").unwrap().as_str(), "red}");
    assert_eq!(p.get_property_value(".a", "x").unwrap().as_str(), "y");
}

#[test]
fn empty_selector_collects_nothing() {
    let mut p = CssParser::new();
    p.parse("{\n a: b;\n}\n");
    assert!(p.get_rules_for_selector("").is_empty());
}
