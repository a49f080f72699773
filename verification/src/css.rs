//! The stylesheet rule extractor: a line-oriented scan producing an ordered
//! list of selector/property rules, queryable by selector substring.
//!
//! A line ending in `{` opens a selector (flushing the pending rule first);
//! a line containing `:` under an active selector records one declaration; a
//! line ending in `}` closes and flushes. A rule is emitted only when both
//! its selector and its property map are non-empty at the moment of closure.
//! Comma-grouped selectors, nested rules and at-rules pass through as opaque
//! selector text.
use vstd::prelude::*;

verus! {

use vstd::string::StringExecFns;
use crate::text::{
    find_from,
    lemma_find_from,
    lemma_find_skip,
    find_char_from,
    trim,
    trim_bounds,
    subvec,
    chars_vec,
    string_of,
    contains_sub,
    find_sub,
    vviews,
};
use crate::html::{aview, upsert, alookup, upsert_x, kv_lookup};

/// The mathematical model of one stylesheet rule.
#[verifier::ext_equal]
pub ghost struct RuleModel {
    pub sel: Seq<char>,
    pub props: Seq<(Seq<char>, Seq<char>)>,
}

/// One extracted rule: a trimmed, otherwise opaque selector, and its
/// property map (last write wins on duplicate keys).
pub struct CssRule {
    pub selector: String,
    pub properties: Vec<(String, String)>,
}

impl View for CssRule {
    type V = RuleModel;

    open spec fn view(&self) -> RuleModel {
        RuleModel { sel: self.selector@, props: aview(self.properties@) }
    }
}

/// The views of a rule list.
pub open spec fn rviews(s: Seq<CssRule>) -> Seq<RuleModel> {
    s.map_values(|r: CssRule| r@)
}

/// The newline-separated lines of `t`. A trailing newline yields a final
/// empty line, which the scan ignores.
pub open spec fn split_lines(t: Seq<char>) -> Seq<Seq<char>>
    decreases t.len(),
    via split_lines_decreases
{
    match find_from(t, 0, '\n') {
        None => seq![t],
        Some(i) => seq![t.take(i)] + split_lines(t.skip(i + 1)),
    }
}

#[via_fn]
proof fn split_lines_decreases(t: Seq<char>) {
    lemma_find_from(t, 0, '\n');
}

/// Trailing semicolons removed.
pub open spec fn strip_semis(v: Seq<char>) -> Seq<char>
    decreases v.len(),
{
    if v.len() > 0 && v.last() == ';' {
        strip_semis(v.drop_last())
    } else {
        v
    }
}

/// The line-oriented scan over lines `ls` from index `i`, with `sel` the
/// active selector (empty when none is active) and `props` the declarations
/// accumulated so far. A pending rule is flushed only when both its selector
/// and its property map are non-empty at the moment of closure; a value is
/// read up to the second `:` of its line, trimmed, with trailing semicolons
/// stripped.
pub open spec fn css_scan(
    ls: Seq<Seq<char>>,
    i: int,
    sel: Seq<char>,
    props: Seq<(Seq<char>, Seq<char>)>,
) -> Seq<RuleModel>
    decreases ls.len() - i,
{
    if i < 0 || i >= ls.len() {
        Seq::empty()
    } else {
        let line = trim(ls[i]);
        if line.len() == 0 {
            css_scan(ls, i + 1, sel, props)
        } else if line.last() == '{' {
            let nsel = trim(line.take(line.len() - 1));
            if sel.len() > 0 && props.len() > 0 {
                seq![RuleModel { sel, props }] + css_scan(ls, i + 1, nsel, Seq::empty())
            } else {
                css_scan(ls, i + 1, nsel, props)
            }
        } else {
            match find_from(line, 0, ':') {
                Some(e) => {
                    if sel.len() > 0 {
                        let key = trim(line.take(e));
                        let raw = match find_from(line, e + 1, ':') {
                            None => line.skip(e + 1),
                            Some(e2) => line.subrange(e + 1, e2),
                        };
                        let val = strip_semis(trim(raw));
                        css_scan(ls, i + 1, sel, upsert(props, key, val))
                    } else {
                        css_scan(ls, i + 1, sel, props)
                    }
                },
                None => {
                    if line.last() == '}' && sel.len() > 0 {
                        if props.len() > 0 {
                            seq![RuleModel { sel, props }] + css_scan(
                                ls,
                                i + 1,
                                Seq::empty(),
                                Seq::empty(),
                            )
                        } else {
                            css_scan(ls, i + 1, Seq::empty(), Seq::empty())
                        }
                    } else {
                        css_scan(ls, i + 1, sel, props)
                    }
                },
            }
        }
    }
}

/// The rules extracted from stylesheet text `t`.
pub open spec fn css_model(t: Seq<char>) -> Seq<RuleModel> {
    css_scan(split_lines(t), 0, Seq::empty(), Seq::empty())
}

/// Splits `t` on newlines.
pub fn split_lines_x(t: &Vec<char>) -> (r: Vec<Vec<char>>)
    ensures
        vviews(r@) == split_lines(t@),
{
    let tlen = t.len();
    let mut r: Vec<Vec<char>> = Vec::new();
    let mut i: usize = 0;
    proof {
        assert(t@.skip(0) =~= t@);
        assert(vviews(r@) =~= Seq::<Seq<char>>::empty());
    }
    loop
        invariant_except_break
            vviews(r@) + split_lines(t@.skip(i as int)) == split_lines(t@),
        invariant
            i <= t@.len(),
            tlen == t@.len(),
        ensures
            vviews(r@) == split_lines(t@),
        decreases t@.len() - i,
    {
        let ghost s = t@.skip(i as int);
        let ghost rv0 = r@;
        match find_char_from(t, i, '\n') {
            Some(j) => {
                proof {
                    lemma_find_skip(t@, i as int, '\n');
                }
                let line = subvec(t, i, j);
                proof {
                    assert(line@ =~= s.take(j - i));
                    assert(s.skip(j - i + 1) =~= t@.skip(j as int + 1));
                }
                r.push(line);
                proof {
                    assert(vviews(rv0.push(line)) =~= vviews(rv0).push(line@));
                    assert(vviews(r@) + split_lines(t@.skip(j as int + 1)) =~= vviews(rv0)
                        + split_lines(s));
                }
                i = j + 1;
            },
            None => {
                proof {
                    lemma_find_skip(t@, i as int, '\n');
                }
                let line = subvec(t, i, t.len());
                proof {
                    assert(line@ =~= s);
                }
                r.push(line);
                proof {
                    assert(vviews(rv0.push(line)) =~= vviews(rv0).push(line@));
                    assert(split_lines(s) =~= seq![s]);
                    assert(vviews(r@) =~= vviews(rv0) + split_lines(s));
                }
                break ;
            },
        }
    }
    r
}

/// Removes trailing semicolons, matching `strip_semis`.
pub fn strip_semis_x(v: &Vec<char>) -> (r: Vec<char>)
    ensures
        r@ == strip_semis(v@),
{
    let mut hi = v.len();
    proof {
        assert(v@.take(hi as int) =~= v@);
    }
    while hi > 0 && v[hi - 1] == ';'
        invariant
            hi <= v@.len(),
            strip_semis(v@) == strip_semis(v@.take(hi as int)),
        decreases hi,
    {
        proof {
            assert(v@.take(hi as int).last() == v@[hi - 1]);
            assert(v@.take(hi as int).drop_last() =~= v@.take(hi as int - 1));
        }
        hi -= 1;
    }
    proof {
        if hi > 0 {
            assert(v@.take(hi as int).last() == v@[hi - 1]);
        }
        assert(strip_semis(v@.take(hi as int)) == v@.take(hi as int));
    }
    let r = subvec(v, 0, hi);
    proof {
        assert(r@ =~= v@.take(hi as int));
    }
    r
}

/// The selector-substring predicate: whether a rule's selector contains
/// `sel` as a substring.
pub open spec fn sel_match(sel: Seq<char>) -> spec_fn(RuleModel) -> bool {
    |rm: RuleModel| contains_sub(rm.sel, sel)
}

/// First-match property lookup over the rule models: the value of `prop` on
/// the first rule whose selector contains `sel`.
pub open spec fn first_prop(rs: Seq<RuleModel>, sel: Seq<char>, prop: Seq<char>) -> Option<
    Seq<char>,
>
    decreases rs.len(),
{
    if rs.len() == 0 {
        None
    } else if contains_sub(rs[0].sel, sel) {
        alookup(rs[0].props, prop)
    } else {
        first_prop(rs.drop_first(), sel, prop)
    }
}

/// The stylesheet extractor instance: it owns the rule list produced by its
/// most recent extraction call.
pub struct CssParser {
    rules: Vec<CssRule>,
}

impl CssParser {
    /// The model of the current rule list.
    pub closed spec fn rules_model(&self) -> Seq<RuleModel> {
        rviews(self.rules@)
    }

    pub fn new() -> (r: Self)
        ensures
            r.rules_model() == Seq::<RuleModel>::empty(),
    {
        let r = Self { rules: Vec::new() };
        proof {
            assert(r.rules_model() =~= Seq::<RuleModel>::empty());
        }
        r
    }

    /// One extraction call: discards the prior rule list and replaces it
    /// with the line-oriented scan of `css`. Malformed stylesheet text never
    /// fails the call; unrecognized lines are ignored.
    pub fn parse(&mut self, css: &str)
        ensures
            final(self).rules_model() == css_model(css@),
    {
        let t = chars_vec(css);
        let lines = split_lines_x(&t);
        let ghost lv = split_lines(css@);
        let mut rules: Vec<CssRule> = Vec::new();
        let mut sel = String::new();
        let mut props: Vec<(String, String)> = Vec::new();
        let mut i: usize = 0;
        proof {
            assert(rviews(rules@) =~= Seq::<RuleModel>::empty());
            assert(aview(props@) =~= Seq::<(Seq<char>, Seq<char>)>::empty());
            assert(rviews(rules@) + css_scan(lv, 0, sel@, aview(props@)) =~= css_model(css@));
        }
        while i < lines.len()
            invariant
                i <= lines@.len(),
                vviews(lines@) == lv,
                lines@.len() == lv.len(),
                rviews(rules@) + css_scan(lv, i as int, sel@, aview(props@)) == css_model(css@),
            decreases lines@.len() - i,
        {
            let ghost sel0 = sel@;
            let ghost props0 = aview(props@);
            let ghost rules0 = rviews(rules@);
            let rawline = &lines[i];
            proof {
                assert(vviews(lines@)[i as int] == rawline@);
                assert(rawline@.subrange(0, rawline@.len() as int) =~= rawline@);
            }
            let (lo, hi) = trim_bounds(rawline, 0, rawline.len());
            let line = subvec(rawline, lo, hi);
            let ghost linet = trim(lv[i as int]);
            proof {
                assert(line@ == linet);
            }
            let n = line.len();
            if n == 0 {
                proof {
                    assert(rules0 + css_scan(lv, i as int, sel0, props0) =~= rviews(rules@)
                        + css_scan(lv, i as int + 1, sel@, aview(props@)));
                }
            } else if line[n - 1] == '{' {
                proof {
                    assert(linet.last() == line@[n - 1]);
                }
                let (l2, h2) = trim_bounds(&line, 0, n - 1);
                let nsel_v = subvec(&line, l2, h2);
                let nsel = string_of(&nsel_v);
                proof {
                    assert(line@.subrange(0, n - 1) =~= linet.take(linet.len() - 1));
                    assert(nsel@ == trim(linet.take(linet.len() - 1)));
                }
                if !sel.as_str().is_empty() && props.len() > 0 {
                    let ghost rvec0 = rules@;
                    let rule = CssRule { selector: sel, properties: props };
                    proof {
                        assert(rule@ =~= (RuleModel { sel: sel0, props: props0 }));
                        assert(rviews(rvec0.push(rule)) =~= rviews(rvec0).push(rule@));
                    }
                    rules.push(rule);
                    props = Vec::new();
                    proof {
                        assert(aview(props@) =~= Seq::<(Seq<char>, Seq<char>)>::empty());
                    }
                    sel = nsel;
                    proof {
                        assert(css_scan(lv, i as int, sel0, props0) == seq![
                            RuleModel { sel: sel0, props: props0 },
                        ] + css_scan(lv, i as int + 1, sel@, aview(props@)));
                        assert(rules0 + css_scan(lv, i as int, sel0, props0) =~= rviews(rules@)
                            + css_scan(lv, i as int + 1, sel@, aview(props@)));
                    }
                } else {
                    sel = nsel;
                    proof {
                        assert(css_scan(lv, i as int, sel0, props0) == css_scan(
                            lv,
                            i as int + 1,
                            sel@,
                            aview(props@),
                        ));
                        assert(rules0 + css_scan(lv, i as int, sel0, props0) =~= rviews(rules@)
                            + css_scan(lv, i as int + 1, sel@, aview(props@)));
                    }
                }
            } else {
                match find_char_from(&line, 0, ':') {
                    Some(e) => {
                        if !sel.as_str().is_empty() {
                            let (kl, kh) = trim_bounds(&line, 0, e);
                            let keyv = subvec(&line, kl, kh);
                            let key = string_of(&keyv);
                            proof {
                                assert(line@.subrange(0, e as int) =~= linet.take(e as int));
                                assert(key@ == trim(linet.take(e as int)));
                            }
                            let raw = match find_char_from(&line, e + 1, ':') {
                                Some(e2) => subvec(&line, e + 1, e2),
                                None => subvec(&line, e + 1, n),
                            };
                            proof {
                                assert(line@.subrange(e + 1, line@.len() as int) =~= linet.skip(
                                    e + 1,
                                ));
                            }
                            let (vl, vh) = trim_bounds(&raw, 0, raw.len());
                            proof {
                                assert(raw@.subrange(0, raw@.len() as int) =~= raw@);
                            }
                            let trimmed = subvec(&raw, vl, vh);
                            let valv = strip_semis_x(&trimmed);
                            let val = string_of(&valv);
                            upsert_x(&mut props, key, val);
                            proof {
                                assert(css_scan(lv, i as int, sel0, props0) == css_scan(
                                    lv,
                                    i as int + 1,
                                    sel@,
                                    aview(props@),
                                ));
                                assert(rules0 + css_scan(lv, i as int, sel0, props0)
                                    =~= rviews(rules@) + css_scan(
                                    lv,
                                    i as int + 1,
                                    sel@,
                                    aview(props@),
                                ));
                            }
                        } else {
                            proof {
                                assert(rules0 + css_scan(lv, i as int, sel0, props0)
                                    =~= rviews(rules@) + css_scan(
                                    lv,
                                    i as int + 1,
                                    sel@,
                                    aview(props@),
                                ));
                            }
                        }
                    },
                    None => {
                        if line[n - 1] == '}' && !sel.as_str().is_empty() {
                            proof {
                                assert(linet.last() == line@[n - 1]);
                            }
                            if props.len() > 0 {
                                let ghost rvec0 = rules@;
                                let rule = CssRule { selector: sel, properties: props };
                                proof {
                                    assert(rule@ =~= (RuleModel { sel: sel0, props: props0 }));
                                    assert(rviews(rvec0.push(rule)) =~= rviews(rvec0).push(
                                        rule@,
                                    ));
                                }
                                rules.push(rule);
                                props = Vec::new();
                                sel = String::new();
                                proof {
                                    assert(aview(props@) =~= Seq::<
                                        (Seq<char>, Seq<char>),
                                    >::empty());
                                    assert(css_scan(lv, i as int, sel0, props0) == seq![
                                        RuleModel { sel: sel0, props: props0 },
                                    ] + css_scan(lv, i as int + 1, sel@, aview(props@)));
                                    assert(rules0 + css_scan(lv, i as int, sel0, props0)
                                        =~= rviews(rules@) + css_scan(
                                        lv,
                                        i as int + 1,
                                        sel@,
                                        aview(props@),
                                    ));
                                }
                            } else {
                                sel = String::new();
                                proof {
                                    assert(aview(props@) =~= Seq::<
                                        (Seq<char>, Seq<char>),
                                    >::empty());
                                    assert(css_scan(lv, i as int, sel0, props0) == css_scan(
                                        lv,
                                        i as int + 1,
                                        sel@,
                                        aview(props@),
                                    ));
                                    assert(rules0 + css_scan(lv, i as int, sel0, props0)
                                        =~= rviews(rules@) + css_scan(
                                        lv,
                                        i as int + 1,
                                        sel@,
                                        aview(props@),
                                    ));
                                }
                            }
                        } else {
                            proof {
                                assert(rules0 + css_scan(lv, i as int, sel0, props0)
                                    =~= rviews(rules@) + css_scan(
                                    lv,
                                    i as int + 1,
                                    sel@,
                                    aview(props@),
                                ));
                            }
                        }
                    },
                }
            }
            i += 1;
        }
        proof {
            assert(css_scan(lv, lines@.len() as int, sel@, aview(props@)) =~= Seq::<
                RuleModel,
            >::empty());
            assert(rviews(rules@) =~= css_model(css@));
        }
        self.rules = rules;
    }

    /// Every rule whose selector contains `selector` as a substring, in
    /// discovery order.
    pub fn get_rules_for_selector<'a>(&'a self, selector: &str) -> (r: Vec<&'a CssRule>)
        ensures
            r@.map_values(|c: &CssRule| c@) == self.rules_model().filter(sel_match(selector@)),
    {
        let ghost pred = sel_match(selector@);
        let ghost model = self.rules_model();
        let selv = chars_vec(selector);
        let mut out: Vec<&CssRule> = Vec::new();
        let mut i: usize = 0;
        proof {
            reveal(Seq::filter);
            assert(out@.map_values(|c: &CssRule| c@) =~= Seq::<RuleModel>::empty());
            assert(model.take(0) =~= Seq::<RuleModel>::empty());
            assert(Seq::<RuleModel>::empty().filter(pred) =~= Seq::<RuleModel>::empty());
        }
        while i < self.rules.len()
            invariant
                i <= self.rules@.len(),
                selv@ == selector@,
                model == self.rules_model(),
                pred == sel_match(selector@),
                out@.map_values(|c: &CssRule| c@) == model.take(i as int).filter(pred),
            decreases self.rules@.len() - i,
        {
            let ghost out0 = out@;
            let rule = &self.rules[i];
            proof {
                assert(model[i as int] == rule@);
                assert(model.take(i as int + 1).drop_last() =~= model.take(i as int));
                assert(model.take(i as int + 1).last() == rule@);
            }
            let rsel = chars_vec(rule.selector.as_str());
            if find_sub(&rsel, &selv) {
                out.push(rule);
                proof {
                    reveal(Seq::filter);
                    assert(pred(rule@));
                    assert(model.take(i as int + 1).filter(pred) == model.take(i as int).filter(
                        pred,
                    ).push(rule@));
                    assert(out@.map_values(|c: &CssRule| c@) =~= out0.map_values(
                        |c: &CssRule| c@,
                    ).push(rule@));
                }
            } else {
                proof {
                    reveal(Seq::filter);
                    assert(!pred(rule@));
                    assert(model.take(i as int + 1).filter(pred) == model.take(i as int).filter(
                        pred,
                    ));
                }
            }
            i += 1;
        }
        proof {
            assert(model.take(self.rules@.len() as int) =~= model);
        }
        out
    }

    /// The value of `property` on the first rule whose selector contains
    /// `selector`; absent when no rule matches or the first matching rule
    /// lacks the property.
    pub fn get_property_value(&self, selector: &str, property: &str) -> (r: Option<&String>)
        ensures
            match r {
                Some(s) => first_prop(self.rules_model(), selector@, property@) == Some(s@),
                None => first_prop(self.rules_model(), selector@, property@) is None,
            },
    {
        let selv = chars_vec(selector);
        let ghost model = self.rules_model();
        proof {
            assert(model.skip(0) =~= model);
        }
        let mut i: usize = 0;
        while i < self.rules.len()
            invariant
                i <= self.rules@.len(),
                selv@ == selector@,
                model == self.rules_model(),
                first_prop(model, selector@, property@) == first_prop(
                    model.skip(i as int),
                    selector@,
                    property@,
                ),
            decreases self.rules@.len() - i,
        {
            let rule = &self.rules[i];
            proof {
                assert(model[i as int] == rule@);
                assert(model.skip(i as int)[0] == model[i as int]);
            }
            let rsel = chars_vec(rule.selector.as_str());
            if find_sub(&rsel, &selv) {
                return kv_lookup(&rule.properties, property);
            }
            proof {
                assert(model.skip(i as int).drop_first() =~= model.skip(i as int + 1));
            }
            i += 1;
        }
        proof {
            assert(model.skip(i as int) =~= Seq::<RuleModel>::empty());
        }
        None
    }
}

/// A rule reaches the output only when, at the moment of its closure, both
/// its selector and its property map are non-empty: the scan never emits an
/// empty rule.
pub proof fn lemma_rules_nonempty(
    ls: Seq<Seq<char>>,
    i: int,
    sel: Seq<char>,
    props: Seq<(Seq<char>, Seq<char>)>,
)
    ensures
        forall|j: int| 0 <= j < css_scan(ls, i, sel, props).len() ==> (#[trigger] css_scan(
            ls,
            i,
            sel,
            props,
        )[j]).sel.len() > 0 && css_scan(ls, i, sel, props)[j].props.len() > 0,
    decreases ls.len() - i,
{
    if 0 <= i < ls.len() {
        let line = trim(ls[i]);
        if line.len() == 0 {
            lemma_rules_nonempty(ls, i + 1, sel, props);
            assert(css_scan(ls, i, sel, props) == css_scan(ls, i + 1, sel, props));
        } else if line.last() == '{' {
            let nsel = trim(line.take(line.len() - 1));
            if sel.len() > 0 && props.len() > 0 {
                lemma_rules_nonempty(ls, i + 1, nsel, Seq::empty());
                let whole = css_scan(ls, i, sel, props);
                let rest = css_scan(ls, i + 1, nsel, Seq::empty());
                assert(whole == seq![RuleModel { sel, props }] + rest);
                assert forall|j: int| 0 <= j < whole.len() implies (#[trigger] whole[j]).sel.len()
                    > 0 && whole[j].props.len() > 0 by {
                    if j > 0 {
                        assert(whole[j] == rest[j - 1]);
                    }
                }
            } else {
                lemma_rules_nonempty(ls, i + 1, nsel, props);
                assert(css_scan(ls, i, sel, props) == css_scan(ls, i + 1, nsel, props));
            }
        } else {
            match find_from(line, 0, ':') {
                Some(e) => {
                    if sel.len() > 0 {
                        let key = trim(line.take(e));
                        let raw = match find_from(line, e + 1, ':') {
                            None => line.skip(e + 1),
                            Some(e2) => line.subrange(e + 1, e2),
                        };
                        let val = strip_semis(trim(raw));
                        lemma_rules_nonempty(ls, i + 1, sel, upsert(props, key, val));
                        assert(css_scan(ls, i, sel, props) == css_scan(
                            ls,
                            i + 1,
                            sel,
                            upsert(props, key, val),
                        ));
                    } else {
                        lemma_rules_nonempty(ls, i + 1, sel, props);
                        assert(css_scan(ls, i, sel, props) == css_scan(ls, i + 1, sel, props));
                    }
                },
                None => {
                    if line.last() == '}' && sel.len() > 0 {
                        lemma_rules_nonempty(ls, i + 1, Seq::empty(), Seq::empty());
                        if props.len() > 0 {
                            let whole = css_scan(ls, i, sel, props);
                            let rest = css_scan(ls, i + 1, Seq::empty(), Seq::empty());
                            assert(whole == seq![RuleModel { sel, props }] + rest);
                            assert forall|j: int| 0 <= j < whole.len() implies (#[trigger] whole[
                                j
                            ]).sel.len() > 0 && whole[j].props.len() > 0 by {
                                if j > 0 {
                                    assert(whole[j] == rest[j - 1]);
                                }
                            }
                        } else {
                            assert(css_scan(ls, i, sel, props) == css_scan(
                                ls,
                                i + 1,
                                Seq::empty(),
                                Seq::empty(),
                            ));
                        }
                    } else {
                        lemma_rules_nonempty(ls, i + 1, sel, props);
                        assert(css_scan(ls, i, sel, props) == css_scan(ls, i + 1, sel, props));
                    }
                },
            }
        }
    }
}

/// Every rule of the extraction model is non-empty on both sides.
pub proof fn lemma_model_rules_nonempty(t: Seq<char>)
    ensures
        forall|j: int| 0 <= j < css_model(t).len() ==> (#[trigger] css_model(t)[j]).sel.len() > 0
            && css_model(t)[j].props.len() > 0,
{
    lemma_rules_nonempty(split_lines(t), 0, Seq::empty(), Seq::empty());
}

/// The emitting direction of the closure rule, at an opening line: a line
/// ending in `{` flushes the pending rule to the front of the remaining
/// output whenever selector and properties are both non-empty, and the text
/// before the `{`, trimmed, becomes the next active selector.
pub proof fn lemma_open_brace_flushes(
    ls: Seq<Seq<char>>,
    i: int,
    sel: Seq<char>,
    props: Seq<(Seq<char>, Seq<char>)>,
)
    requires
        0 <= i < ls.len(),
        sel.len() > 0,
        props.len() > 0,
        trim(ls[i]).len() > 0,
        trim(ls[i]).last() == '{',
    ensures
        css_scan(ls, i, sel, props) == seq![(RuleModel { sel, props })] + css_scan(
            ls,
            i + 1,
            trim(trim(ls[i]).take(trim(ls[i]).len() - 1)),
            Seq::empty(),
        ),
{
}

/// The emitting direction of the closure rule, at a closing line: a line
/// ending in `}` and holding no `:` flushes the pending rule whenever
/// selector and properties are both non-empty, and clears the selector.
pub proof fn lemma_closing_brace_flushes(
    ls: Seq<Seq<char>>,
    i: int,
    sel: Seq<char>,
    props: Seq<(Seq<char>, Seq<char>)>,
)
    requires
        0 <= i < ls.len(),
        sel.len() > 0,
        props.len() > 0,
        trim(ls[i]).len() > 0,
        trim(ls[i]).last() == '}',
        find_from(trim(ls[i]), 0, ':') is None,
    ensures
        css_scan(ls, i, sel, props) == seq![(RuleModel { sel, props })] + css_scan(
            ls,
            i + 1,
            Seq::empty(),
            Seq::empty(),
        ),
{
}

} // verus!
