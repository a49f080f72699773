//! The markup tokenizer: a single bounded left-to-right scan that produces a
//! flat, ordered inventory of elements from raw markup text.
//!
//! The scan locates `<...>` tag spans, skips comments, doctypes, closing tags
//! and inert tags, splits tag bodies into a lowercased name and `key=value`
//! attributes, and records significant text runs as synthetic `#text`
//! elements. Nesting is not reconstructed: `children` is declared but always
//! left empty.
use vstd::prelude::*;

verus! {

use vstd::string::StringExecFns;
use crate::text::{
    find_from,
    lemma_find_from,
    lemma_find_from_is,
    find_char_from,
    trim,
    trim_bounds,
    subvec,
    chars_vec,
    string_of,
    split_ws,
    split_ws_x,
    vviews,
    lower_char,
    lower_seq,
    lower_vec,
    strip_quotes,
    strip_quotes_x,
    starts_with_chars,
};

/// Cap on the number of elements one extraction call may produce; scanning
/// halts silently once it is reached.
pub const MAX_ELEMENTS: usize = 500;

/// The mathematical model of one extracted element: its (lowercased) tag
/// name, its attribute list, and its attached text run.
#[verifier::ext_equal]
pub ghost struct ElemModel {
    pub tag: Seq<char>,
    pub attrs: Seq<(Seq<char>, Seq<char>)>,
    pub text: Seq<char>,
}

/// One extracted element. `children` is reserved for nesting, which the
/// scanner does not reconstruct; it is always empty.
pub struct HtmlElement {
    pub tag_name: String,
    pub attributes: Vec<(String, String)>,
    pub text_content: String,
    pub children: Vec<HtmlElement>,
}

/// The views of an attribute list.
pub open spec fn aview(a: Seq<(String, String)>) -> Seq<(Seq<char>, Seq<char>)> {
    a.map_values(|p: (String, String)| (p.0@, p.1@))
}

impl View for HtmlElement {
    type V = ElemModel;

    open spec fn view(&self) -> ElemModel {
        ElemModel { tag: self.tag_name@, attrs: aview(self.attributes@), text: self.text_content@ }
    }
}

/// The views of an element list.
pub open spec fn eviews(s: Seq<HtmlElement>) -> Seq<ElemModel> {
    s.map_values(|e: HtmlElement| e@)
}

/// The `key=value` attribute read from one token: the key is everything
/// before the first `=`, the value everything after it, with one layer of
/// surrounding quotes stripped. A token with no `=` is no attribute.
pub open spec fn attr_of(tok: Seq<char>) -> Option<(Seq<char>, Seq<char>)> {
    match find_from(tok, 0, '=') {
        None => None,
        Some(e) => Some((tok.take(e), strip_quotes(tok.skip(e + 1)))),
    }
}

/// Insert-or-overwrite on an attribute list: a duplicate key keeps its
/// position and takes the new value (last write wins).
pub open spec fn upsert(
    a: Seq<(Seq<char>, Seq<char>)>,
    k: Seq<char>,
    v: Seq<char>,
) -> Seq<(Seq<char>, Seq<char>)>
    decreases a.len(),
{
    if a.len() == 0 {
        seq![(k, v)]
    } else if a[0].0 == k {
        seq![(k, v)] + a.drop_first()
    } else {
        seq![a[0]] + upsert(a.drop_first(), k, v)
    }
}

/// The attribute list accumulated from a token sequence, last write wins.
pub open spec fn attrs_of(toks: Seq<Seq<char>>) -> Seq<(Seq<char>, Seq<char>)>
    decreases toks.len(),
{
    if toks.len() == 0 {
        Seq::empty()
    } else {
        let rest = attrs_of(toks.drop_last());
        match attr_of(toks.last()) {
            None => rest,
            Some(kv) => upsert(rest, kv.0, kv.1),
        }
    }
}

/// First-match lookup in an attribute list.
pub open spec fn alookup(a: Seq<(Seq<char>, Seq<char>)>, k: Seq<char>) -> Option<Seq<char>>
    decreases a.len(),
{
    if a.len() == 0 {
        None
    } else if a[0].0 == k {
        Some(a[0].1)
    } else {
        alookup(a.drop_first(), k)
    }
}

proof fn lemma_upsert_found(s: Seq<(Seq<char>, Seq<char>)>, k: Seq<char>, v: Seq<char>, j: int)
    requires
        0 <= j < s.len(),
        s[j].0 == k,
        forall|m: int| 0 <= m < j ==> s[m].0 != k,
    ensures
        upsert(s, k, v) == s.update(j, (k, v)),
    decreases j,
{
    if j == 0 {
        assert(upsert(s, k, v) =~= s.update(0, (k, v)));
    } else {
        lemma_upsert_found(s.drop_first(), k, v, j - 1);
        assert(s.drop_first().update(j - 1, (k, v)) =~= s.update(j, (k, v)).drop_first());
        assert(upsert(s, k, v) =~= s.update(j, (k, v)));
    }
}

proof fn lemma_upsert_absent(s: Seq<(Seq<char>, Seq<char>)>, k: Seq<char>, v: Seq<char>)
    requires
        forall|m: int| 0 <= m < s.len() ==> s[m].0 != k,
    ensures
        upsert(s, k, v) == s.push((k, v)),
    decreases s.len(),
{
    if s.len() == 0 {
        assert(upsert(s, k, v) =~= s.push((k, v)));
    } else {
        lemma_upsert_absent(s.drop_first(), k, v);
        assert(upsert(s, k, v) =~= s.push((k, v)));
    }
}

/// Insert-or-overwrite on an attribute vector, matching `upsert`.
pub(crate) fn upsert_x(a: &mut Vec<(String, String)>, k: String, v: String)
    ensures
        aview(final(a)@) == upsert(aview(old(a)@), k@, v@),
{
    let mut j: usize = 0;
    while j < a.len()
        invariant
            j <= a@.len(),
            a@ == old(a)@,
            forall|m: int| 0 <= m < j ==> aview(a@)[m].0 != k@,
        decreases a@.len() - j,
    {
        if a[j].0 == k {
            proof {
                assert(aview(a@)[j as int].0 == k@);
            }
            let _kept = a.remove(j);
            a.insert(j, (k, v));
            proof {
                lemma_upsert_found(aview(old(a)@), k@, v@, j as int);
                assert(old(a)@.remove(j as int).insert(j as int, (k, v)) =~= old(a)@.update(
                    j as int,
                    (k, v),
                ));
                assert(aview(old(a)@.update(j as int, (k, v))) =~= aview(old(a)@).update(
                    j as int,
                    (k@, v@),
                ));
            }
            return ;
        }
        j += 1;
    }
    proof {
        lemma_upsert_absent(aview(a@), k@, v@);
    }
    a.push((k, v));
    proof {
        assert(aview(old(a)@.push((k, v))) =~= aview(old(a)@).push((k@, v@)));
    }
}

/// First-match lookup in a key/value vector, matching `alookup`.
pub(crate) fn kv_lookup<'a>(a: &'a Vec<(String, String)>, key: &str) -> (r: Option<&'a String>)
    ensures
        match r {
            Some(s) => alookup(aview(a@), key@) == Some(s@),
            None => alookup(aview(a@), key@) is None,
        },
{
    let k = String::from_str(key);
    let ghost attrs = aview(a@);
    proof {
        assert(attrs.skip(0) =~= attrs);
    }
    let mut j: usize = 0;
    while j < a.len()
        invariant
            j <= a@.len(),
            attrs == aview(a@),
            k@ == key@,
            alookup(attrs, key@) == alookup(attrs.skip(j as int), key@),
        decreases a@.len() - j,
    {
        proof {
            assert(attrs.skip(j as int)[0] == attrs[j as int]);
        }
        let pair = &a[j];
        if pair.0 == k {
            proof {
                assert(*pair == a@[j as int]);
                assert(attrs[j as int] == (a@[j as int].0@, a@[j as int].1@));
                assert(alookup(attrs.skip(j as int), key@) == Some(attrs[j as int].1));
            }
            return Some(&pair.1);
        }
        proof {
            assert(attrs.skip(j as int).drop_first() =~= attrs.skip(j as int + 1));
        }
        j += 1;
    }
    proof {
        assert(attrs.skip(j as int) =~= Seq::<(Seq<char>, Seq<char>)>::empty());
    }
    None
}

/// Tag content that produces no element and does not consume the cap:
/// comments and doctypes (leading `!`), closing tags (leading `/`), and the
/// inert tags, matched by prefix.
pub open spec fn skippable(content: Seq<char>) -> bool {
    ||| (content.len() > 0 && (content[0] == '!' || content[0] == '/'))
    ||| "script"@.is_prefix_of(content)
    ||| "style"@.is_prefix_of(content)
    ||| "meta"@.is_prefix_of(content)
    ||| "link"@.is_prefix_of(content)
    ||| "noscript"@.is_prefix_of(content)
}

/// A text run counts only when, after trimming, it is longer than one
/// character.
pub open spec fn significant(tt: Seq<char>) -> bool {
    tt.len() > 1
}

/// The synthetic element that stands for a standalone text run.
pub open spec fn text_elem(txt: Seq<char>) -> ElemModel {
    ElemModel { tag: "#text"@, attrs: Seq::empty(), text: txt }
}

/// The element a non-skipped tag body yields: first token, lowercased, is
/// the tag name; the remaining tokens feed the attribute list; `txt` is the
/// trailing text attached to it. A body with no tokens yields nothing.
pub open spec fn tag_elem(content: Seq<char>, txt: Seq<char>) -> Option<ElemModel> {
    let toks = split_ws(content);
    if toks.len() == 0 {
        None
    } else {
        Some(ElemModel { tag: lower_seq(toks[0]), attrs: attrs_of(toks.skip(1)), text: txt })
    }
}

/// The text run captured after a consumed tag: the text up to the next `<`,
/// trimmed, when significant; empty otherwise (also when no `<` follows).
pub open spec fn trail_text(t: Seq<char>, p: int) -> Seq<char> {
    match find_from(t, p, '<') {
        None => Seq::empty(),
        Some(n) => {
            let tt = trim(t.subrange(p, n));
            if significant(tt) {
                tt
            } else {
                Seq::empty()
            }
        },
    }
}

/// The bounded scan from position `pos` with `room` element slots left: the
/// canonical model of extraction. Text strictly before the next `<` becomes
/// a `#text` element when significant; the tag span `<...>` either is
/// skipped or yields one element; the scan then resumes after the `>`. The
/// scan stops at end of input, when no `<` or no closing `>` is found, or
/// when `room` runs out.
pub open spec fn scan_from(t: Seq<char>, pos: int, room: nat) -> Seq<ElemModel>
    decreases t.len() - pos,
    via scan_from_decreases
{
    if room == 0 || pos < 0 || pos >= t.len() {
        Seq::empty()
    } else {
        match find_from(t, pos, '<') {
            None => Seq::empty(),
            Some(ts) => {
                let pre = trim(t.subrange(pos, ts));
                let txt: Seq<ElemModel> = if significant(pre) {
                    seq![text_elem(pre)]
                } else {
                    Seq::empty()
                };
                if room - txt.len() == 0 {
                    txt
                } else {
                    match find_from(t, ts, '>') {
                        None => txt,
                        Some(te) => {
                            let content = t.subrange(ts + 1, te);
                            let produced: Seq<ElemModel> = if skippable(content) {
                                Seq::empty()
                            } else {
                                match tag_elem(content, trail_text(t, te + 1)) {
                                    None => Seq::empty(),
                                    Some(e) => seq![e],
                                }
                            };
                            txt + produced + scan_from(
                                t,
                                te + 1,
                                (room - txt.len() - produced.len()) as nat,
                            )
                        },
                    }
                }
            },
        }
    }
}

#[via_fn]
proof fn scan_from_decreases(t: Seq<char>, pos: int, room: nat) {
    if !(room == 0 || pos < 0 || pos >= t.len()) {
        match find_from(t, pos, '<') {
            None => {},
            Some(ts) => {
                lemma_find_from(t, pos, '<');
                match find_from(t, ts, '>') {
                    None => {},
                    Some(te) => {
                        lemma_find_from(t, ts, '>');
                    },
                }
            },
        }
    }
}

/// The unbounded scan: what extraction would yield with no cap.
pub open spec fn scan_all(t: Seq<char>, pos: int) -> Seq<ElemModel>
    decreases t.len() - pos,
    via scan_all_decreases
{
    if pos < 0 || pos >= t.len() {
        Seq::empty()
    } else {
        match find_from(t, pos, '<') {
            None => Seq::empty(),
            Some(ts) => {
                let pre = trim(t.subrange(pos, ts));
                let txt: Seq<ElemModel> = if significant(pre) {
                    seq![text_elem(pre)]
                } else {
                    Seq::empty()
                };
                match find_from(t, ts, '>') {
                    None => txt,
                    Some(te) => {
                        let content = t.subrange(ts + 1, te);
                        let produced: Seq<ElemModel> = if skippable(content) {
                            Seq::empty()
                        } else {
                            match tag_elem(content, trail_text(t, te + 1)) {
                                None => Seq::empty(),
                                Some(e) => seq![e],
                            }
                        };
                        txt + produced + scan_all(t, te + 1)
                    },
                }
            },
        }
    }
}

#[via_fn]
proof fn scan_all_decreases(t: Seq<char>, pos: int) {
    if !(pos < 0 || pos >= t.len()) {
        match find_from(t, pos, '<') {
            None => {},
            Some(ts) => {
                lemma_find_from(t, pos, '<');
                match find_from(t, ts, '>') {
                    None => {},
                    Some(te) => {
                        lemma_find_from(t, ts, '>');
                    },
                }
            },
        }
    }
}

/// The full model of one extraction call over `t`: the bounded scan from
/// the start, with the element cap as its room.
pub open spec fn extract_model(t: Seq<char>) -> Seq<ElemModel> {
    scan_from(t, 0, MAX_ELEMENTS as nat)
}

fn text_tag_string() -> (r: String)
    ensures
        r@ == "#text"@,
{
    String::from_str("#text")
}

fn skippable_x(content: &Vec<char>) -> (r: bool)
    ensures
        r == skippable(content@),
{
    if content.len() > 0 && (content[0] == '!' || content[0] == '/') {
        return true;
    }
    let p = chars_vec("script");
    if starts_with_chars(content, &p) {
        return true;
    }
    let p = chars_vec("style");
    if starts_with_chars(content, &p) {
        return true;
    }
    let p = chars_vec("meta");
    if starts_with_chars(content, &p) {
        return true;
    }
    let p = chars_vec("link");
    if starts_with_chars(content, &p) {
        return true;
    }
    let p = chars_vec("noscript");
    starts_with_chars(content, &p)
}

/// The extractor instance: it owns the element inventory produced by its
/// most recent extraction call.
pub struct HtmlParser {
    elements: Vec<HtmlElement>,
}

impl HtmlParser {
    /// The model of the current inventory.
    pub closed spec fn elems(&self) -> Seq<ElemModel> {
        eviews(self.elements@)
    }

    /// Every stored element has empty `children`: the scan is flat.
    pub closed spec fn flat(&self) -> bool {
        forall|i: int| 0 <= i < self.elements@.len() ==> self.elements@[i].children@.len() == 0
    }

    pub fn new() -> (r: Self)
        ensures
            r.elems() == Seq::<ElemModel>::empty(),
            r.flat(),
    {
        let r = Self { elements: Vec::new() };
        proof {
            assert(r.elems() =~= Seq::<ElemModel>::empty());
        }
        r
    }

    /// Position of the next `<` at or after `start`.
    fn find_next_tag_start(&self, chars: &Vec<char>, start: usize) -> (r: Option<usize>)
        ensures
            match r {
                Some(j) => start <= j < chars@.len() && find_from(chars@, start as int, '<')
                    == Some(j as int),
                None => find_from(chars@, start as int, '<') is None,
            },
    {
        find_char_from(chars, start, '<')
    }

    /// Position of the next `>` at or after `start`.
    fn find_tag_end(&self, chars: &Vec<char>, start: usize) -> (r: Option<usize>)
        ensures
            match r {
                Some(j) => start <= j < chars@.len() && find_from(chars@, start as int, '>')
                    == Some(j as int),
                None => find_from(chars@, start as int, '>') is None,
            },
    {
        find_char_from(chars, start, '>')
    }

    /// Splits a tag body into its lowercased name and its attribute list.
    /// The element comes back with empty text; the caller attaches the
    /// trailing text run.
    fn parse_tag(&self, content: &Vec<char>) -> (r: Option<HtmlElement>)
        ensures
            match r {
                None => split_ws(content@).len() == 0,
                Some(e) => {
                    &&& split_ws(content@).len() > 0
                    &&& e.tag_name@ == lower_seq(split_ws(content@)[0])
                    &&& aview(e.attributes@) == attrs_of(split_ws(content@).skip(1))
                    &&& e.text_content@.len() == 0
                    &&& e.children@.len() == 0
                },
            },
    {
        let toks = split_ws_x(content, 0, content.len());
        proof {
            assert(content@.subrange(0, content@.len() as int) =~= content@);
            assert(vviews(toks@).len() == toks@.len());
        }
        if toks.len() == 0 {
            return None;
        }
        let tag_chars = lower_vec(&toks[0]);
        let tag_name = string_of(&tag_chars);
        proof {
            assert(vviews(toks@)[0] == toks@[0]@);
        }
        let mut attributes: Vec<(String, String)> = Vec::new();
        let ghost all = split_ws(content@);
        proof {
            assert(aview(attributes@) =~= Seq::<(Seq<char>, Seq<char>)>::empty());
            assert(all.subrange(1, 1) =~= Seq::<Seq<char>>::empty());
            assert(attrs_of(all.subrange(1, 1)) == Seq::<(Seq<char>, Seq<char>)>::empty());
        }
        let mut i: usize = 1;
        while i < toks.len()
            invariant
                1 <= i <= toks@.len(),
                vviews(toks@) == all,
                toks@.len() == all.len(),
                aview(attributes@) == attrs_of(all.subrange(1, i as int)),
            decreases toks@.len() - i,
        {
            let tok = &toks[i];
            let toklen = tok.len();
            proof {
                assert(vviews(toks@)[i as int] == toks@[i as int]@);
                assert(all.subrange(1, i + 1).drop_last() =~= all.subrange(1, i as int));
                assert(all.subrange(1, i + 1).last() == tok@);
            }
            match find_char_from(tok, 0, '=') {
                Some(eq) => {
                    let kc = subvec(tok, 0, eq);
                    let key = string_of(&kc);
                    let raw = subvec(tok, eq + 1, toklen);
                    let vc = strip_quotes_x(&raw);
                    let val = string_of(&vc);
                    proof {
                        assert(tok@.take(eq as int) =~= tok@.subrange(0, eq as int));
                        assert(tok@.skip(eq + 1) =~= tok@.subrange(eq + 1, tok@.len() as int));
                        assert(attr_of(tok@) == Some((key@, val@)));
                    }
                    upsert_x(&mut attributes, key, val);
                },
                None => {
                    proof {
                        assert(attr_of(tok@) is None);
                    }
                },
            }
            i += 1;
        }
        proof {
            assert(all.subrange(1, all.len() as int) =~= all.skip(1));
        }
        Some(
            HtmlElement {
                tag_name,
                attributes,
                text_content: String::new(),
                children: Vec::new(),
            },
        )
    }

    /// One extraction call: discards the prior inventory and replaces it
    /// with the bounded scan of `html`. Malformed markup never fails the
    /// call; the scan simply stops early or skips the malformed span.
    pub fn parse(&mut self, html: &str)
        ensures
            final(self).elems() == extract_model(html@),
            final(self).flat(),
    {
        let t = chars_vec(html);
        let mut elements: Vec<HtmlElement> = Vec::new();
        let mut pos: usize = 0;
        proof {
            assert(eviews(elements@) =~= Seq::<ElemModel>::empty());
            assert(eviews(elements@) + scan_from(t@, 0, (MAX_ELEMENTS - elements@.len()) as nat)
                =~= extract_model(t@));
        }
        loop
            invariant_except_break
                eviews(elements@) + scan_from(
                    t@,
                    pos as int,
                    (MAX_ELEMENTS - elements@.len()) as nat,
                ) == extract_model(t@),
            invariant
                t@ == html@,
                pos <= t@.len(),
                elements@.len() <= MAX_ELEMENTS,
                forall|i: int| 0 <= i < elements@.len() ==> elements@[i].children@.len() == 0,
            ensures
                eviews(elements@) == extract_model(t@),
                forall|i: int| 0 <= i < elements@.len() ==> elements@[i].children@.len() == 0,
            decreases t@.len() - pos,
        {
            let ghost els0 = elements@;
            let ghost pos0 = pos as int;
            let ghost room0 = (MAX_ELEMENTS - elements@.len()) as nat;
            if elements.len() == MAX_ELEMENTS {
                proof {
                    assert(scan_from(t@, pos0, room0) =~= Seq::<ElemModel>::empty());
                    assert(eviews(elements@) =~= eviews(elements@) + scan_from(t@, pos0, room0));
                }
                break ;
            }
            if pos >= t.len() {
                proof {
                    assert(scan_from(t@, pos0, room0) =~= Seq::<ElemModel>::empty());
                    assert(eviews(elements@) =~= eviews(elements@) + scan_from(t@, pos0, room0));
                }
                break ;
            }
            let ts = match self.find_next_tag_start(&t, pos) {
                Some(x) => x,
                None => {
                    proof {
                        assert(scan_from(t@, pos0, room0) =~= Seq::<ElemModel>::empty());
                        assert(eviews(elements@) =~= eviews(elements@) + scan_from(t@, pos0, room0));
                    }
                    break ;
                },
            };
            proof {
                lemma_find_from(t@, pos0, '<');
            }
            let ghost pre = trim(t@.subrange(pos0, ts as int));
            let (lo, hi) = trim_bounds(&t, pos, ts);
            let ghost txts: Seq<ElemModel> = if significant(pre) {
                seq![text_elem(pre)]
            } else {
                Seq::<ElemModel>::empty()
            };
            if hi - lo > 1 {
                let txt = subvec(&t, lo, hi);
                let e = HtmlElement {
                    tag_name: text_tag_string(),
                    attributes: Vec::new(),
                    text_content: string_of(&txt),
                    children: Vec::new(),
                };
                proof {
                    assert(aview(e.attributes@) =~= Seq::<(Seq<char>, Seq<char>)>::empty());
                    assert(e@ =~= text_elem(pre));
                    assert(eviews(els0.push(e)) =~= eviews(els0).push(e@));
                }
                elements.push(e);
            }
            proof {
                assert(eviews(elements@) =~= eviews(els0) + txts);
            }
            if elements.len() == MAX_ELEMENTS {
                proof {
                    assert(room0 - txts.len() == 0);
                    assert(scan_from(t@, pos0, room0) == txts);
                    assert(eviews(elements@) =~= eviews(els0) + scan_from(t@, pos0, room0));
                }
                break ;
            }
            let te = match self.find_tag_end(&t, ts) {
                Some(x) => x,
                None => {
                    proof {
                        assert(scan_from(t@, pos0, room0) == txts);
                        assert(eviews(elements@) =~= eviews(els0) + scan_from(t@, pos0, room0));
                        assert(eviews(elements@) =~= extract_model(t@));
                    }
                    break ;
                },
            };
            proof {
                lemma_find_from(t@, ts as int, '>');
            }
            let content = subvec(&t, ts + 1, te);
            let ghost content_s = t@.subrange(ts as int + 1, te as int);
            let ghost trail = trail_text(t@, te as int + 1);
            let ghost produced: Seq<ElemModel> = if skippable(content_s) {
                Seq::<ElemModel>::empty()
            } else {
                match tag_elem(content_s, trail) {
                    None => Seq::<ElemModel>::empty(),
                    Some(e) => seq![e],
                }
            };
            let skip = skippable_x(&content);
            if !skip {
                match self.parse_tag(&content) {
                    Some(elem) => {
                        let mut elem = elem;
                        let tstart = te + 1;
                        match self.find_next_tag_start(&t, tstart) {
                            Some(nts) => {
                                let (l2, h2) = trim_bounds(&t, tstart, nts);
                                if h2 - l2 > 1 {
                                    let txt2 = subvec(&t, l2, h2);
                                    elem.text_content = string_of(&txt2);
                                }
                            },
                            None => {},
                        }
                        proof {
                            assert(elem.text_content@ == trail);
                            assert(tag_elem(content_s, trail) == Some(elem@));
                            assert(produced =~= seq![elem@]);
                            assert(eviews(elements@.push(elem)) =~= eviews(elements@).push(
                                elem@,
                            ));
                        }
                        elements.push(elem);
                    },
                    None => {
                        proof {
                            assert(tag_elem(content_s, trail) is None);
                        }
                    },
                }
            }
            proof {
                assert(eviews(elements@) =~= eviews(els0) + txts + produced);
                assert(scan_from(t@, pos0, room0) == txts + produced + scan_from(
                    t@,
                    te as int + 1,
                    (room0 - txts.len() - produced.len()) as nat,
                ));
                assert(elements@.len() == els0.len() + txts.len() + produced.len());
                assert(eviews(elements@) + scan_from(
                    t@,
                    te as int + 1,
                    (MAX_ELEMENTS - elements@.len()) as nat,
                ) =~= eviews(els0) + scan_from(t@, pos0, room0));
            }
            pos = te + 1;
        }
        self.elements = elements;
    }

    /// Lookup by tag name is declared but unimplemented: always empty.
    pub fn get_elements_by_tag(&self, _tag_name: &str) -> (r: Vec<&HtmlElement>)
        ensures
            r@.len() == 0,
    {
        Vec::new()
    }

    /// Lookup by id is declared but unimplemented: always absent.
    pub fn get_element_by_id(&self, _id: &str) -> (r: Option<&HtmlElement>)
        ensures
            r is None,
    {
        None
    }

    /// How many elements the last extraction call produced.
    pub fn get_element_count(&self) -> (r: usize)
        ensures
            r == self.elems().len(),
    {
        self.elements.len()
    }

    /// The tag name of the element at `index`, if the index is in range.
    pub fn get_element_tag_name(&self, index: usize) -> (r: Option<&String>)
        ensures
            match r {
                Some(s) => index < self.elems().len() && s@ == self.elems()[index as int].tag,
                None => index >= self.elems().len(),
            },
    {
        if index < self.elements.len() {
            Some(&self.elements[index].tag_name)
        } else {
            None
        }
    }

    /// The text run attached to the element at `index`, if in range.
    pub fn get_element_text(&self, index: usize) -> (r: Option<&String>)
        ensures
            match r {
                Some(s) => index < self.elems().len() && s@ == self.elems()[index as int].text,
                None => index >= self.elems().len(),
            },
    {
        if index < self.elements.len() {
            Some(&self.elements[index].text_content)
        } else {
            None
        }
    }

    /// The value stored under `attr_name` on the element at `element_index`.
    pub fn get_element_attribute(&self, element_index: usize, attr_name: &str) -> (r: Option<
        &String,
    >)
        ensures
            match r {
                Some(s) => element_index < self.elems().len() && alookup(
                    self.elems()[element_index as int].attrs,
                    attr_name@,
                ) == Some(s@),
                None => element_index >= self.elems().len() || alookup(
                    self.elems()[element_index as int].attrs,
                    attr_name@,
                ) is None,
            },
    {
        if element_index >= self.elements.len() {
            return None;
        }
        let e = &self.elements[element_index];
        proof {
            assert(self.elems()[element_index as int] == e@);
        }
        kv_lookup(&e.attributes, attr_name)
    }

    /// How many attributes the element at `element_index` carries; zero when
    /// the index is out of range.
    pub fn get_element_attribute_count(&self, element_index: usize) -> (r: usize)
        ensures
            r == if element_index < self.elems().len() {
                self.elems()[element_index as int].attrs.len()
            } else {
                0
            },
    {
        if element_index < self.elements.len() {
            self.elements[element_index].attributes.len()
        } else {
            0
        }
    }

    /// The key of the attribute at `attr_index` on the element at
    /// `element_index`, if both indices are in range.
    pub fn get_element_attribute_name(&self, element_index: usize, attr_index: usize) -> (r:
        Option<&String>)
        ensures
            match r {
                Some(s) => element_index < self.elems().len() && attr_index < self.elems()[
                    element_index as int
                ].attrs.len() && s@ == self.elems()[element_index as int].attrs[
                    attr_index as int
                ].0,
                None => element_index >= self.elems().len() || attr_index >= self.elems()[
                    element_index as int
                ].attrs.len(),
            },
    {
        if element_index < self.elements.len() {
            let e = &self.elements[element_index];
            if attr_index < e.attributes.len() {
                return Some(&e.attributes[attr_index].0);
            }
        }
        None
    }
}

/// The non-text predicate on element models: everything but the synthetic
/// text marker.
pub open spec fn non_text() -> spec_fn(ElemModel) -> bool {
    |e: ElemModel| e.tag != "#text"@
}

/// The cap truncates and never distorts: the bounded scan yields exactly
/// the first `room` elements of the unbounded scan, or all of them when
/// fewer.
pub proof fn lemma_scan_truncates(t: Seq<char>, pos: int, room: nat)
    ensures
        scan_from(t, pos, room) == scan_all(t, pos).take(
            vstd::math::min(room as int, scan_all(t, pos).len() as int),
        ),
    decreases t.len() - pos,
{
    let a = scan_all(t, pos);
    let f = scan_from(t, pos, room);
    if room == 0 || pos < 0 || pos >= t.len() {
        assert(f =~= a.take(vstd::math::min(room as int, a.len() as int)));
    } else {
        match find_from(t, pos, '<') {
            None => {
                assert(f =~= a.take(vstd::math::min(room as int, a.len() as int)));
            },
            Some(ts) => {
                lemma_find_from(t, pos, '<');
                lemma_find_from(t, ts, '>');
                let pre = trim(t.subrange(pos, ts));
                let txt: Seq<ElemModel> = if significant(pre) {
                    seq![text_elem(pre)]
                } else {
                    Seq::empty()
                };
                if room - txt.len() == 0 {
                    match find_from(t, ts, '>') {
                        None => {
                            assert(f =~= a.take(vstd::math::min(room as int, a.len() as int)));
                        },
                        Some(te) => {
                            assert(f == txt);
                            assert(a.take(txt.len() as int) =~= txt);
                            assert(f =~= a.take(vstd::math::min(room as int, a.len() as int)));
                        },
                    }
                } else {
                    match find_from(t, ts, '>') {
                        None => {
                            assert(f == txt && a == txt);
                            assert(a.take(a.len() as int) =~= a);
                            assert(f =~= a.take(vstd::math::min(room as int, a.len() as int)));
                        },
                        Some(te) => {
                            let content = t.subrange(ts + 1, te);
                            let produced: Seq<ElemModel> = if skippable(content) {
                                Seq::empty()
                            } else {
                                match tag_elem(content, trail_text(t, te + 1)) {
                                    None => Seq::empty(),
                                    Some(e) => seq![e],
                                }
                            };
                            let room2 = (room - txt.len() - produced.len()) as nat;
                            lemma_scan_truncates(t, te + 1, room2);
                            let a2 = scan_all(t, te + 1);
                            assert(a == txt + produced + a2);
                            assert(f == txt + produced + a2.take(
                                vstd::math::min(room2 as int, a2.len() as int),
                            ));
                            if a2.len() <= room2 {
                                assert(a2.take(a2.len() as int) =~= a2);
                                assert(a.take(a.len() as int) =~= a);
                                assert(f =~= a.take(
                                    vstd::math::min(room as int, a.len() as int),
                                ));
                            } else {
                                assert(a.take(room as int) =~= txt + produced + a2.take(
                                    room2 as int,
                                ));
                                assert(f =~= a.take(
                                    vstd::math::min(room as int, a.len() as int),
                                ));
                            }
                        },
                    }
                }
            },
        }
    }
}

/// When the input holds at most the cap's worth of elements, the cap
/// changes nothing: extraction yields the full unbounded scan.
pub proof fn lemma_extract_no_truncation(t: Seq<char>)
    requires
        scan_all(t, 0).len() <= MAX_ELEMENTS,
    ensures
        extract_model(t) == scan_all(t, 0),
{
    lemma_scan_truncates(t, 0, MAX_ELEMENTS as nat);
    assert(scan_all(t, 0).take(scan_all(t, 0).len() as int) =~= scan_all(t, 0));
}

/// When the input holds more elements than the cap, exactly the cap's worth
/// is produced: the prefix of the unbounded scan, with no error.
pub proof fn lemma_extract_truncates_at_cap(t: Seq<char>)
    requires
        scan_all(t, 0).len() > MAX_ELEMENTS,
    ensures
        extract_model(t).len() == MAX_ELEMENTS,
        extract_model(t) == scan_all(t, 0).take(MAX_ELEMENTS as int),
{
    lemma_scan_truncates(t, 0, MAX_ELEMENTS as nat);
}

/// No character of `s` is an uppercase ASCII letter.
pub open spec fn is_lowercase(s: Seq<char>) -> bool {
    forall|i: int| 0 <= i < s.len() ==> !(65 <= (#[trigger] s[i]) as u32 <= 90)
}

proof fn lemma_lower_char_lowercase(c: char)
    ensures
        !(65 <= lower_char(c) as u32 <= 90),
{
    if 65 <= c as u32 <= 90 {
        assert(c as u8 == c as u32);
        assert(lower_char(c) == (((c as u8) + 32) as char));
        assert((((c as u8) + 32) as char) as u32 == c as u32 + 32);
    }
}

proof fn lemma_lower_seq_lowercase(s: Seq<char>)
    ensures
        is_lowercase(lower_seq(s)),
{
    assert forall|i: int| 0 <= i < lower_seq(s).len() implies !(65 <= (#[trigger] lower_seq(s)[i])
        as u32 <= 90) by {
        assert(lower_seq(s)[i] == lower_char(s[i]));
        lemma_lower_char_lowercase(s[i]);
    }
}

/// Every element of the unbounded scan carries a lowercased tag name: the
/// synthetic text marker is lowercase, and every real tag name is lowered.
pub proof fn lemma_scan_tags_lowercase(t: Seq<char>, pos: int)
    ensures
        forall|j: int| 0 <= j < scan_all(t, pos).len() ==> is_lowercase(
            (#[trigger] scan_all(t, pos)[j]).tag,
        ),
    decreases t.len() - pos,
{
    reveal_strlit("#text");
    assert(is_lowercase("#text"@));
    let a = scan_all(t, pos);
    if 0 <= pos < t.len() {
        match find_from(t, pos, '<') {
            None => {},
            Some(ts) => {
                lemma_find_from(t, pos, '<');
                let pre = trim(t.subrange(pos, ts));
                let txt: Seq<ElemModel> = if significant(pre) {
                    seq![text_elem(pre)]
                } else {
                    Seq::empty()
                };
                match find_from(t, ts, '>') {
                    None => {
                        assert(a == txt);
                    },
                    Some(te) => {
                        lemma_find_from(t, ts, '>');
                        lemma_scan_tags_lowercase(t, te + 1);
                        let content = t.subrange(ts + 1, te);
                        let produced: Seq<ElemModel> = if skippable(content) {
                            Seq::empty()
                        } else {
                            match tag_elem(content, trail_text(t, te + 1)) {
                                None => Seq::empty(),
                                Some(e) => seq![e],
                            }
                        };
                        let rest = scan_all(t, te + 1);
                        if !skippable(content) && split_ws(content).len() > 0 {
                            lemma_lower_seq_lowercase(split_ws(content)[0]);
                        }
                        assert(a == txt + produced + rest);
                        assert forall|j: int| 0 <= j < a.len() implies is_lowercase(
                            (#[trigger] a[j]).tag,
                        ) by {
                            if j < txt.len() {
                                assert(a[j] == txt[0]);
                            } else if j < txt.len() + produced.len() {
                                assert(a[j] == produced[j - txt.len()]);
                            } else {
                                assert(a[j] == rest[j - txt.len() - produced.len()]);
                            }
                        }
                    },
                }
            },
        }
    }
}

/// How many tags the unbounded scan accepts from `pos` on: spans with a
/// closing `>`, not skipped, with a non-empty body whose lowercased first
/// token is not the synthetic text marker.
pub open spec fn tag_count(t: Seq<char>, pos: int) -> nat
    decreases t.len() - pos,
    via tag_count_decreases
{
    if pos < 0 || pos >= t.len() {
        0
    } else {
        match find_from(t, pos, '<') {
            None => 0,
            Some(ts) => match find_from(t, ts, '>') {
                None => 0,
                Some(te) => {
                    let content = t.subrange(ts + 1, te);
                    let toks = split_ws(content);
                    let c: nat = if !skippable(content) && toks.len() > 0 && lower_seq(toks[0])
                        != "#text"@ {
                        1
                    } else {
                        0
                    };
                    c + tag_count(t, te + 1)
                },
            },
        }
    }
}

#[via_fn]
proof fn tag_count_decreases(t: Seq<char>, pos: int) {
    if !(pos < 0 || pos >= t.len()) {
        match find_from(t, pos, '<') {
            None => {},
            Some(ts) => {
                lemma_find_from(t, pos, '<');
                match find_from(t, ts, '>') {
                    None => {},
                    Some(te) => {
                        lemma_find_from(t, ts, '>');
                    },
                }
            },
        }
    }
}

proof fn lemma_filter_single(e: ElemModel)
    ensures
        seq![e].filter(non_text()) == if non_text()(e) {
            seq![e]
        } else {
            Seq::<ElemModel>::empty()
        },
{
    reveal(Seq::filter);
    assert(seq![e].drop_last() =~= Seq::<ElemModel>::empty());
    assert(Seq::<ElemModel>::empty().filter(non_text()) =~= Seq::<ElemModel>::empty());
    assert(seq![e].last() == e);
}

/// The non-text elements of the unbounded scan are exactly its accepted
/// tags, one element each, in document order. (A tag written literally as
/// the synthetic text marker counts with the text runs.)
pub proof fn lemma_scan_tag_count(t: Seq<char>, pos: int)
    ensures
        scan_all(t, pos).filter(non_text()).len() == tag_count(t, pos),
    decreases t.len() - pos,
{
    reveal(Seq::filter);
    let a = scan_all(t, pos);
    if !(0 <= pos < t.len()) {
        assert(a.filter(non_text()) =~= Seq::<ElemModel>::empty());
    } else {
        match find_from(t, pos, '<') {
            None => {
                assert(a.filter(non_text()) =~= Seq::<ElemModel>::empty());
            },
            Some(ts) => {
                lemma_find_from(t, pos, '<');
                let pre = trim(t.subrange(pos, ts));
                let txt: Seq<ElemModel> = if significant(pre) {
                    seq![text_elem(pre)]
                } else {
                    Seq::empty()
                };
                if significant(pre) {
                    lemma_filter_single(text_elem(pre));
                }
                assert(txt.filter(non_text()) =~= Seq::<ElemModel>::empty());
                match find_from(t, ts, '>') {
                    None => {
                        assert(a.filter(non_text()).len() == 0);
                    },
                    Some(te) => {
                        lemma_find_from(t, ts, '>');
                        lemma_scan_tag_count(t, te + 1);
                        let content = t.subrange(ts + 1, te);
                        let produced: Seq<ElemModel> = if skippable(content) {
                            Seq::empty()
                        } else {
                            match tag_elem(content, trail_text(t, te + 1)) {
                                None => Seq::empty(),
                                Some(e) => seq![e],
                            }
                        };
                        let rest = scan_all(t, te + 1);
                        assert(a == txt + produced + rest);
                        Seq::filter_distributes_over_add(txt + produced, rest, non_text());
                        Seq::filter_distributes_over_add(txt, produced, non_text());
                        if !skippable(content) && split_ws(content).len() > 0 {
                            let e = tag_elem(content, trail_text(t, te + 1)).unwrap();
                            lemma_filter_single(e);
                            assert(non_text()(e) == (lower_seq(split_ws(content)[0])
                                != "#text"@));
                        } else {
                            assert(produced.filter(non_text()) =~= Seq::<ElemModel>::empty());
                        }
                    },
                }
            },
        }
    }
}

/// A skipped tag span (a comment or doctype, a closing tag, or an inert
/// tag) yields no element and does not consume the cap: past any preceding
/// text run, the scan proceeds beyond the `>` with its room intact.
pub proof fn lemma_skipped_tag_consumes_nothing(
    t: Seq<char>,
    pos: int,
    room: nat,
    ts: int,
    te: int,
)
    requires
        0 <= pos < t.len(),
        find_from(t, pos, '<') == Some(ts),
        find_from(t, ts, '>') == Some(te),
        skippable(t.subrange(ts + 1, te)),
        room > if significant(trim(t.subrange(pos, ts))) {
            1int
        } else {
            0int
        },
    ensures
        ({
            let pre = trim(t.subrange(pos, ts));
            let txts: Seq<ElemModel> = if significant(pre) {
                seq![text_elem(pre)]
            } else {
                Seq::empty()
            };
            scan_from(t, pos, room) == txts + scan_from(t, te + 1, (room - txts.len()) as nat)
        }),
{
    let pre = trim(t.subrange(pos, ts));
    let txts: Seq<ElemModel> = if significant(pre) {
        seq![text_elem(pre)]
    } else {
        Seq::empty()
    };
    assert(scan_from(t, pos, room) =~= txts + scan_from(t, te + 1, (room - txts.len()) as nat));
}

proof fn lemma_quote_form(key: Seq<char>, v: Seq<char>, q: char)
    requires
        q == '"' || q == '\'',
        forall|i: int| 0 <= i < key.len() ==> key[i] != '=',
    ensures
        attr_of(key + seq!['='] + (seq![q] + v + seq![q])) == Some((key, v)),
{
    let quoted = seq![q] + v + seq![q];
    let tok = key + seq!['='] + quoted;
    assert(tok[key.len() as int] == '=');
    assert(forall|k: int| 0 <= k < key.len() ==> tok[k] == key[k]);
    lemma_find_from_is(tok, 0, '=', key.len() as int);
    assert(tok.take(key.len() as int) =~= key);
    assert(tok.skip(key.len() as int + 1) =~= quoted);
    assert(quoted[0] == q);
    assert(quoted[quoted.len() - 1] == q);
    assert(quoted.subrange(1, quoted.len() - 1) =~= v);
}

/// The straight-quoted and single-quoted attribute forms store identical
/// values: for a key containing no `=`, the tokens `key="v"` and `key='v'`
/// both parse to exactly the attribute `(key, v)`.
pub proof fn lemma_quote_forms_equal(key: Seq<char>, v: Seq<char>)
    requires
        forall|i: int| 0 <= i < key.len() ==> key[i] != '=',
    ensures
        attr_of(key + seq!['='] + (seq!['"'] + v + seq!['"'])) == Some((key, v)),
        attr_of(key + seq!['='] + (seq!['\''] + v + seq!['\''])) == Some((key, v)),
{
    lemma_quote_form(key, v, '"');
    lemma_quote_form(key, v, '\'');
}

} // verus!
