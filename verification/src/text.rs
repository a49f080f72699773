//! Character-sequence primitives shared by the markup scanner, the
//! stylesheet scanner and the sanitizer: whitespace trimming, character
//! search, substring containment, tokenization and ASCII lowercasing.
use vstd::prelude::*;

verus! {

use vstd::string::StrSliceExecFns;

/// The scanner's whitespace set: ASCII whitespace.
pub open spec fn is_space(c: char) -> bool {
    c == ' ' || c == '\t' || c == '\n' || c == '\r' || c == '\u{c}'
}

pub fn is_space_x(c: char) -> (r: bool)
    ensures
        r == is_space(c),
{
    c == ' ' || c == '\t' || c == '\n' || c == '\r' || c == '\u{c}'
}

/// Index of the first occurrence of `c` at or after position `i`, if any.
pub open spec fn find_from(t: Seq<char>, i: int, c: char) -> Option<int>
    decreases t.len() - i,
{
    if i < 0 || i >= t.len() {
        None
    } else if t[i] == c {
        Some(i)
    } else {
        find_from(t, i + 1, c)
    }
}

pub proof fn lemma_find_from(t: Seq<char>, i: int, c: char)
    requires
        0 <= i,
    ensures
        match find_from(t, i, c) {
            Some(j) => i <= j < t.len() && t[j] == c && (forall|k: int| i <= k < j ==> t[k] != c),
            None => forall|k: int| i <= k < t.len() ==> t[k] != c,
        },
    decreases t.len() - i,
{
    if i < t.len() && t[i] != c {
        lemma_find_from(t, i + 1, c);
    }
}

pub proof fn lemma_find_from_is(t: Seq<char>, i: int, c: char, j: int)
    requires
        0 <= i <= j < t.len(),
        t[j] == c,
        forall|k: int| i <= k < j ==> t[k] != c,
    ensures
        find_from(t, i, c) == Some(j),
    decreases j - i,
{
    if i < j {
        lemma_find_from_is(t, i + 1, c, j);
    }
}

/// Searching in the suffix `t.skip(i)` finds the same occurrence as
/// searching in `t` from `i`, shifted by `i`.
pub proof fn lemma_find_skip(t: Seq<char>, i: int, c: char)
    requires
        0 <= i <= t.len(),
    ensures
        find_from(t.skip(i), 0, c) == match find_from(t, i, c) {
            None => None::<int>,
            Some(j) => Some(j - i),
        },
{
    lemma_find_from(t, i, c);
    let s = t.skip(i);
    match find_from(t, i, c) {
        Some(j) => {
            assert(s[j - i] == c);
            assert(forall|k: int| 0 <= k < j - i ==> s[k] != c);
            lemma_find_from_is(s, 0, c, j - i);
        },
        None => {
            lemma_find_from(s, 0, c);
            match find_from(s, 0, c) {
                Some(k) => {
                    assert(t[i + k] == c);
                    assert(false);
                },
                None => {},
            }
        },
    }
}

pub fn find_char_from(t: &Vec<char>, start: usize, c: char) -> (r: Option<usize>)
    ensures
        match r {
            Some(j) => start <= j < t@.len() && find_from(t@, start as int, c) == Some(j as int),
            None => find_from(t@, start as int, c) is None,
        },
{
    let mut i = start;
    while i < t.len()
        invariant
            start <= i,
            find_from(t@, start as int, c) == find_from(t@, i as int, c),
        decreases t@.len() - i,
    {
        if t[i] == c {
            return Some(i);
        }
        i += 1;
    }
    None
}

/// Leading whitespace removed.
pub open spec fn trim_left(t: Seq<char>) -> Seq<char>
    decreases t.len(),
{
    if t.len() > 0 && is_space(t[0]) {
        trim_left(t.drop_first())
    } else {
        t
    }
}

/// Trailing whitespace removed.
pub open spec fn trim_right(t: Seq<char>) -> Seq<char>
    decreases t.len(),
{
    if t.len() > 0 && is_space(t.last()) {
        trim_right(t.drop_last())
    } else {
        t
    }
}

/// Leading and trailing whitespace removed.
pub open spec fn trim(t: Seq<char>) -> Seq<char> {
    trim_right(trim_left(t))
}

/// Bounds of the trimmed window `[from, to)` of `t`: the returned `(lo, hi)`
/// satisfy `t[lo..hi] == trim(t[from..to])`.
pub fn trim_bounds(t: &Vec<char>, from: usize, to: usize) -> (r: (usize, usize))
    requires
        from <= to <= t@.len(),
    ensures
        from <= r.0 <= r.1 <= to,
        t@.subrange(r.0 as int, r.1 as int) == trim(t@.subrange(from as int, to as int)),
{
    let ghost whole = t@.subrange(from as int, to as int);
    let mut lo = from;
    while lo < to && is_space_x(t[lo])
        invariant
            from <= lo <= to <= t@.len(),
            trim_left(whole) == trim_left(t@.subrange(lo as int, to as int)),
            whole == t@.subrange(from as int, to as int),
        decreases to - lo,
    {
        proof {
            assert(t@.subrange(lo as int, to as int).drop_first() =~= t@.subrange(
                lo as int + 1,
                to as int,
            ));
        }
        lo += 1;
    }
    proof {
        assert(trim_left(whole) == t@.subrange(lo as int, to as int));
    }
    let mut hi = to;
    while hi > lo && is_space_x(t[hi - 1])
        invariant
            from <= lo <= hi <= to <= t@.len(),
            trim_right(trim_left(whole)) == trim_right(t@.subrange(lo as int, hi as int)),
            whole == t@.subrange(from as int, to as int),
        decreases hi - lo,
    {
        proof {
            assert(t@.subrange(lo as int, hi as int).drop_last() =~= t@.subrange(
                lo as int,
                hi as int - 1,
            ));
        }
        hi -= 1;
    }
    proof {
        assert(trim(whole) == t@.subrange(lo as int, hi as int));
    }
    (lo, hi)
}

/// A fresh copy of the window `[from, to)` of `t`.
pub fn subvec(t: &Vec<char>, from: usize, to: usize) -> (r: Vec<char>)
    requires
        from <= to <= t@.len(),
    ensures
        r@ == t@.subrange(from as int, to as int),
{
    let mut r: Vec<char> = Vec::new();
    let mut i = from;
    while i < to
        invariant
            from <= i <= to <= t@.len(),
            r@ == t@.subrange(from as int, i as int),
        decreases to - i,
    {
        r.push(t[i]);
        proof {
            assert(t@.subrange(from as int, i as int).push(t@[i as int]) =~= t@.subrange(
                from as int,
                i as int + 1,
            ));
        }
        i += 1;
    }
    r
}

/// The characters of `s`, as a vector.
pub fn chars_vec(s: &str) -> (r: Vec<char>)
    ensures
        r@ == s@,
{
    let n = s.unicode_len();
    let mut r: Vec<char> = Vec::new();
    let mut i: usize = 0;
    while i < n
        invariant
            i <= n,
            n == s@.len(),
            r@ == s@.take(i as int),
        decreases n - i,
    {
        let c = s.get_char(i);
        r.push(c);
        proof {
            assert(s@.take(i as int).push(s@[i as int]) =~= s@.take(i as int + 1));
        }
        i += 1;
    }
    proof {
        assert(s@.take(n as int) =~= s@);
    }
    r
}

/// Relies on `core::iter::Iterator::collect`, which builds a `String` from
/// the characters the iterator yields, in order.
#[verifier::external_body]
pub fn string_of(v: &Vec<char>) -> (r: String)
    ensures
        r@ == v@,
{
    v.iter().collect()
}

/// `p` occurs in `t` starting at position `i`.
pub open spec fn contains_at(t: Seq<char>, p: Seq<char>, i: int) -> bool {
    0 <= i && i + p.len() <= t.len() && t.subrange(i, i + p.len() as int) == p
}

/// `p` occurs somewhere in `t` as a contiguous substring.
pub open spec fn contains_sub(t: Seq<char>, p: Seq<char>) -> bool {
    exists|i: int| contains_at(t, p, i)
}

/// An occurrence in the tail `t.skip(1)` is an occurrence in `t`.
pub proof fn lemma_contains_skip_one(t: Seq<char>, p: Seq<char>)
    requires
        t.len() > 0,
        contains_sub(t.skip(1), p),
    ensures
        contains_sub(t, p),
{
    let k = choose|k: int| contains_at(t.skip(1), p, k);
    assert(t.subrange(k + 1, k + 1 + p.len()) =~= t.skip(1).subrange(k, k + p.len()));
    assert(contains_at(t, p, k + 1));
}

/// Whether `p` occurs in `t` at exactly position `i`.
pub fn match_at(t: &Vec<char>, p: &Vec<char>, i: usize) -> (r: bool)
    requires
        i + p@.len() <= t@.len(),
    ensures
        r == contains_at(t@, p@, i as int),
{
    let tl = t.len();
    let mut k: usize = 0;
    while k < p.len()
        invariant
            i + p@.len() <= t@.len(),
            tl == t@.len(),
            k <= p@.len(),
            forall|m: int| 0 <= m < k ==> t@[i + m] == p@[m],
        decreases p@.len() - k,
    {
        if t[i + k] != p[k] {
            proof {
                assert(t@.subrange(i as int, i + p@.len() as int)[k as int] != p@[k as int]);
            }
            return false;
        }
        k += 1;
    }
    proof {
        assert(t@.subrange(i as int, i + p@.len() as int) =~= p@);
    }
    true
}

/// Whether `p` occurs anywhere in `t`.
pub fn find_sub(t: &Vec<char>, p: &Vec<char>) -> (r: bool)
    ensures
        r == contains_sub(t@, p@),
{
    if p.len() == 0 {
        proof {
            assert(t@.subrange(0, 0) =~= p@);
            assert(contains_at(t@, p@, 0));
        }
        return true;
    }
    if p.len() > t.len() {
        proof {
            assert(forall|i: int| !contains_at(t@, p@, i));
        }
        return false;
    }
    let last = t.len() - p.len();
    let mut i: usize = 0;
    while i <= last
        invariant
            1 <= p@.len() <= t@.len(),
            t@.len() <= usize::MAX,
            last == t@.len() - p@.len(),
            i <= last + 1,
            forall|j: int| 0 <= j < i ==> !contains_at(t@, p@, j),
        decreases last + 1 - i,
    {
        if match_at(t, p, i) {
            proof {
                assert(contains_at(t@, p@, i as int));
            }
            return true;
        }
        i += 1;
    }
    proof {
        assert(forall|j: int| j > last ==> !contains_at(t@, p@, j));
    }
    false
}

/// Whether `t` starts with `p`.
pub fn starts_with_chars(t: &Vec<char>, p: &Vec<char>) -> (r: bool)
    ensures
        r == p@.is_prefix_of(t@),
{
    if p.len() > t.len() {
        return false;
    }
    let r = match_at(t, p, 0);
    proof {
        if r {
            assert(p@ =~= t@.subrange(0, p@.len() as int));
        } else {
            assert(!(t@.subrange(0, p@.len() as int) =~= p@));
        }
    }
    r
}

/// ASCII lowercasing of one character.
pub open spec fn lower_char(c: char) -> char {
    if 65 <= c as u32 <= 90 {
        ((c as u8) + 32) as char
    } else {
        c
    }
}

/// ASCII lowercasing, character by character.
pub open spec fn lower_seq(s: Seq<char>) -> Seq<char> {
    s.map_values(|c: char| lower_char(c))
}

pub fn lower_char_x(c: char) -> (r: char)
    ensures
        r == lower_char(c),
{
    let u = c as u32;
    if 65 <= u && u <= 90 {
        ((c as u8) + 32) as char
    } else {
        c
    }
}

pub fn lower_vec(s: &Vec<char>) -> (r: Vec<char>)
    ensures
        r@ == lower_seq(s@),
{
    let mut r: Vec<char> = Vec::new();
    let mut i: usize = 0;
    while i < s.len()
        invariant
            i <= s@.len(),
            r@.len() == i,
            forall|m: int| 0 <= m < i ==> r@[m] == lower_char(s@[m]),
        decreases s@.len() - i,
    {
        let c = lower_char_x(s[i]);
        r.push(c);
        i += 1;
    }
    proof {
        assert(r@ =~= lower_seq(s@));
    }
    r
}

/// One layer of surrounding straight or single quotes removed, when the
/// value is enclosed in a matching pair.
pub open spec fn strip_quotes(v: Seq<char>) -> Seq<char> {
    if v.len() >= 2 && v[0] == v[v.len() - 1] && (v[0] == '"' || v[0] == '\'') {
        v.subrange(1, v.len() - 1)
    } else {
        v
    }
}

pub fn strip_quotes_x(v: &Vec<char>) -> (r: Vec<char>)
    ensures
        r@ == strip_quotes(v@),
{
    if v.len() >= 2 && v[0] == v[v.len() - 1] && (v[0] == '"' || v[0] == '\'') {
        subvec(v, 1, v.len() - 1)
    } else {
        subvec(v, 0, v.len())
    }
}

/// End of the whitespace-free token that starts at `i`: the position of the
/// next whitespace character, or the end of `t`.
pub open spec fn token_end(t: Seq<char>, i: int) -> int
    decreases t.len() - i,
{
    if i < 0 || i >= t.len() {
        t.len() as int
    } else if is_space(t[i]) {
        i
    } else {
        token_end(t, i + 1)
    }
}

pub proof fn lemma_token_end(t: Seq<char>, i: int)
    requires
        0 <= i <= t.len(),
    ensures
        i <= token_end(t, i) <= t.len(),
    decreases t.len() - i,
{
    if i < t.len() && !is_space(t[i]) {
        lemma_token_end(t, i + 1);
    }
}

/// The whitespace-separated tokens of `t`, from position `i` on.
pub open spec fn split_ws_from(t: Seq<char>, i: int) -> Seq<Seq<char>>
    decreases t.len() - i,
    via split_ws_from_decreases
{
    if i < 0 || i >= t.len() {
        Seq::empty()
    } else if is_space(t[i]) {
        split_ws_from(t, i + 1)
    } else {
        seq![t.subrange(i, token_end(t, i))] + split_ws_from(t, token_end(t, i))
    }
}

#[via_fn]
proof fn split_ws_from_decreases(t: Seq<char>, i: int) {
    if 0 <= i < t.len() && !is_space(t[i]) {
        lemma_token_end(t, i + 1);
    }
}

/// The whitespace-separated tokens of `t`.
pub open spec fn split_ws(t: Seq<char>) -> Seq<Seq<char>> {
    split_ws_from(t, 0)
}

/// The views of a sequence of character vectors.
pub open spec fn vviews(s: Seq<Vec<char>>) -> Seq<Seq<char>> {
    s.map_values(|v: Vec<char>| v@)
}

/// Splits the window `[from, to)` of `t` on whitespace.
pub fn split_ws_x(t: &Vec<char>, from: usize, to: usize) -> (r: Vec<Vec<char>>)
    requires
        from <= to <= t@.len(),
    ensures
        vviews(r@) == split_ws_from(t@.subrange(from as int, to as int), 0),
{
    let ghost w = t@.subrange(from as int, to as int);
    let mut r: Vec<Vec<char>> = Vec::new();
    let mut i = from;
    proof {
        assert(vviews(r@) =~= Seq::<Seq<char>>::empty());
    }
    while i < to
        invariant
            from <= i <= to <= t@.len(),
            w == t@.subrange(from as int, to as int),
            vviews(r@) + split_ws_from(w, i - from) == split_ws_from(w, 0),
        decreases to - i,
    {
        if is_space_x(t[i]) {
            proof {
                assert(w[i - from] == t@[i as int]);
            }
            i += 1;
        } else {
            proof {
                assert(w[i - from] == t@[i as int]);
                lemma_token_end(w, i - from);
            }
            let mut j = i + 1;
            while j < to && !is_space_x(t[j])
                invariant
                    from <= i < j <= to <= t@.len(),
                    w == t@.subrange(from as int, to as int),
                    token_end(w, i - from) == token_end(w, j - from),
                decreases to - j,
            {
                proof {
                    assert(w[j - from] == t@[j as int]);
                }
                j += 1;
            }
            proof {
                if j < to {
                    assert(w[j - from] == t@[j as int]);
                    assert(token_end(w, j - from) == j - from);
                } else {
                    assert(token_end(w, j - from) == w.len() as int);
                }
                assert(token_end(w, i - from) == j - from);
            }
            let tok = subvec(t, i, j);
            proof {
                assert(tok@ =~= w.subrange(i - from, token_end(w, i - from)));
            }
            r.push(tok);
            proof {
                assert(vviews(r@) =~= vviews(r@.drop_last()).push(tok@));
                assert(vviews(r@) + split_ws_from(w, j - from) =~= (vviews(r@.drop_last())
                    + split_ws_from(w, i - from)));
            }
            i = j;
        }
    }
    proof {
        assert(split_ws_from(w, i - from) =~= Seq::<Seq<char>>::empty());
        assert(vviews(r@) =~= split_ws_from(w, 0));
    }
    r
}

} // verus!
