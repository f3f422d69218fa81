//! Character-level text primitives shared by every parser of the library:
//! Unicode whitespace and trimming, first/last occurrence search, prefix and
//! suffix tests, splitting, line iteration and decimal integers.
//!
//! Strings are modelled by their view, a `Seq<char>`; executable helpers work
//! on `Vec<char>` copies and convert back to `String` at the edges.
use vstd::prelude::*;

verus! {

/// `String::push` appends one character at the end of the string.
pub assume_specification[ String::push ](s: &mut String, ch: char)
    ensures
        final(s)@ == old(s)@.push(ch),
;

/// `String::push_str` appends the characters of `other` at the end of the string.
pub assume_specification[ String::push_str ](s: &mut String, other: &str)
    ensures
        final(s)@ == old(s)@ + other@,
;

// ---------------------------------------------------------------------------
// Conversions
// ---------------------------------------------------------------------------

/// The characters of `s`, in order.
pub fn chars_of(s: &str) -> (v: Vec<char>)
    ensures
        v@ == s@,
{
    let mut v: Vec<char> = Vec::new();
    for c in it: s.chars()
        invariant
            v@ == it.seq().take(it.index() as int),
            it.seq() == s@,
    {
        v.push(c);
    }
    v
}

/// The string made of the characters of `v`, in order.
pub fn string_of(v: &Vec<char>) -> (s: String)
    ensures
        s@ == v@,
{
    let mut s = String::new();
    let mut i: usize = 0;
    while i < v.len()
        invariant
            i <= v.len(),
            s@ == v@.take(i as int),
        decreases v.len() - i,
    {
        s.push(v[i]);
        i += 1;
        assert(v@.take(i as int) == v@.take((i - 1) as int).push(v@[i - 1]));
    }
    assert(v@.take(v.len() as int) == v@);
    s
}

/// A fresh copy of the characters `v[from..to]`.
pub fn slice_vec(v: &Vec<char>, from: usize, to: usize) -> (r: Vec<char>)
    requires
        from <= to <= v.len(),
    ensures
        r@ == v@.subrange(from as int, to as int),
{
    let mut r: Vec<char> = Vec::new();
    let mut i = from;
    while i < to
        invariant
            from <= i <= to <= v.len(),
            r@ == v@.subrange(from as int, i as int),
        decreases to - i,
    {
        r.push(v[i]);
        i += 1;
    }
    r
}

/// Appends the characters of `tail` to `v`.
pub fn extend_vec(v: &mut Vec<char>, tail: &Vec<char>)
    ensures
        final(v)@ == old(v)@ + tail@,
{
    let mut i: usize = 0;
    while i < tail.len()
        invariant
            i <= tail.len(),
            v@ == old(v)@ + tail@.take(i as int),
        decreases tail.len() - i,
    {
        v.push(tail[i]);
        i += 1;
        assert(tail@.take(i as int) == tail@.take((i - 1) as int).push(tail@[i - 1]));
    }
    assert(tail@.take(tail.len() as int) == tail@);
}

/// The characters of a string literal, as an owned vector.
pub fn lit(s: &str) -> (v: Vec<char>)
    ensures
        v@ == s@,
{
    chars_of(s)
}

// ---------------------------------------------------------------------------
// Whitespace and trimming
// ---------------------------------------------------------------------------

/// Unicode `White_Space` property, as `char::is_whitespace` documents it.
pub open spec fn is_ws(c: char) -> bool {
    let u = c as u32;
    ||| (0x09 <= u && u <= 0x0D)
    ||| u == 0x20
    ||| u == 0x85
    ||| u == 0xA0
    ||| u == 0x1680
    ||| (0x2000 <= u && u <= 0x200A)
    ||| u == 0x2028
    ||| u == 0x2029
    ||| u == 0x202F
    ||| u == 0x205F
    ||| u == 0x3000
}

pub fn is_whitespace(c: char) -> (b: bool)
    ensures
        b == is_ws(c),
{
    let u = c as u32;
    (0x09 <= u && u <= 0x0D) || u == 0x20 || u == 0x85 || u == 0xA0 || u == 0x1680 || (0x2000
        <= u && u <= 0x200A) || u == 0x2028 || u == 0x2029 || u == 0x202F || u == 0x205F || u
        == 0x3000
}

/// Number of whitespace characters at the start of `s`.
pub open spec fn lead_ws(s: Seq<char>) -> nat
    decreases s.len(),
{
    if s.len() > 0 && is_ws(s[0]) {
        1 + lead_ws(s.drop_first())
    } else {
        0
    }
}

/// Number of whitespace characters at the end of `s`.
pub open spec fn trail_ws(s: Seq<char>) -> nat
    decreases s.len(),
{
    if s.len() > 0 && is_ws(s.last()) {
        1 + trail_ws(s.drop_last())
    } else {
        0
    }
}

/// `str::trim_start`.
pub open spec fn trim_start(s: Seq<char>) -> Seq<char> {
    s.skip(lead_ws(s) as int)
}

/// `str::trim_end`.
pub open spec fn trim_end(s: Seq<char>) -> Seq<char> {
    s.take(s.len() - trail_ws(s))
}

/// `str::trim`.
pub open spec fn trim(s: Seq<char>) -> Seq<char> {
    trim_end(trim_start(s))
}

/// `s.trim().is_empty()`: every character of `s` is whitespace.
pub open spec fn is_blank(s: Seq<char>) -> bool {
    forall|i: int| 0 <= i < s.len() ==> is_ws(#[trigger] s[i])
}

pub proof fn lemma_lead_ws_bound(s: Seq<char>)
    ensures
        lead_ws(s) <= s.len(),
        forall|i: int| 0 <= i < lead_ws(s) ==> is_ws(#[trigger] s[i]),
        lead_ws(s) < s.len() ==> !is_ws(s[lead_ws(s) as int]),
    decreases s.len(),
{
    if s.len() > 0 && is_ws(s[0]) {
        lemma_lead_ws_bound(s.drop_first());
        assert forall|i: int| 0 <= i < lead_ws(s) implies is_ws(#[trigger] s[i]) by {
            if i > 0 {
                assert(s[i] == s.drop_first()[i - 1]);
            }
        }
    }
}

pub proof fn lemma_trail_ws_bound(s: Seq<char>)
    ensures
        trail_ws(s) <= s.len(),
        forall|i: int| s.len() - trail_ws(s) <= i < s.len() ==> is_ws(#[trigger] s[i]),
        trail_ws(s) < s.len() ==> !is_ws(s[s.len() - trail_ws(s) - 1]),
    decreases s.len(),
{
    if s.len() > 0 && is_ws(s.last()) {
        lemma_trail_ws_bound(s.drop_last());
        assert forall|i: int| s.len() - trail_ws(s) <= i < s.len() implies is_ws(#[trigger] s[i]) by {
            if i < s.len() - 1 {
                assert(s[i] == s.drop_last()[i]);
            }
        }
    }
}

/// Characterises `lead_ws` by its two defining facts.
pub proof fn lemma_lead_ws_unique(s: Seq<char>, k: int)
    requires
        0 <= k <= s.len(),
        forall|i: int| 0 <= i < k ==> is_ws(#[trigger] s[i]),
        k < s.len() ==> !is_ws(s[k]),
    ensures
        lead_ws(s) == k,
    decreases s.len(),
{
    if k > 0 {
        assert(is_ws(s[0]));
        assert forall|i: int| 0 <= i < k - 1 implies is_ws(#[trigger] s.drop_first()[i]) by {
            assert(s.drop_first()[i] == s[i + 1]);
        }
        lemma_lead_ws_unique(s.drop_first(), k - 1);
    }
}

pub proof fn lemma_trail_ws_unique(s: Seq<char>, k: int)
    requires
        0 <= k <= s.len(),
        forall|i: int| s.len() - k <= i < s.len() ==> is_ws(#[trigger] s[i]),
        k < s.len() ==> !is_ws(s[s.len() - k - 1]),
    ensures
        trail_ws(s) == k,
    decreases s.len(),
{
    if k > 0 {
        assert(is_ws(s[s.len() - 1]));
        assert forall|i: int| s.drop_last().len() - (k - 1) <= i < s.drop_last().len() implies is_ws(
            #[trigger] s.drop_last()[i],
        ) by {
            assert(s.drop_last()[i] == s[i]);
        }
        lemma_trail_ws_unique(s.drop_last(), k - 1);
    }
}

/// `trim` is blank exactly when the whole string is.
pub proof fn lemma_trim_empty_iff_blank(s: Seq<char>)
    ensures
        trim(s).len() == 0 <==> is_blank(s),
        trim_start(s).len() == 0 <==> is_blank(s),
{
    lemma_lead_ws_bound(s);
    let t = trim_start(s);
    lemma_trail_ws_bound(t);
    if is_blank(s) {
        lemma_lead_ws_unique(s, s.len() as int);
    }
    if trim_start(s).len() == 0 {
        assert forall|i: int| 0 <= i < s.len() implies is_ws(#[trigger] s[i]) by {}
    }
    if trim(s).len() == 0 && t.len() > 0 {
        assert(trail_ws(t) == t.len());
        assert(is_ws(t[0]));
        assert(t[0] == s[lead_ws(s) as int]);
    }
}

/// Index of the first non-whitespace character of `v` (its length if none).
pub fn lead_ws_len(v: &Vec<char>) -> (k: usize)
    ensures
        k == lead_ws(v@),
{
    let mut i: usize = 0;
    while i < v.len() && is_whitespace(v[i])
        invariant
            i <= v.len(),
            forall|j: int| 0 <= j < i ==> is_ws(#[trigger] v@[j]),
        decreases v.len() - i,
    {
        i += 1;
    }
    proof {
        lemma_lead_ws_unique(v@, i as int);
    }
    i
}

/// Number of whitespace characters at the end of `v`.
pub fn trail_ws_len(v: &Vec<char>) -> (k: usize)
    ensures
        k == trail_ws(v@),
{
    let mut k: usize = 0;
    while k < v.len() && is_whitespace(v[v.len() - 1 - k])
        invariant
            k <= v.len(),
            forall|j: int| v.len() - k <= j < v.len() ==> is_ws(#[trigger] v@[j]),
        decreases v.len() - k,
    {
        k += 1;
    }
    proof {
        lemma_trail_ws_unique(v@, k as int);
    }
    k
}

/// `str::trim_start` on a character vector.
pub fn trim_start_vec(v: &Vec<char>) -> (r: Vec<char>)
    ensures
        r@ == trim_start(v@),
{
    let k = lead_ws_len(v);
    proof {
        lemma_lead_ws_bound(v@);
    }
    slice_vec(v, k, v.len())
}

/// `str::trim_end` on a character vector.
pub fn trim_end_vec(v: &Vec<char>) -> (r: Vec<char>)
    ensures
        r@ == trim_end(v@),
{
    let k = trail_ws_len(v);
    proof {
        lemma_trail_ws_bound(v@);
    }
    slice_vec(v, 0, v.len() - k)
}

/// `str::trim` on a character vector.
pub fn trim_vec(v: &Vec<char>) -> (r: Vec<char>)
    ensures
        r@ == trim(v@),
{
    let t = trim_start_vec(v);
    trim_end_vec(&t)
}

/// `s.trim().is_empty()`.
pub fn is_blank_vec(v: &Vec<char>) -> (b: bool)
    ensures
        b == is_blank(v@),
{
    let k = lead_ws_len(v);
    proof {
        lemma_lead_ws_bound(v@);
        lemma_trim_empty_iff_blank(v@);
    }
    k == v.len()
}

// ---------------------------------------------------------------------------
// Search
// ---------------------------------------------------------------------------

/// `p` occurs in `s` starting at index `i`.
pub open spec fn match_at(s: Seq<char>, p: Seq<char>, i: int) -> bool {
    0 <= i && i + p.len() <= s.len() && s.subrange(i, i + p.len()) == p
}

/// First occurrence of `p` in `s` at or after `i`.
pub open spec fn find_from(s: Seq<char>, p: Seq<char>, i: int) -> Option<int>
    decreases s.len() + 1 - i,
{
    if i < 0 || i + p.len() > s.len() {
        None
    } else if match_at(s, p, i) {
        Some(i)
    } else {
        find_from(s, p, i + 1)
    }
}

/// `str::find` with a string pattern: index of the first occurrence.
pub open spec fn find(s: Seq<char>, p: Seq<char>) -> Option<int> {
    find_from(s, p, 0)
}

/// `find_from` returns the first match at or after `i`.
pub proof fn lemma_find_from(s: Seq<char>, p: Seq<char>, i: int)
    requires
        0 <= i,
    ensures
        match find_from(s, p, i) {
            Some(k) => i <= k && match_at(s, p, k) && forall|j: int|
                i <= j < k ==> !#[trigger] match_at(s, p, j),
            None => forall|j: int| i <= j ==> !#[trigger] match_at(s, p, j),
        },
    decreases s.len() + 1 - i,
{
    if i + p.len() > s.len() {
    } else if match_at(s, p, i) {
    } else {
        lemma_find_from(s, p, i + 1);
    }
}

/// The first occurrence is characterised by being a match with no earlier one.
pub proof fn lemma_find(s: Seq<char>, p: Seq<char>)
    ensures
        match find(s, p) {
            Some(k) => match_at(s, p, k) && forall|j: int| 0 <= j < k ==> !#[trigger] match_at(s, p, j),
            None => forall|j: int| !#[trigger] match_at(s, p, j),
        },
{
    lemma_find_from(s, p, 0);
}

/// A match with no earlier match is the first occurrence.
pub proof fn lemma_find_is(s: Seq<char>, p: Seq<char>, k: int)
    requires
        match_at(s, p, k),
        forall|j: int| 0 <= j < k ==> !#[trigger] match_at(s, p, j),
    ensures
        find(s, p) == Some(k),
{
    lemma_find(s, p);
    if let Some(k2) = find(s, p) {
        if k2 > k {
            assert(!match_at(s, p, k));
        }
    }
}

/// No match at all means no first occurrence.
pub proof fn lemma_find_none(s: Seq<char>, p: Seq<char>)
    requires
        forall|j: int| !#[trigger] match_at(s, p, j),
    ensures
        find(s, p) is None,
{
    lemma_find(s, p);
}

/// `match_at` is decided on the characters it covers.
pub proof fn lemma_match_at_ext(s: Seq<char>, t: Seq<char>, p: Seq<char>, i: int)
    requires
        0 <= i,
        i + p.len() <= s.len(),
        i + p.len() <= t.len(),
        forall|j: int| i <= j < i + p.len() ==> s[j] == t[j],
    ensures
        match_at(s, p, i) == match_at(t, p, i),
{
    assert(s.subrange(i, i + p.len()) =~= t.subrange(i, i + p.len()));
}

/// Exec check of `match_at`.
pub fn matches_at(s: &Vec<char>, p: &Vec<char>, i: usize) -> (b: bool)
    ensures
        b == match_at(s@, p@, i as int),
{
    if i > s.len() || p.len() > s.len() - i {
        return false;
    }
    let mut k: usize = 0;
    while k < p.len()
        invariant
            i + p.len() <= s.len(),
            k <= p.len(),
            forall|j: int| 0 <= j < k ==> s@[i + j] == p@[j],
        decreases p.len() - k,
    {
        if s[i + k] != p[k] {
            assert(s@.subrange(i as int, i + p.len())[k as int] != p@[k as int]);
            return false;
        }
        k += 1;
    }
    assert(s@.subrange(i as int, i + p.len()) =~= p@);
    true
}

/// `str::find`: index of the first occurrence of `p` in `s`.
pub fn find_vec(s: &Vec<char>, p: &Vec<char>) -> (r: Option<usize>)
    ensures
        match r {
            Some(k) => find(s@, p@) == Some(k as int),
            None => find(s@, p@) is None,
        },
{
    if p.len() == 0 {
        assert(s@.subrange(0, 0) =~= p@);
        return Some(0);
    }
    let mut i: usize = 0;
    while p.len() <= s.len() && i <= s.len() - p.len()
        invariant
            p@.len() > 0,
            i <= s.len() + 1,
            find(s@, p@) == find_from(s@, p@, i as int),
        decreases s.len() + 1 - i,
    {
        if matches_at(s, p, i) {
            return Some(i);
        }
        i += 1;
    }
    None
}

/// `str::find` with a single character pattern.
pub fn find_char(s: &Vec<char>, c: char) -> (r: Option<usize>)
    ensures
        match r {
            Some(k) => find(s@, seq![c]) == Some(k as int),
            None => find(s@, seq![c]) is None,
        },
{
    let mut p: Vec<char> = Vec::new();
    p.push(c);
    assert(p@ == seq![c]);
    find_vec(s, &p)
}

/// Index of the last occurrence of `c` in `s`.
pub open spec fn rfind_char(s: Seq<char>, c: char) -> Option<int>
    decreases s.len(),
{
    if s.len() == 0 {
        None
    } else if s.last() == c {
        Some(s.len() - 1)
    } else {
        rfind_char(s.drop_last(), c)
    }
}

/// `str::rfind` with a single character pattern.
pub fn rfind_char_vec(s: &Vec<char>, c: char) -> (r: Option<usize>)
    ensures
        match r {
            Some(k) => rfind_char(s@, c) == Some(k as int) && k < s@.len(),
            None => rfind_char(s@, c) is None,
        },
{
    let mut n: usize = s.len();
    assert(s@.take(n as int) =~= s@);
    while n > 0
        invariant
            n <= s.len(),
            rfind_char(s@, c) == rfind_char(s@.take(n as int), c),
        decreases n,
    {
        assert(s@.take(n as int).drop_last() =~= s@.take(n - 1));
        if s[n - 1] == c {
            return Some(n - 1);
        }
        n -= 1;
    }
    None
}

// ---------------------------------------------------------------------------
// Prefixes, suffixes, splitting
// ---------------------------------------------------------------------------

/// `s.starts_with(p)`.
pub fn starts_with_vec(s: &Vec<char>, p: &Vec<char>) -> (b: bool)
    ensures
        b == p@.is_prefix_of(s@),
{
    let b = matches_at(s, p, 0);
    proof {
        if b {
            assert(s@.take(p@.len() as int) =~= s@.subrange(0, p@.len() as int));
        }
        if p@.is_prefix_of(s@) {
            assert(s@.take(p@.len() as int) =~= s@.subrange(0, p@.len() as int));
        }
    }
    b
}

/// `s.ends_with(p)`.
pub fn ends_with_vec(s: &Vec<char>, p: &Vec<char>) -> (b: bool)
    ensures
        b == p@.is_suffix_of(s@),
{
    if p.len() > s.len() {
        return false;
    }
    let b = matches_at(s, p, s.len() - p.len());
    proof {
        assert(s@.skip(s@.len() - p@.len()) =~= s@.subrange(
            s@.len() - p@.len(),
            s@.len() as int,
        ));
    }
    b
}

/// `s.starts_with(c)` for a single character.
pub open spec fn starts_with_char(s: Seq<char>, c: char) -> bool {
    s.len() > 0 && s[0] == c
}

/// `str::split_once`: the text before and after the first occurrence of `p`.
pub open spec fn split_once(s: Seq<char>, p: Seq<char>) -> Option<(Seq<char>, Seq<char>)> {
    match find(s, p) {
        Some(i) => Some((s.take(i), s.skip(i + p.len()))),
        None => None,
    }
}

pub fn split_once_vec(s: &Vec<char>, p: &Vec<char>) -> (r: Option<(Vec<char>, Vec<char>)>)
    ensures
        match r {
            Some((a, b)) => split_once(s@, p@) == Some((a@, b@)),
            None => split_once(s@, p@) is None,
        },
{
    match find_vec(s, p) {
        Some(i) => {
            proof {
                lemma_find(s@, p@);
            }
            assert(match_at(s@, p@, i as int));
            let plen = p.len();
            assert(i + plen <= s.len());
            let a = slice_vec(s, 0, i);
            let b = slice_vec(s, i + plen, s.len());
            assert(a@ =~= s@.take(i as int));
            assert(b@ =~= s@.skip(i + p@.len()));
            Some((a, b))
        },
        None => None,
    }
}

/// Removes every leading character that belongs to `set`, as
/// `str::trim_start_matches` does with a slice of characters.
pub open spec fn trim_start_chars(s: Seq<char>, set: Seq<char>) -> Seq<char>
    decreases s.len(),
{
    if s.len() > 0 && set.contains(s[0]) {
        trim_start_chars(s.drop_first(), set)
    } else {
        s
    }
}

pub fn contains_char(set: &Vec<char>, c: char) -> (b: bool)
    ensures
        b == set@.contains(c),
{
    let mut i: usize = 0;
    while i < set.len()
        invariant
            i <= set.len(),
            forall|j: int| 0 <= j < i ==> set@[j] != c,
        decreases set.len() - i,
    {
        if set[i] == c {
            return true;
        }
        i += 1;
    }
    false
}

pub fn trim_start_chars_vec(s: &Vec<char>, set: &Vec<char>) -> (r: Vec<char>)
    ensures
        r@ == trim_start_chars(s@, set@),
{
    let mut i: usize = 0;
    assert(s@.skip(0) =~= s@);
    while i < s.len() && contains_char(set, s[i])
        invariant
            i <= s.len(),
            trim_start_chars(s@, set@) == trim_start_chars(s@.skip(i as int), set@),
        decreases s.len() - i,
    {
        assert(s@.skip(i as int).drop_first() =~= s@.skip(i + 1));
        i += 1;
    }
    let r = slice_vec(s, i, s.len());
    assert(r@ =~= s@.skip(i as int));
    r
}

/// Removes the string `p` repeatedly from the start of `s`, as
/// `str::trim_start_matches` does with a string pattern.
pub open spec fn trim_start_str(s: Seq<char>, p: Seq<char>) -> Seq<char>
    decreases s.len(),
{
    if p.len() > 0 && p.is_prefix_of(s) {
        trim_start_str(s.skip(p.len() as int), p)
    } else {
        s
    }
}

pub fn trim_start_str_vec(s: &Vec<char>, p: &Vec<char>) -> (r: Vec<char>)
    ensures
        r@ == trim_start_str(s@, p@),
{
    let mut cur = slice_vec(s, 0, s.len());
    assert(cur@ =~= s@);
    if p.len() == 0 {
        return cur;
    }
    while starts_with_vec(&cur, p)
        invariant
            p@.len() > 0,
            trim_start_str(s@, p@) == trim_start_str(cur@, p@),
        decreases cur@.len(),
    {
        cur = slice_vec(&cur, p.len(), cur.len());
    }
    cur
}

// ---------------------------------------------------------------------------
// Lines
// ---------------------------------------------------------------------------

/// `str::split_inclusive('\n')`: pieces that end with their line feed (the
/// last one may lack it); no piece for an empty string.
pub open spec fn split_inclusive_nl(s: Seq<char>) -> Seq<Seq<char>>
    decreases s.len(),
{
    if s.len() == 0 {
        seq![]
    } else {
        proof {
            lemma_find_nl_bound(s);
        }
        match find(s, seq!['\n']) {
            Some(i) => seq![s.take(i + 1)] + split_inclusive_nl(s.skip(i + 1)),
            None => seq![s],
        }
    }
}

/// One piece of `split_inclusive('\n')` with its line ending removed: a
/// trailing `"\n"`, and then a `'\r'` just before it.
pub open spec fn strip_line_ending(l: Seq<char>) -> Seq<char> {
    if l.len() > 0 && l.last() == '\n' {
        let m = l.drop_last();
        if m.len() > 0 && m.last() == '\r' {
            m.drop_last()
        } else {
            m
        }
    } else {
        l
    }
}

/// `str::lines`.
pub open spec fn lines(s: Seq<char>) -> Seq<Seq<char>> {
    split_inclusive_nl(s).map_values(|l: Seq<char>| strip_line_ending(l))
}

pub proof fn lemma_find_nl_bound(s: Seq<char>)
    ensures
        find(s, seq!['\n']) matches Some(i) ==> 0 <= i < s.len() && s[i] == '\n',
{
    lemma_find(s, seq!['\n']);
    if let Some(i) = find(s, seq!['\n']) {
        assert(s.subrange(i, i + 1)[0] == s[i]);
    }
}

/// `str::split_inclusive('\n')` on a character vector.
pub fn split_inclusive_nl_vec(s: &Vec<char>) -> (r: Vec<Vec<char>>)
    ensures
        r@.len() == split_inclusive_nl(s@).len(),
        forall|i: int| 0 <= i < r@.len() ==> #[trigger] r@[i]@ == split_inclusive_nl(s@)[i],
{
    let mut out: Vec<Vec<char>> = Vec::new();
    let mut rest = slice_vec(s, 0, s.len());
    assert(rest@ =~= s@);
    let ghost done: Seq<Seq<char>> = seq![];
    while rest.len() > 0
        invariant
            out@.len() == done.len(),
            forall|i: int| 0 <= i < out@.len() ==> #[trigger] out@[i]@ == done[i],
            split_inclusive_nl(s@) == done + split_inclusive_nl(rest@),
        decreases rest@.len(),
    {
        proof {
            lemma_find_nl_bound(rest@);
        }
        match find_char(&rest, '\n') {
            Some(i) => {
                let piece = slice_vec(&rest, 0, i + 1);
                let next = slice_vec(&rest, i + 1, rest.len());
                assert(piece@ =~= rest@.take(i + 1));
                assert(next@ =~= rest@.skip(i + 1));
                proof {
                    assert(done.push(piece@) + split_inclusive_nl(next@) =~= done + (seq![piece@]
                        + split_inclusive_nl(next@)));
                    done = done.push(piece@);
                }
                out.push(piece);
                rest = next;
            },
            None => {
                let piece = slice_vec(&rest, 0, rest.len());
                assert(piece@ =~= rest@);
                proof {
                    assert(split_inclusive_nl(rest@) == seq![rest@]);
                    done = done.push(piece@);
                }
                out.push(piece);
                let empty: Vec<char> = Vec::new();
                rest = empty;
                assert(split_inclusive_nl(rest@) =~= Seq::<Seq<char>>::empty());
                assert(done + split_inclusive_nl(rest@) =~= done);
            },
        }
    }
    assert(split_inclusive_nl(rest@) =~= Seq::<Seq<char>>::empty());
    assert(done + split_inclusive_nl(rest@) =~= done);
    out
}

pub fn strip_line_ending_vec(l: &Vec<char>) -> (r: Vec<char>)
    ensures
        r@ == strip_line_ending(l@),
{
    if l.len() > 0 && l[l.len() - 1] == '\n' {
        if l.len() > 1 && l[l.len() - 2] == '\r' {
            slice_vec(l, 0, l.len() - 2)
        } else {
            slice_vec(l, 0, l.len() - 1)
        }
    } else {
        slice_vec(l, 0, l.len())
    }
}

/// `str::lines` on a character vector.
pub fn lines_vec(s: &Vec<char>) -> (r: Vec<Vec<char>>)
    ensures
        r@.len() == lines(s@).len(),
        forall|i: int| 0 <= i < r@.len() ==> #[trigger] r@[i]@ == lines(s@)[i],
{
    let pieces = split_inclusive_nl_vec(s);
    let mut out: Vec<Vec<char>> = Vec::new();
    let mut i: usize = 0;
    while i < pieces.len()
        invariant
            i <= pieces@.len(),
            pieces@.len() == split_inclusive_nl(s@).len(),
            forall|k: int| 0 <= k < pieces@.len() ==> #[trigger] pieces@[k]@ == split_inclusive_nl(s@)[k],
            out@.len() == i,
            forall|k: int| 0 <= k < i ==> #[trigger] out@[k]@ == lines(s@)[k],
        decreases pieces.len() - i,
    {
        let l = strip_line_ending_vec(&pieces[i]);
        out.push(l);
        i += 1;
    }
    out
}

// ---------------------------------------------------------------------------
// Decimal integers (`str::parse::<u32>` and `str::parse::<i32>`)
// ---------------------------------------------------------------------------

pub open spec fn is_digit(c: char) -> bool {
    '0' <= c && c <= '9'
}

pub open spec fn digit_value(c: char) -> int {
    (c as u32) - ('0' as u32)
}

/// Value of a string of decimal digits.
pub open spec fn digits_value(s: Seq<char>) -> int
    decreases s.len(),
{
    if s.len() == 0 {
        0
    } else {
        digits_value(s.drop_last()) * 10 + digit_value(s.last())
    }
}

pub open spec fn all_digits(s: Seq<char>) -> bool {
    forall|i: int| 0 <= i < s.len() ==> is_digit(#[trigger] s[i])
}

/// `s.parse::<u32>()`: an optional `'+'`, then one or more ASCII digits whose
/// value fits in a `u32`.
pub open spec fn parse_u32(s: Seq<char>) -> Option<u32> {
    let body = if s.len() > 0 && s[0] == '+' {
        s.drop_first()
    } else {
        s
    };
    if body.len() > 0 && all_digits(body) && digits_value(body) <= u32::MAX {
        Some(digits_value(body) as u32)
    } else {
        None
    }
}

/// `s.parse::<i32>()`: an optional sign, then one or more ASCII digits whose
/// signed value fits in an `i32`.
pub open spec fn parse_i32(s: Seq<char>) -> Option<i32> {
    let neg = s.len() > 0 && s[0] == '-';
    let body = if s.len() > 0 && (s[0] == '+' || s[0] == '-') {
        s.drop_first()
    } else {
        s
    };
    let v = if neg {
        -digits_value(body)
    } else {
        digits_value(body)
    };
    if body.len() > 0 && all_digits(body) && i32::MIN <= v && v <= i32::MAX {
        Some(v as i32)
    } else {
        None
    }
}

proof fn lemma_digits_value_nonneg(s: Seq<char>)
    requires
        all_digits(s),
    ensures
        digits_value(s) >= 0,
    decreases s.len(),
{
    if s.len() > 0 {
        assert(is_digit(s[s.len() - 1]));
        lemma_digits_value_nonneg(s.drop_last());
    }
}

/// The value of a digit string is at least the value of any of its prefixes.
proof fn lemma_digits_value_prefix(s: Seq<char>, i: int)
    requires
        all_digits(s),
        0 <= i <= s.len(),
    ensures
        digits_value(s.take(i)) <= digits_value(s),
    decreases s.len() - i,
{
    if i < s.len() {
        let t = s.take(i + 1);
        assert(t.drop_last() =~= s.take(i));
        assert(is_digit(t.last()));
        lemma_digits_value_nonneg(s.take(i));
        lemma_digits_value_prefix(s, i + 1);
    } else {
        assert(s.take(i) =~= s);
    }
}

/// Value of an all-digit vector, or `None` once it exceeds `bound`.
fn digits_up_to(v: &Vec<char>, from: usize, bound: u64) -> (r: Option<u64>)
    requires
        from <= v.len(),
        bound <= 0x1_0000_0000,
    ensures
        match r {
            Some(x) => all_digits(v@.skip(from as int)) && x == digits_value(v@.skip(from as int))
                && x <= bound,
            None => !all_digits(v@.skip(from as int)) || digits_value(v@.skip(from as int))
                > bound,
        },
{
    let ghost body = v@.skip(from as int);
    let mut acc: u64 = 0;
    let mut i: usize = from;
    while i < v.len()
        invariant
            from <= i <= v.len(),
            bound <= 0x1_0000_0000,
            body == v@.skip(from as int),
            all_digits(body.take(i - from)),
            acc == digits_value(body.take(i - from)),
            acc <= bound,
        decreases v.len() - i,
    {
        let c = v[i];
        let ghost t = body.take(i - from + 1);
        assert(t.drop_last() =~= body.take(i - from));
        assert(t.last() == c);
        if !('0' <= c && c <= '9') {
            assert(!is_digit(body[i - from]));
            return None;
        }
        let d = (c as u32 - '0' as u32) as u64;
        let next = acc * 10 + d;
        assert(all_digits(t)) by {
            assert forall|k: int| 0 <= k < t.len() implies is_digit(#[trigger] t[k]) by {
                if k < t.len() - 1 {
                    assert(t[k] == body.take(i - from)[k]);
                }
            }
        }
        if next > bound {
            proof {
                if all_digits(body) {
                    lemma_digits_value_prefix(body, i - from + 1);
                }
            }
            return None;
        }
        acc = next;
        i += 1;
    }
    assert(body.take(i - from) =~= body);
    Some(acc)
}

/// `s.parse::<u32>().ok()`.
pub fn parse_u32_vec(s: &Vec<char>) -> (r: Option<u32>)
    ensures
        r == parse_u32(s@),
{
    let start: usize = if s.len() > 0 && s[0] == '+' {
        1
    } else {
        0
    };
    assert(start == 1 ==> s@.skip(1) =~= s@.drop_first());
    assert(s@.skip(0) =~= s@);
    if start == s.len() {
        return None;
    }
    match digits_up_to(s, start, 0xFFFF_FFFF) {
        Some(x) => Some(x as u32),
        None => None,
    }
}

/// `s.parse::<i32>().ok()`.
pub fn parse_i32_vec(s: &Vec<char>) -> (r: Option<i32>)
    ensures
        r == parse_i32(s@),
{
    let neg = s.len() > 0 && s[0] == '-';
    let start: usize = if s.len() > 0 && (s[0] == '+' || s[0] == '-') {
        1
    } else {
        0
    };
    assert(start == 1 ==> s@.skip(1) =~= s@.drop_first());
    assert(s@.skip(0) =~= s@);
    if start == s.len() {
        return None;
    }
    let bound: u64 = if neg {
        0x8000_0000
    } else {
        0x7FFF_FFFF
    };
    match digits_up_to(s, start, bound) {
        Some(x) => {
            if neg {
                Some((0 - (x as i64)) as i32)
            } else {
                Some(x as i32)
            }
        },
        None => None,
    }
}

} // verus!

verus! {

// ---------------------------------------------------------------------------
// Case mapping (std, named)
// ---------------------------------------------------------------------------

/// What `str::to_lowercase` returns for a string: its lowercase equivalent
/// under the Unicode `Lowercase` property, a function of the characters alone.
pub uninterp spec fn lowercase(s: Seq<char>) -> Seq<char>;

/// What `str::to_uppercase` returns for a string: its uppercase equivalent
/// under the Unicode `Uppercase` property, a function of the characters alone.
pub uninterp spec fn uppercase(s: Seq<char>) -> Seq<char>;

/// Every character is ASCII.
pub open spec fn all_ascii(s: Seq<char>) -> bool {
    forall|i: int| 0 <= i < s.len() ==> (#[trigger] s[i] as u32) < 128
}

/// An ASCII capital lowered; any other character unchanged.
pub open spec fn ascii_lower_char(c: char) -> char {
    if 'A' <= c && c <= 'Z' {
        ((c as u32) + 32) as char
    } else {
        c
    }
}

/// `s` with each ASCII capital lowered and every other character kept: what
/// `str::to_lowercase` gives for ASCII text.
pub open spec fn ascii_lowered(s: Seq<char>) -> Seq<char> {
    s.map_values(|c: char| ascii_lower_char(c))
}

/// An ASCII small letter raised; any other character unchanged.
pub open spec fn ascii_upper_char(c: char) -> char {
    if 'a' <= c && c <= 'z' {
        ((c as u32) - 32) as char
    } else {
        c
    }
}

/// Calls `str::to_lowercase`; the result is `lowercase` of the argument,
/// and, on ASCII text, as std documents, each capital `A`-`Z` lowered and
/// every other character kept.
#[verifier::external_body]
pub(crate) fn to_lowercase(s: &str) -> (r: String)
    ensures
        r@ == lowercase(s@),
        all_ascii(s@) ==> r@ == s@.map_values(|c: char| ascii_lower_char(c)),
{
    s.to_lowercase()
}

/// Calls `str::to_uppercase`; the result is `uppercase` of the argument,
/// and, on ASCII text, as std documents, each small `a`-`z` raised and every
/// other character kept.
#[verifier::external_body]
pub(crate) fn to_uppercase(s: &str) -> (r: String)
    ensures
        r@ == uppercase(s@),
        all_ascii(s@) ==> r@ == s@.map_values(|c: char| ascii_upper_char(c)),
{
    s.to_uppercase()
}

/// `to_lowercase` on a character vector.
pub(crate) fn lowercase_vec(v: &Vec<char>) -> (r: Vec<char>)
    ensures
        r@ == lowercase(v@),
        all_ascii(v@) ==> r@ == v@.map_values(|c: char| ascii_lower_char(c)),
{
    let s = string_of(v);
    let l = to_lowercase(s.as_str());
    chars_of(l.as_str())
}

/// `to_uppercase` on a character vector.
pub(crate) fn uppercase_vec(v: &Vec<char>) -> (r: Vec<char>)
    ensures
        r@ == uppercase(v@),
        all_ascii(v@) ==> r@ == v@.map_values(|c: char| ascii_upper_char(c)),
{
    let s = string_of(v);
    let u = to_uppercase(s.as_str());
    chars_of(u.as_str())
}

/// `s` contains `p` somewhere.
pub open spec fn contains(s: Seq<char>, p: Seq<char>) -> bool {
    find(s, p) is Some
}

pub fn contains_vec(s: &Vec<char>, p: &Vec<char>) -> (b: bool)
    ensures
        b == contains(s@, p@),
{
    find_vec(s, p).is_some()
}

} // verus!

verus! {

/// A first occurrence inside `s` stays the first occurrence once more text follows.
pub proof fn lemma_find_extend(s: Seq<char>, c: Seq<char>, p: Seq<char>)
    requires
        find(s, p) is Some,
    ensures
        find(s + c, p) == find(s, p),
{
    lemma_find(s, p);
    let i = find(s, p)->0;
    lemma_match_at_ext(s, s + c, p, i);
    assert forall|j: int| 0 <= j < i implies !#[trigger] match_at(s + c, p, j) by {
        lemma_match_at_ext(s, s + c, p, j);
    }
    lemma_find_is(s + c, p, i);
}

/// When nothing matches before `d`, the first occurrence in `s` is the first
/// occurrence in `s.skip(d)`, moved by `d`.
pub proof fn lemma_find_after(s: Seq<char>, p: Seq<char>, d: int)
    requires
        0 <= d <= s.len(),
        forall|j: int| 0 <= j < d ==> !#[trigger] match_at(s, p, j),
    ensures
        find(s, p) == (match find(s.skip(d), p) {
            Some(x) => Some(x + d),
            None => None,
        }),
{
    let t = s.skip(d);
    assert forall|j: int| d <= j implies #[trigger] match_at(s, p, j) == match_at(t, p, j - d) by {
        if j + p.len() <= s.len() {
            assert(s.subrange(j, j + p.len()) =~= t.subrange(j - d, j - d + p.len()));
        }
    }
    lemma_find(t, p);
    match find(t, p) {
        Some(x) => {
            assert(match_at(s, p, x + d));
            assert forall|j: int| 0 <= j < x + d implies !#[trigger] match_at(s, p, j) by {
                if j >= d {
                    assert(match_at(s, p, j) == match_at(t, p, j - d));
                }
            }
            lemma_find_is(s, p, x + d);
        },
        None => {
            assert forall|j: int| !#[trigger] match_at(s, p, j) by {
                if j >= d {
                    assert(match_at(s, p, j) == match_at(t, p, j - d));
                }
            }
            lemma_find_none(s, p);
        },
    }
}

/// The first occurrence of a pattern lies inside the text.
pub proof fn lemma_find_bound(s: Seq<char>, p: Seq<char>)
    ensures
        find(s, p) matches Some(i) ==> 0 <= i && i + p.len() <= s.len(),
{
    lemma_find(s, p);
}

} // verus!

verus! {

/// Index of the first character of `s` that belongs to `set`.
pub open spec fn first_in(s: Seq<char>, set: Seq<char>) -> Option<int>
    decreases s.len(),
{
    if s.len() == 0 {
        None
    } else if set.contains(s[0]) {
        Some(0)
    } else {
        match first_in(s.drop_first(), set) {
            Some(i) => Some(i + 1),
            None => None,
        }
    }
}

pub proof fn lemma_first_in(s: Seq<char>, set: Seq<char>)
    ensures
        match first_in(s, set) {
            Some(i) => 0 <= i < s.len() && set.contains(s[i]) && forall|j: int|
                0 <= j < i ==> !set.contains(#[trigger] s[j]),
            None => forall|j: int| 0 <= j < s.len() ==> !set.contains(#[trigger] s[j]),
        },
    decreases s.len(),
{
    if s.len() > 0 && !set.contains(s[0]) {
        lemma_first_in(s.drop_first(), set);
        assert forall|j: int| 1 <= j < s.len() implies s[j] == s.drop_first()[j - 1] by {}
    }
}

/// `str::split` on any character of `set`: the pieces between separators
/// (always at least one piece, possibly empty).
pub open spec fn split_set(s: Seq<char>, set: Seq<char>) -> Seq<Seq<char>>
    decreases s.len(),
{
    proof {
        lemma_first_in(s, set);
    }
    match first_in(s, set) {
        Some(i) => seq![s.take(i)] + split_set(s.skip(i + 1), set),
        None => seq![s],
    }
}

pub fn first_in_vec(s: &Vec<char>, set: &Vec<char>) -> (r: Option<usize>)
    ensures
        match r {
            Some(i) => first_in(s@, set@) == Some(i as int),
            None => first_in(s@, set@) is None,
        },
{
    let mut i: usize = 0;
    proof {
        lemma_first_in(s@, set@);
    }
    while i < s.len()
        invariant
            i <= s.len(),
            forall|j: int| 0 <= j < i ==> !set@.contains(#[trigger] s@[j]),
        decreases s.len() - i,
    {
        if contains_char(set, s[i]) {
            proof {
                lemma_first_in(s@, set@);
                if let Some(k) = first_in(s@, set@) {
                    if k > i {
                        assert(!set@.contains(s@[i as int]));
                    }
                }
            }
            return Some(i);
        }
        i += 1;
    }
    proof {
        lemma_first_in(s@, set@);
    }
    None
}

/// `str::split` on a set of characters, on a character vector.
pub fn split_set_vec(s: &Vec<char>, set: &Vec<char>) -> (r: Vec<Vec<char>>)
    ensures
        r@.len() == split_set(s@, set@).len(),
        forall|i: int| 0 <= i < r@.len() ==> #[trigger] r@[i]@ == split_set(s@, set@)[i],
{
    let mut out: Vec<Vec<char>> = Vec::new();
    let mut rest = slice_vec(s, 0, s.len());
    assert(rest@ =~= s@);
    let ghost done: Seq<Seq<char>> = seq![];
    loop
        invariant_except_break
            out@.len() == done.len(),
            forall|i: int| 0 <= i < out@.len() ==> #[trigger] out@[i]@ == done[i],
            split_set(s@, set@) == done + split_set(rest@, set@),
        ensures
            out@.len() == split_set(s@, set@).len(),
            forall|i: int| 0 <= i < out@.len() ==> #[trigger] out@[i]@ == split_set(s@, set@)[i],
        decreases rest@.len(),
    {
        proof {
            lemma_first_in(rest@, set@);
        }
        match first_in_vec(&rest, set) {
            Some(i) => {
                let piece = slice_vec(&rest, 0, i);
                let next = slice_vec(&rest, i + 1, rest.len());
                assert(piece@ =~= rest@.take(i as int));
                assert(next@ =~= rest@.skip(i + 1));
                proof {
                    assert(done.push(piece@) + split_set(next@, set@) =~= done + (seq![piece@]
                        + split_set(next@, set@)));
                    done = done.push(piece@);
                }
                out.push(piece);
                rest = next;
            },
            None => {
                let piece = slice_vec(&rest, 0, rest.len());
                assert(piece@ =~= rest@);
                proof {
                    assert(split_set(rest@, set@) == seq![rest@]);
                    done = done.push(piece@);
                }
                out.push(piece);
                break ;
            },
        }
    }
    out
}

/// `str::trim_end_matches(c)`: removes every trailing `c`.
pub open spec fn trim_end_char(s: Seq<char>, c: char) -> Seq<char>
    decreases s.len(),
{
    if s.len() > 0 && s.last() == c {
        trim_end_char(s.drop_last(), c)
    } else {
        s
    }
}

pub fn trim_end_char_vec(s: &Vec<char>, c: char) -> (r: Vec<char>)
    ensures
        r@ == trim_end_char(s@, c),
{
    let mut n = s.len();
    assert(s@.take(n as int) =~= s@);
    while n > 0 && s[n - 1] == c
        invariant
            n <= s.len(),
            trim_end_char(s@, c) == trim_end_char(s@.take(n as int), c),
        decreases n,
    {
        assert(s@.take(n as int).drop_last() =~= s@.take(n - 1));
        n -= 1;
    }
    slice_vec(s, 0, n)
}

/// `str::strip_suffix`.
pub open spec fn strip_suffix(s: Seq<char>, p: Seq<char>) -> Option<Seq<char>> {
    if p.is_suffix_of(s) {
        Some(s.take(s.len() - p.len()))
    } else {
        None
    }
}

pub fn strip_suffix_vec(s: &Vec<char>, p: &Vec<char>) -> (r: Option<Vec<char>>)
    ensures
        match r {
            Some(v) => strip_suffix(s@, p@) == Some(v@),
            None => strip_suffix(s@, p@) is None,
        },
{
    if ends_with_vec(s, p) {
        Some(slice_vec(s, 0, s.len() - p.len()))
    } else {
        None
    }
}

/// `str::strip_prefix`.
pub open spec fn strip_prefix(s: Seq<char>, p: Seq<char>) -> Option<Seq<char>> {
    if p.is_prefix_of(s) {
        Some(s.skip(p.len() as int))
    } else {
        None
    }
}

pub fn strip_prefix_vec(s: &Vec<char>, p: &Vec<char>) -> (r: Option<Vec<char>>)
    ensures
        match r {
            Some(v) => strip_prefix(s@, p@) == Some(v@),
            None => strip_prefix(s@, p@) is None,
        },
{
    if starts_with_vec(s, p) {
        let v = slice_vec(s, p.len(), s.len());
        assert(v@ =~= s@.skip(p@.len() as int));
        Some(v)
    } else {
        None
    }
}

} // verus!

verus! {

// ---------------------------------------------------------------------------
// Joining and ordering strings
// ---------------------------------------------------------------------------

/// The pieces separated by `sep` (`[T]::join`).
pub open spec fn join(parts: Seq<Seq<char>>, sep: Seq<char>) -> Seq<char>
    decreases parts.len(),
{
    if parts.len() == 0 {
        seq![]
    } else if parts.len() == 1 {
        parts[0]
    } else {
        join(parts.drop_last(), sep) + sep + parts.last()
    }
}

pub fn join_vec(parts: &Vec<Vec<char>>, sep: &Vec<char>) -> (r: Vec<char>)
    ensures
        r@ == join(parts@.map_values(|v: Vec<char>| v@), sep@),
{
    let ghost ps = parts@.map_values(|v: Vec<char>| v@);
    let mut out: Vec<char> = Vec::new();
    let mut i: usize = 0;
    while i < parts.len()
        invariant
            i <= parts@.len(),
            ps == parts@.map_values(|v: Vec<char>| v@),
            out@ == join(ps.take(i as int), sep@),
        decreases parts.len() - i,
    {
        if i > 0 {
            extend_vec(&mut out, sep);
        }
        extend_vec(&mut out, &parts[i]);
        proof {
            let t = ps.take(i + 1);
            assert(t.drop_last() =~= ps.take(i as int));
            assert(t.last() == parts@[i as int]@);
            if i == 0 {
                assert(out@ =~= join(t, sep@));
            } else {
                assert(out@ =~= join(ps.take(i as int), sep@) + sep@ + parts@[i as int]@);
            }
        }
        i += 1;
    }
    assert(ps.take(parts.len() as int) =~= ps);
    out
}

/// Lexicographic order on characters, the order of `String`'s `Ord` (UTF-8
/// byte order and code point order agree).
pub open spec fn lex_le(a: Seq<char>, b: Seq<char>) -> bool
    decreases a.len(),
{
    if a.len() == 0 {
        true
    } else if b.len() == 0 {
        false
    } else if a[0] != b[0] {
        a[0] < b[0]
    } else {
        lex_le(a.drop_first(), b.drop_first())
    }
}

pub open spec fn lex_order() -> spec_fn(Seq<char>, Seq<char>) -> bool {
    |a: Seq<char>, b: Seq<char>| lex_le(a, b)
}

proof fn lemma_lex_refl(a: Seq<char>)
    ensures
        lex_le(a, a),
    decreases a.len(),
{
    if a.len() > 0 {
        lemma_lex_refl(a.drop_first());
    }
}

proof fn lemma_lex_antisym(a: Seq<char>, b: Seq<char>)
    requires
        lex_le(a, b),
        lex_le(b, a),
    ensures
        a == b,
    decreases a.len(),
{
    if a.len() > 0 && b.len() > 0 {
        lemma_lex_antisym(a.drop_first(), b.drop_first());
        assert(a =~= seq![a[0]] + a.drop_first());
        assert(b =~= seq![b[0]] + b.drop_first());
    } else {
        assert(a =~= b);
    }
}

proof fn lemma_lex_trans(a: Seq<char>, b: Seq<char>, c: Seq<char>)
    requires
        lex_le(a, b),
        lex_le(b, c),
    ensures
        lex_le(a, c),
    decreases a.len(),
{
    if a.len() > 0 && b.len() > 0 && c.len() > 0 {
        if a[0] == b[0] && b[0] == c[0] {
            lemma_lex_trans(a.drop_first(), b.drop_first(), c.drop_first());
        }
    }
}

proof fn lemma_lex_total(a: Seq<char>, b: Seq<char>)
    ensures
        lex_le(a, b) || lex_le(b, a),
    decreases a.len(),
{
    if a.len() > 0 && b.len() > 0 && a[0] == b[0] {
        lemma_lex_total(a.drop_first(), b.drop_first());
    }
}

/// The lexicographic order is a total order.
pub proof fn lemma_lex_total_ordering()
    ensures
        vstd::relations::total_ordering(lex_order()),
{
    assert forall|a: Seq<char>| #[trigger] lex_order()(a, a) by {
        lemma_lex_refl(a);
    }
    assert forall|a: Seq<char>, b: Seq<char>| #[trigger]
        lex_order()(a, b) && #[trigger] lex_order()(b, a) implies a == b by {
        lemma_lex_antisym(a, b);
    }
    assert forall|a: Seq<char>, b: Seq<char>, c: Seq<char>| #[trigger]
        lex_order()(a, b) && #[trigger] lex_order()(b, c) implies lex_order()(a, c) by {
        lemma_lex_trans(a, b, c);
    }
    assert forall|a: Seq<char>, b: Seq<char>| #[trigger]
        lex_order()(a, b) || #[trigger] lex_order()(b, a) by {
        lemma_lex_total(a, b);
    }
}

pub fn lex_le_vec(a: &Vec<char>, b: &Vec<char>) -> (r: bool)
    ensures
        r == lex_le(a@, b@),
{
    let mut i: usize = 0;
    assert(a@.skip(0) =~= a@);
    assert(b@.skip(0) =~= b@);
    while i < a.len() && i < b.len() && a[i] == b[i]
        invariant
            i <= a.len(),
            i <= b.len(),
            lex_le(a@, b@) == lex_le(a@.skip(i as int), b@.skip(i as int)),
        decreases a.len() - i,
    {
        assert(a@.skip(i as int).drop_first() =~= a@.skip(i + 1));
        assert(b@.skip(i as int).drop_first() =~= b@.skip(i + 1));
        i += 1;
    }
    assert(a@.skip(0) =~= a@);
    if i == a.len() {
        true
    } else if i == b.len() {
        false
    } else {
        a[i] < b[i]
    }
}

/// The views of a vector of character vectors.
pub open spec fn views(v: Seq<Vec<char>>) -> Seq<Seq<char>> {
    v.map_values(|x: Vec<char>| x@)
}

/// Sorts strings in `String`'s order (insertion sort).
pub fn sort_strings(v: Vec<Vec<char>>) -> (r: Vec<Vec<char>>)
    ensures
        views(r@) == views(v@).sort_by(lex_order()),
{
    proof {
        lemma_lex_total_ordering();
    }
    let ghost input = views(v@);
    let mut out: Vec<Vec<char>> = Vec::new();
    let mut i: usize = 0;
    assert(views(out@) =~= input.take(0));
    while i < v.len()
        invariant
            i <= v@.len(),
            input == views(v@),
            vstd::relations::total_ordering(lex_order()),
            vstd::relations::sorted_by(views(out@), lex_order()),
            views(out@).to_multiset() == input.take(i as int).to_multiset(),
        decreases v.len() - i,
    {
        let x = slice_vec(&v[i], 0, v[i].len());
        assert(x@ =~= input[i as int]);
        let mut pos: usize = 0;
        while pos < out.len() && lex_le_vec(&out[pos], &x)
            invariant
                pos <= out@.len(),
                forall|k: int| 0 <= k < pos ==> lex_le(#[trigger] views(out@)[k], x@),
            decreases out.len() - pos,
        {
            pos += 1;
        }
        let ghost old_out = views(out@);
        proof {
            if pos < out@.len() {
                assert(!lex_le(old_out[pos as int], x@));
                lemma_lex_total(old_out[pos as int], x@);
            }
        }
        out.insert(pos, x);
        proof {
            let nv = views(out@);
            assert(nv =~= old_out.insert(pos as int, x@));
            assert forall|a: int, b: int| 0 <= a < b < nv.len() implies #[trigger] lex_order()(
                nv[a],
                nv[b],
            ) by {
                if b < pos {
                    assert(lex_order()(old_out[a], old_out[b]));
                } else if b == pos {
                    assert(lex_le(old_out[a], x@));
                } else if a == pos {
                    assert(lex_order()(old_out[pos as int], old_out[b - 1]));
                    lemma_lex_trans(x@, old_out[pos as int], old_out[b - 1]);
                } else if a < pos {
                    assert(lex_order()(old_out[a], old_out[b - 1]));
                } else {
                    assert(lex_order()(old_out[a - 1], old_out[b - 1]));
                }
            }
            vstd::seq_lib::to_multiset_insert(old_out, pos as int, x@);
            vstd::seq_lib::to_multiset_build(input.take(i as int), x@);
            assert(input.take(i + 1) =~= input.take(i as int).push(x@));
        }
        i += 1;
    }
    proof {
        assert(input.take(v@.len() as int) =~= input);
        input.lemma_sort_by_ensures(lex_order());
        vstd::seq_lib::lemma_sorted_unique(views(out@), input.sort_by(lex_order()), lex_order());
    }
    out
}

} // verus!

verus! {

/// `str::replace`: every non-overlapping occurrence of `from` (non-empty),
/// scanning left to right, replaced by `to`.
pub open spec fn replace_all(s: Seq<char>, from: Seq<char>, to: Seq<char>) -> Seq<char>
    recommends
        from.len() > 0,
    decreases s.len(),
{
    proof {
        lemma_find_bound(s, from);
    }
    if from.len() == 0 {
        s
    } else {
        match find(s, from) {
            Some(i) => s.take(i) + to + replace_all(s.skip(i + from.len()), from, to),
            None => s,
        }
    }
}

pub fn replace_all_vec(s: &Vec<char>, from: &Vec<char>, to: &Vec<char>) -> (r: Vec<char>)
    requires
        from@.len() > 0,
    ensures
        r@ == replace_all(s@, from@, to@),
{
    let mut out: Vec<char> = Vec::new();
    let mut rest = slice_vec(s, 0, s.len());
    assert(rest@ =~= s@);
    loop
        invariant_except_break
            from@.len() > 0,
            replace_all(s@, from@, to@) == out@ + replace_all(rest@, from@, to@),
        ensures
            replace_all(s@, from@, to@) == out@,
        decreases rest@.len(),
    {
        proof {
            lemma_find_bound(rest@, from@);
        }
        match find_vec(&rest, from) {
            Some(i) => {
                let flen = from.len();
                let rlen = rest.len();
                assert(i + flen <= rlen);
                let before = slice_vec(&rest, 0, i);
                let after = slice_vec(&rest, i + flen, rlen);
                assert(before@ =~= rest@.take(i as int));
                assert(after@ =~= rest@.skip(i + from@.len()));
                assert(out@ + (before@ + to@ + replace_all(after@, from@, to@)) =~= (out@ + before@
                    + to@) + replace_all(after@, from@, to@));
                extend_vec(&mut out, &before);
                extend_vec(&mut out, to);
                rest = after;
            },
            None => {
                extend_vec(&mut out, &rest);
                break ;
            },
        }
    }
    out
}

/// `str::split` with a non-empty string pattern.
pub open spec fn split_str(s: Seq<char>, p: Seq<char>) -> Seq<Seq<char>>
    recommends
        p.len() > 0,
    decreases s.len(),
{
    proof {
        lemma_find_bound(s, p);
    }
    if p.len() == 0 {
        seq![s]
    } else {
        match find(s, p) {
            Some(i) => seq![s.take(i)] + split_str(s.skip(i + p.len()), p),
            None => seq![s],
        }
    }
}

/// Every piece of `split_str` is at most as long as the text.
pub proof fn lemma_split_str_len(s: Seq<char>, p: Seq<char>)
    requires
        p.len() > 0,
    ensures
        forall|k: int| 0 <= k < split_str(s, p).len() ==> (#[trigger] split_str(s, p)[k]).len() <= s.len(),
    decreases s.len(),
{
    lemma_find_bound(s, p);
    match find(s, p) {
        Some(i) => {
            lemma_split_str_len(s.skip(i + p.len()), p);
            let rest = split_str(s.skip(i + p.len()), p);
            assert forall|k: int| 0 <= k < split_str(s, p).len() implies (#[trigger] split_str(
                s,
                p,
            )[k]).len() <= s.len() by {
                if k > 0 {
                    assert(split_str(s, p)[k] == rest[k - 1]);
                }
            }
        },
        None => {},
    }
}

pub fn split_str_vec(s: &Vec<char>, p: &Vec<char>) -> (r: Vec<Vec<char>>)
    requires
        p@.len() > 0,
    ensures
        views(r@) == split_str(s@, p@),
{
    let mut out: Vec<Vec<char>> = Vec::new();
    let mut rest = slice_vec(s, 0, s.len());
    assert(rest@ =~= s@);
    loop
        invariant_except_break
            p@.len() > 0,
            split_str(s@, p@) == views(out@) + split_str(rest@, p@),
        ensures
            split_str(s@, p@) == views(out@),
        decreases rest@.len(),
    {
        proof {
            lemma_find_bound(rest@, p@);
        }
        let ghost before_out = views(out@);
        match find_vec(&rest, p) {
            Some(i) => {
                let plen = p.len();
                let rlen = rest.len();
                assert(i + plen <= rlen);
                let piece = slice_vec(&rest, 0, i);
                let next = slice_vec(&rest, i + plen, rlen);
                assert(piece@ =~= rest@.take(i as int));
                assert(next@ =~= rest@.skip(i + p@.len()));
                out.push(piece);
                assert(views(out@) =~= before_out.push(piece@));
                assert(before_out + (seq![piece@] + split_str(next@, p@)) =~= before_out.push(piece@)
                    + split_str(next@, p@));
                rest = next;
            },
            None => {
                let piece = slice_vec(&rest, 0, rest.len());
                assert(piece@ =~= rest@);
                out.push(piece);
                assert(views(out@) =~= before_out.push(piece@));
                assert(before_out + seq![rest@] =~= before_out.push(piece@));
                break ;
            },
        }
    }
    out
}

/// `str::trim_matches(c)`: every leading and trailing `c` removed.
pub open spec fn trim_char(s: Seq<char>, c: char) -> Seq<char> {
    trim_end_char(trim_start_chars(s, seq![c]), c)
}

pub fn trim_char_vec(s: &Vec<char>, c: char) -> (r: Vec<char>)
    ensures
        r@ == trim_char(s@, c),
{
    let mut set: Vec<char> = Vec::new();
    set.push(c);
    assert(set@ =~= seq![c]);
    let t = trim_start_chars_vec(s, &set);
    trim_end_char_vec(&t, c)
}

/// Concatenation of pieces, left to right.
pub open spec fn concat_pieces(ps: Seq<Seq<char>>) -> Seq<char>
    decreases ps.len(),
{
    if ps.len() == 0 {
        seq![]
    } else {
        concat_pieces(ps.drop_last()) + ps.last()
    }
}

proof fn lemma_concat_pieces_prepend(x: Seq<char>, ps: Seq<Seq<char>>)
    ensures
        concat_pieces(seq![x] + ps) == x + concat_pieces(ps),
    decreases ps.len(),
{
    if ps.len() == 0 {
        assert(seq![x] + ps =~= seq![x]);
        assert(seq![x].drop_last() =~= Seq::<Seq<char>>::empty());
        assert(concat_pieces(seq![x]) == concat_pieces(seq![x].drop_last()) + seq![x].last());
        assert(concat_pieces(seq![x]) =~= x);
        assert(x + concat_pieces(ps) =~= x);
    } else {
        let y = seq![x] + ps;
        assert(y.drop_last() =~= seq![x] + ps.drop_last());
        assert(y.last() == ps.last());
        assert(concat_pieces(y) == concat_pieces(y.drop_last()) + y.last());
        lemma_concat_pieces_prepend(x, ps.drop_last());
        assert(concat_pieces(ps) == concat_pieces(ps.drop_last()) + ps.last());
        assert(x + concat_pieces(ps) =~= x + concat_pieces(ps.drop_last()) + ps.last());
    }
}

/// The pieces of `split_inclusive('\n')` put back together give the text.
pub proof fn lemma_split_inclusive_concat(s: Seq<char>)
    ensures
        concat_pieces(split_inclusive_nl(s)) == s,
    decreases s.len(),
{
    if s.len() > 0 {
        lemma_find_nl_bound(s);
        match find(s, seq!['\n']) {
            Some(i) => {
                assert(split_inclusive_nl(s) == seq![s.take(i + 1)] + split_inclusive_nl(s.skip(i + 1)));
                lemma_split_inclusive_concat(s.skip(i + 1));
                lemma_concat_pieces_prepend(s.take(i + 1), split_inclusive_nl(s.skip(i + 1)));
                assert(s.take(i + 1) + s.skip(i + 1) =~= s);
            },
            None => {
                assert(split_inclusive_nl(s) == seq![s]);
                assert(seq![s].drop_last() =~= Seq::<Seq<char>>::empty());
                assert(concat_pieces(seq![s]) == concat_pieces(seq![s].drop_last()) + seq![s].last());
                assert(Seq::<char>::empty() + s =~= s);
            },
        }
    }
}

} // verus!
