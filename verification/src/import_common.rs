//! What every importer shares: the summary it reports, the list of authors
//! in order of first appearance, the stable fingerprint of a chat, and the
//! normalisation of the timestamps found in exports.
use vstd::prelude::*;

use crate::text::{
    chars_of, join, join_vec, lex_order, lit, lowercase, sort_strings, string_of, strip_suffix,
    strip_suffix_vec, to_lowercase, trim, trim_vec, views,
};

verus! {

/// Result of an import: the new source, how many messages were inserted and
/// how many were already present, and the authors seen.
pub struct ImportSummary {
    pub source_id: String,
    pub imported: usize,
    pub duplicates: usize,
    /// Author names detected in the import, in order of first appearance.
    pub participants: Vec<String>,
}

/// Number of `true` outcomes among the first `n`.
pub open spec fn count_true(outcomes: Seq<bool>, n: int) -> int
    decreases n,
{
    if n <= 0 {
        0
    } else {
        count_true(outcomes, n - 1) + if outcomes[n - 1] {
            1int
        } else {
            0int
        }
    }
}

proof fn lemma_count_true_bound(outcomes: Seq<bool>, n: int)
    requires
        0 <= n <= outcomes.len(),
    ensures
        0 <= count_true(outcomes, n) <= n,
    decreases n,
{
    if n > 0 {
        lemma_count_true_bound(outcomes, n - 1);
    }
}

impl ImportSummary {
    /// Summary of an import whose insertions returned `outcomes` (`true`:
    /// inserted, `false`: already present).
    pub fn from_outcomes(source_id: String, outcomes: &Vec<bool>, participants: Vec<String>) -> (s:
        ImportSummary)
        ensures
            s.source_id@ == source_id@,
            s.imported == count_true(outcomes@, outcomes@.len() as int),
            s.duplicates == outcomes@.len() - count_true(outcomes@, outcomes@.len() as int),
            s.participants@ == participants@,
    {
        let mut imported: usize = 0;
        let mut duplicates: usize = 0;
        let mut i: usize = 0;
        while i < outcomes.len()
            invariant
                i <= outcomes@.len(),
                imported == count_true(outcomes@, i as int),
                duplicates == i - count_true(outcomes@, i as int),
            decreases outcomes.len() - i,
        {
            proof {
                lemma_count_true_bound(outcomes@, i as int);
            }
            if outcomes[i] {
                imported += 1;
            } else {
                duplicates += 1;
            }
            i += 1;
        }
        ImportSummary { source_id, imported, duplicates, participants }
    }
}

/// Views of a sequence of strings.
pub open spec fn string_views(v: Seq<String>) -> Seq<Seq<char>> {
    v.map_values(|x: String| x@)
}

/// The names of `s[..n]` without repetitions, each at its first appearance.
pub open spec fn first_seen(s: Seq<Seq<char>>, n: int) -> Seq<Seq<char>>
    decreases n,
{
    if n <= 0 {
        seq![]
    } else {
        let acc = first_seen(s, n - 1);
        if acc.contains(s[n - 1]) {
            acc
        } else {
            acc.push(s[n - 1])
        }
    }
}

/// Law: the participants list has no repetitions and holds exactly the names
/// that occur.
pub proof fn law_first_seen_distinct(s: Seq<Seq<char>>, n: int)
    requires
        0 <= n <= s.len(),
    ensures
        first_seen(s, n).no_duplicates(),
        forall|x: Seq<char>| #[trigger] first_seen(s, n).contains(x) <==> s.take(n).contains(x),
    decreases n,
{
    if n > 0 {
        law_first_seen_distinct(s, n - 1);
        let acc = first_seen(s, n - 1);
        assert forall|x: Seq<char>| #[trigger] first_seen(s, n).contains(x) <==> s.take(n).contains(
            x,
        ) by {
            assert(s.take(n) =~= s.take(n - 1).push(s[n - 1]));
            if s.take(n).contains(x) && x != s[n - 1] {
                let k = choose|k: int| 0 <= k < n && s.take(n)[k] == x;
                assert(s.take(n - 1)[k] == x);
            }
            if first_seen(s, n).contains(x) && !acc.contains(x) {
                assert(x == s[n - 1]);
                assert(s.take(n)[n - 1] == x);
            }
            if acc.contains(x) {
                let k = choose|k: int| 0 <= k < acc.len() && acc[k] == x;
                assert(first_seen(s, n)[k] == x);
            }
            if x == s[n - 1] && !acc.contains(x) {
                assert(first_seen(s, n)[acc.len() as int] == x);
            }
        }
    }
}

/// The authors of a message list, without repetitions, in order of first
/// appearance.
pub fn distinct_in_order(names: &Vec<String>) -> (r: Vec<String>)
    ensures
        string_views(r@) == first_seen(string_views(names@), names@.len() as int),
{
    let ghost sv = string_views(names@);
    let mut out: Vec<String> = Vec::new();
    let mut i: usize = 0;
    while i < names.len()
        invariant
            i <= names@.len(),
            sv == string_views(names@),
            string_views(out@) == first_seen(sv, i as int),
        decreases names.len() - i,
    {
        let mut found = false;
        let mut j: usize = 0;
        while j < out.len()
            invariant
                i < names@.len(),
                j <= out@.len(),
                found == exists|k: int| 0 <= k < j && out@[k]@ == names@[i as int]@,
            decreases out.len() - j,
        {
            if out[j] == names[i] {
                found = true;
            }
            j += 1;
        }
        proof {
            let acc = string_views(out@);
            if found {
                let k = choose|k: int| 0 <= k < out@.len() && out@[k]@ == names@[i as int]@;
                assert(acc[k] == sv[i as int]);
            } else {
                assert forall|k: int| 0 <= k < acc.len() implies acc[k] != sv[i as int] by {}
            }
        }
        if !found {
            out.push(names[i].clone());
            assert(string_views(out@) =~= first_seen(sv, i as int).push(sv[i as int]));
        }
        i += 1;
    }
    out
}

/// Fingerprint of a chat: its authors sorted, joined by `'|'`, lowercased.
pub open spec fn fingerprint(participants: Seq<Seq<char>>) -> Seq<char> {
    lowercase(join(participants.sort_by(lex_order()), seq!['|']))
}

/// Stable fingerprint of a chat, independent of the file name (which varies
/// between exports of the same chat): a re-import of the same chat lands in
/// the same conversation, where duplicate detection can do its job.
pub fn chat_fingerprint(participants: &Vec<String>) -> (r: String)
    ensures
        r@ == fingerprint(string_views(participants@)),
{
    let mut parts: Vec<Vec<char>> = Vec::new();
    let mut i: usize = 0;
    while i < participants.len()
        invariant
            i <= participants@.len(),
            views(parts@) == string_views(participants@).take(i as int),
        decreases participants.len() - i,
    {
        let c = chars_of(participants[i].as_str());
        let ghost prev = views(parts@);
        parts.push(c);
        assert(views(parts@) =~= prev.push(participants@[i as int]@));
        assert(string_views(participants@).take(i + 1) =~= string_views(participants@).take(
            i as int,
        ).push(participants@[i as int]@));
        i += 1;
    }
    assert(views(parts@) =~= string_views(participants@));
    let sorted = sort_strings(parts);
    let bar = lit("|");
    proof {
        reveal_strlit("|");
    }
    assert(bar@ =~= seq!['|']);
    let joined = join_vec(&sorted, &bar);
    assert(sorted@.map_values(|v: Vec<char>| v@) == views(sorted@));
    let s = string_of(&joined);
    to_lowercase(s.as_str())
}

/// Law: the fingerprint depends only on who took part, not on the order in
/// which they first spoke.
pub proof fn law_fingerprint_ignores_order(p: Seq<Seq<char>>, q: Seq<Seq<char>>)
    requires
        p.to_multiset() == q.to_multiset(),
    ensures
        fingerprint(p) == fingerprint(q),
{
    crate::text::lemma_lex_total_ordering();
    p.lemma_sort_by_ensures(lex_order());
    q.lemma_sort_by_ensures(lex_order());
    vstd::seq_lib::lemma_sorted_unique(p.sort_by(lex_order()), q.sort_by(lex_order()), lex_order());
}

// ---------------------------------------------------------------------------
// Timestamps found in exports
// ---------------------------------------------------------------------------

/// What `chrono::DateTime::parse_from_rfc3339(s)` followed by `to_rfc3339`
/// gives: the timestamp in canonical RFC 3339 form, or `None` if `s` is not
/// RFC 3339.
pub uninterp spec fn rfc3339_reparsed(s: Seq<char>) -> Option<Seq<char>>;

/// What `chrono::NaiveDateTime::parse_from_str(s, fmt)` followed by
/// `and_utc().to_rfc3339()` gives, or `None` when `s` does not match `fmt`.
pub uninterp spec fn naive_parsed_utc(s: Seq<char>, fmt: Seq<char>) -> Option<Seq<char>>;

/// Calls `chrono::DateTime::parse_from_rfc3339` and renders the result with
/// `to_rfc3339`; the result is `rfc3339_reparsed` of the argument.
#[verifier::external_body]
fn reparse_rfc3339(s: &str) -> (r: Option<String>)
    ensures
        r is Some <==> rfc3339_reparsed(s@) is Some,
        r matches Some(t) ==> rfc3339_reparsed(s@) == Some(t@),
{
    chrono::DateTime::parse_from_rfc3339(s).ok().map(|dt| dt.to_rfc3339())
}

/// Calls `chrono::NaiveDateTime::parse_from_str(s, fmt)`, reads the result as
/// UTC and renders it with `to_rfc3339`; the result is `naive_parsed_utc` of
/// the arguments.
#[verifier::external_body]
fn parse_naive_utc(s: &str, fmt: &str) -> (r: Option<String>)
    ensures
        r is Some <==> naive_parsed_utc(s@, fmt@) is Some,
        r matches Some(t) ==> naive_parsed_utc(s@, fmt@) == Some(t@),
{
    chrono::NaiveDateTime::parse_from_str(s, fmt).ok().map(|dt| dt.and_utc().to_rfc3339())
}

/// Calls `chrono::Utc::now()` and renders it with `to_rfc3339`. The current
/// time is not a function of anything the library holds: nothing is stated.
#[verifier::external_body]
pub(crate) fn now_rfc3339() -> (r: String) {
    chrono::Utc::now().to_rfc3339()
}

/// Old Discord exports: `"MM/DD/YYYY HH:MM AM/PM"`.
pub open spec fn discord_format() -> Seq<char> {
    "%m/%d/%Y %I:%M %p"@
}

/// Reddit exports: `"YYYY-MM-DD HH:MM:SS"` (followed by `" UTC"` in the file).
pub open spec fn plain_format() -> Seq<char> {
    "%Y-%m-%d %H:%M:%S"@
}

/// The timestamp an export cell denotes, tried in order: RFC 3339, the old
/// Discord layout, the Reddit layout with a `"UTC"` suffix, the Reddit layout
/// alone. `None` when no layout matches.
pub open spec fn normalized(raw: Seq<char>) -> Option<Seq<char>> {
    let t = trim(raw);
    if let Some(x) = rfc3339_reparsed(t) {
        Some(x)
    } else if let Some(x) = naive_parsed_utc(t, discord_format()) {
        Some(x)
    } else if let Some(x) = match strip_suffix(t, seq!['U', 'T', 'C']) {
        Some(stripped) => naive_parsed_utc(trim(stripped), plain_format()),
        None => None,
    } {
        Some(x)
    } else {
        naive_parsed_utc(t, plain_format())
    }
}

/// The timestamp an export cell denotes in RFC 3339 (see `normalized`), or
/// `fallback` when no layout matches.
pub fn normalize_timestamp_or(raw: &str, fallback: &str) -> (r: String)
    ensures
        r@ == match normalized(raw@) {
            Some(x) => x,
            None => fallback@,
        },
{
    let tv = trim_vec(&chars_of(raw));
    let t = string_of(&tv);
    if let Some(x) = reparse_rfc3339(t.as_str()) {
        return x;
    }
    if let Some(x) = parse_naive_utc(t.as_str(), "%m/%d/%Y %I:%M %p") {
        return x;
    }
    let utc = lit("UTC");
    proof {
        reveal_strlit("UTC");
    }
    assert(utc@ =~= seq!['U', 'T', 'C']);
    if let Some(stripped) = strip_suffix_vec(&tv, &utc) {
        let st = string_of(&trim_vec(&stripped));
        if let Some(x) = parse_naive_utc(st.as_str(), "%Y-%m-%d %H:%M:%S") {
            return x;
        }
    }
    if let Some(x) = parse_naive_utc(t.as_str(), "%Y-%m-%d %H:%M:%S") {
        return x;
    }
    fallback.to_owned()
}

/// Parses a timestamp in one of the common export layouts (Discord, Reddit)
/// into RFC 3339; if none matches it falls back to the current time instead
/// of failing the whole import over one row with an odd date.
pub fn normalize_timestamp(raw: &str) -> (r: String)
    ensures
        normalized(raw@) matches Some(x) ==> r@ == x,
{
    let now = now_rfc3339();
    normalize_timestamp_or(raw, now.as_str())
}

} // verus!
