//! The whole analysis: from a text and a dictionary to the report.

use crate::dictionary::{entries_of, Kanji};
use crate::frequency::{
    char_counts, descending, first_seen, lemma_first_seen_contains,
    lemma_first_seen_no_duplicates, lemma_occurrences_bounded, lemma_sorted_by_count,
    lemma_stable_sort_permutes, occurrences, sort_by_frequency, sorted_by_count, tally, Count,
};
use crate::han::{counts_han, han_only, is_han, HanMatcher};
use crate::report::{entries_of_refs, matched, merge, unmatched, Report};
use vstd::prelude::*;

verus! {

/// The Han ideographs of `text` with the number of times each occurs, most
/// frequent first; those that occur equally often in the order in which
/// they first occur.
pub open spec fn kanji_by_frequency(text: Seq<char>) -> Seq<Count> {
    sorted_by_count(han_only(char_counts(text)))
}

/// Counts the Han ideographs of `text` and orders them by frequency.
pub fn kanji_frequencies(matcher: &HanMatcher, text: &str) -> (r: Vec<Count>)
    ensures
        r@ == kanji_by_frequency(text@),
{
    let counts = tally(text);
    let mut kanji = matcher.keep_han(&counts);
    sort_by_frequency(&mut kanji);
    kanji
}

/// Analyses `text` against `dict` with a matcher that is at hand.
pub fn analyze_with<'a>(matcher: &HanMatcher, text: &str, dict: &'a Vec<Kanji>) -> (r: Report<'a>)
    ensures
        entries_of_refs(r.matched@) == matched(kanji_by_frequency(text@), entries_of(dict@)),
        r.unmatched@ == unmatched(kanji_by_frequency(text@), entries_of(dict@)),
{
    let kanji = kanji_frequencies(matcher, text);
    merge(&kanji, dict)
}

/// Analyses `text` against `dict`. A report is always given.
pub fn analyze<'a>(text: &str, dict: &'a Vec<Kanji>) -> (r: Option<Report<'a>>)
    ensures
        r is Some,
        r matches Some(report) ==> {
            &&& entries_of_refs(report.matched@) == matched(
                kanji_by_frequency(text@),
                entries_of(dict@),
            )
            &&& report.unmatched@ == unmatched(kanji_by_frequency(text@), entries_of(dict@))
        },
{
    match HanMatcher::new() {
        Some(matcher) => Some(analyze_with(&matcher, text, dict)),
        None => None,
    }
}

/// What is kept of a sequence without duplicates has none.
proof fn lemma_filter_no_duplicates(s: Seq<Count>, pred: spec_fn(Count) -> bool)
    requires
        s.no_duplicates(),
    ensures
        s.filter(pred).no_duplicates(),
    decreases s.len(),
{
    if s.len() == 0 {
        s.lemma_filter_len(pred);
    } else {
        let shorter = s.drop_last();
        let e = s.last();
        assert(shorter.push(e) =~= s);
        shorter.lemma_filter_push(e, pred);
        lemma_filter_no_duplicates(shorter, pred);
        if pred(e) {
            // The last entry is not among those kept before it: it would
            // stand twice in `s`.
            let kept = shorter.filter(pred);
            if kept.contains(e) {
                shorter.lemma_filter_contains_rev(pred, e);
            }
            assert(!kept.contains(e));
        }
    }
}

/// What the analysis counts: the list is in descending order of count; it
/// holds each Han ideograph that occurs in the text, once, with the number
/// of times it occurs; and it holds nothing else.
pub proof fn lemma_kanji_by_frequency(text: Seq<char>)
    requires
        text.len() <= u64::MAX,
    ensures
        descending(kanji_by_frequency(text)),
        forall|i: int|
            0 <= i < kanji_by_frequency(text).len() ==> {
                let e = #[trigger] kanji_by_frequency(text)[i];
                is_han(e.0) && e.1 > 0 && e.1 == occurrences(text, e.0)
            },
        forall|i: int, j: int|
            0 <= i < j < kanji_by_frequency(text).len() ==> kanji_by_frequency(text)[i].0
                != kanji_by_frequency(text)[j].0,
        forall|c: char|
            is_han(c) && occurrences(text, c) > 0 ==> exists|i: int|
                0 <= i < kanji_by_frequency(text).len() && kanji_by_frequency(text)[i].0 == c,
{
    broadcast use vstd::multiset::group_multiset_axioms;

    let seen = first_seen(text);
    let all = char_counts(text);
    let han = han_only(all);
    let r = kanji_by_frequency(text);
    // `r` holds what `han` holds, in another order.
    lemma_sorted_by_count(han);
    lemma_stable_sort_permutes(r, han);
    // No entry stands twice in `all`, so none does in `han`, so none in `r`.
    lemma_first_seen_no_duplicates(text);
    lemma_filter_no_duplicates(all, counts_han());
    han.lemma_multiset_has_no_duplicates();
    r.lemma_multiset_has_no_duplicates_conv();
    assert forall|i: int| 0 <= i < r.len() implies {
        let e = #[trigger] r[i];
        is_han(e.0) && e.1 > 0 && e.1 == occurrences(text, e.0)
    } by {
        // An entry of `r` is one of `han`, so one of `all` that was kept.
        let e = r[i];
        vstd::seq_lib::to_multiset_contains(r, e);
        vstd::seq_lib::to_multiset_contains(han, e);
        let k = choose|k: int| 0 <= k < han.len() && han[k] == e;
        all.lemma_filter_pred(counts_han(), k);
        all.lemma_filter_contains_rev(counts_han(), e);
        let m = choose|m: int| 0 <= m < all.len() && all[m] == e;
        lemma_first_seen_contains(text, seen[m]);
        lemma_occurrences_bounded(text, seen[m]);
    }
    assert forall|i: int, j: int| 0 <= i < j < r.len() implies r[i].0 != r[j].0 by {
        // Two entries of one character would have one count, and `r` holds
        // no entry twice.
        if r[i].0 == r[j].0 {
            assert(r[i] == r[j]);
        }
    }
    assert forall|c: char| is_han(c) && occurrences(text, c) > 0 implies exists|i: int|
        0 <= i < r.len() && r[i].0 == c by {
        // The entry of `c` in `all` is kept in `han`, so `r` holds it.
        lemma_first_seen_contains(text, c);
        let m = choose|m: int| 0 <= m < seen.len() && seen[m] == c;
        let e = all[m];
        all.lemma_filter_contains(counts_han(), m);
        vstd::seq_lib::to_multiset_contains(han, e);
        vstd::seq_lib::to_multiset_contains(r, e);
        let i = choose|i: int| 0 <= i < r.len() && r[i] == e;
        assert(r[i].0 == c);
    }
}

} // verus!
