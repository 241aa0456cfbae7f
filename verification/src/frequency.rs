//! How often each character occurs in a text, and the order by frequency.

use crate::text::chars_of;
use vstd::prelude::*;

verus! {

/// One character with the number of times it occurs.
pub type Count = (char, u64);

/// How often `c` occurs in `text`.
pub open spec fn occurrences(text: Seq<char>, c: char) -> nat {
    text.to_multiset().count(c)
}

/// The characters of `text`, each once, in the order in which they first
/// occur.
pub open spec fn first_seen(text: Seq<char>) -> Seq<char>
    decreases text.len(),
{
    if text.len() == 0 {
        Seq::empty()
    } else {
        let before = first_seen(text.drop_last());
        if before.contains(text.last()) {
            before
        } else {
            before.push(text.last())
        }
    }
}

/// Each character of `text` with the number of times it occurs, in the order
/// in which the characters first occur.
pub open spec fn char_counts(text: Seq<char>) -> Seq<Count> {
    first_seen(text).map_values(|c: char| (c, occurrences(text, c) as u64))
}

/// One more character raises its own number by one and no other.
pub proof fn lemma_occurrences_push(text: Seq<char>, c: char, x: char)
    ensures
        occurrences(text.push(c), x) == occurrences(text, x) + if x == c {
            1nat
        } else {
            0nat
        },
{
    broadcast use vstd::multiset::group_multiset_axioms;

    vstd::seq_lib::to_multiset_build(text, c);
}

/// No character occurs more often than the text is long.
pub proof fn lemma_occurrences_bounded(text: Seq<char>, c: char)
    ensures
        occurrences(text, c) <= text.len(),
{
    broadcast use vstd::multiset::group_multiset_axioms;

    vstd::seq_lib::to_multiset_len(text);
}

/// The characters first seen are the characters that occur.
pub proof fn lemma_first_seen_contains(text: Seq<char>, c: char)
    ensures
        first_seen(text).contains(c) <==> occurrences(text, c) > 0,
    decreases text.len(),
{
    if text.len() == 0 {
        lemma_occurrences_bounded(text, c);
    } else {
        let before = text.drop_last();
        lemma_first_seen_contains(before, c);
        lemma_first_seen_contains(before, text.last());
        assert(text =~= before.push(text.last()));
        lemma_occurrences_push(before, text.last(), c);
        let seen = first_seen(before);
        if !seen.contains(text.last()) {
            assert(seen.push(text.last())[seen.len() as int] == text.last());
            if seen.contains(c) {
                let k = choose|k: int| 0 <= k < seen.len() && seen[k] == c;
                assert(seen.push(text.last())[k] == c);
            }
        }
    }
}

/// No character is first seen twice.
pub proof fn lemma_first_seen_no_duplicates(text: Seq<char>)
    ensures
        first_seen(text).no_duplicates(),
    decreases text.len(),
{
    if text.len() > 0 {
        lemma_first_seen_no_duplicates(text.drop_last());
    }
}

/// Counts the characters of `text`.
pub fn tally(text: &str) -> (r: Vec<Count>)
    ensures
        r@ == char_counts(text@),
{
    let chars = chars_of(text);
    let mut counts: Vec<Count> = Vec::new();
    let mut i: usize = 0;
    while i < chars.len()
        invariant
            i <= chars.len(),
            chars@ == text@,
            counts@ == char_counts(chars@.take(i as int)),
        decreases chars.len() - i,
    {
        let c = chars[i];
        let ghost before = chars@.take(i as int);
        let ghost after = chars@.take(i + 1);
        let ghost seen = first_seen(before);
        proof {
            assert(after =~= before.push(c));
            assert(after.drop_last() =~= before);
            assert forall|x: char|
                occurrences(after, x) == occurrences(before, x) + if x == c {
                    1nat
                } else {
                    0nat
                } && occurrences(before, x) <= i by {
                lemma_occurrences_push(before, c, x);
                lemma_occurrences_bounded(before, x);
            }
        }
        let mut found = false;
        let mut j: usize = 0;
        while j < counts.len()
            invariant
                j <= counts.len(),
                i < chars.len(),
                counts.len() == seen.len(),
                forall|x: char|
                    occurrences(after, x) == occurrences(before, x) + if x == c {
                        1nat
                    } else {
                        0nat
                    } && occurrences(before, x) <= i,
                forall|k: int|
                    0 <= k < j ==> counts@[k] == (seen[k], occurrences(after, seen[k]) as u64),
                forall|k: int|
                    j <= k < counts.len() ==> counts@[k] == (
                        seen[k],
                        occurrences(before, seen[k]) as u64,
                    ),
                found == exists|k: int| 0 <= k < j && seen[k] == c,
            decreases counts.len() - j,
        {
            if counts[j].0 == c {
                let n: u64 = counts[j].1;
                counts.set(j, (c, n + 1));
                found = true;
            }
            j += 1;
        }
        proof {
            lemma_first_seen_contains(before, c);
        }
        if !found {
            counts.push((c, 1));
        }
        i += 1;
    }
    assert(chars@.take(chars.len() as int) =~= chars@);
    counts
}

/// The counts do not grow along `r`.
pub open spec fn descending(r: Seq<Count>) -> bool {
    forall|i: int, j: int| 0 <= i < j < r.len() ==> r[i].1 >= r[j].1
}

/// Holds of the entries whose count is `n`.
pub open spec fn has_count(n: u64) -> spec_fn(Count) -> bool {
    |e: Count| e.1 == n
}

/// The entries of `s` whose count is `n`, in the order they have in `s`.
pub open spec fn with_count(s: Seq<Count>, n: u64) -> Seq<Count> {
    s.filter(has_count(n))
}

/// `r` holds the entries of `s` by descending count, and entries of one count
/// in the order they have in `s`.
pub open spec fn is_stable_sort_of(r: Seq<Count>, s: Seq<Count>) -> bool {
    &&& descending(r)
    &&& forall|n: u64| with_count(r, n) == with_count(s, n)
}

/// The entries of `s` by descending count, entries of one count in the order
/// they have in `s`.
pub open spec fn sorted_by_count(s: Seq<Count>) -> Seq<Count> {
    choose|r: Seq<Count>| is_stable_sort_of(r, s)
}

/// Where no entry has the count `n`, none is kept.
proof fn lemma_with_count_none(s: Seq<Count>, n: u64)
    requires
        forall|k: int| 0 <= k < s.len() ==> s[k].1 != n,
    ensures
        with_count(s, n) == Seq::<Count>::empty(),
    decreases s.len(),
{
    if s.len() == 0 {
        s.lemma_filter_len(has_count(n));
    } else {
        lemma_with_count_none(s.drop_last(), n);
        s.drop_last().lemma_filter_push(s.last(), has_count(n));
        assert(s.drop_last().push(s.last()) =~= s);
    }
}

/// The entries of one count in a sequence that begins with `e`.
proof fn lemma_with_count_first(s: Seq<Count>, n: u64)
    requires
        s.len() > 0,
    ensures
        with_count(s, n) == (if s[0].1 == n {
            seq![s[0]]
        } else {
            Seq::<Count>::empty()
        }) + with_count(s.drop_first(), n),
{
    s.drop_first().lemma_filter_prepend(s[0], has_count(n));
    assert(seq![s[0]] + s.drop_first() =~= s);
}

/// An entry put behind the entries that count no less, and before those
/// that count less, keeps the order.
pub proof fn lemma_insert_keeps_order(r: Seq<Count>, s: Seq<Count>, e: Count, p: int)
    requires
        is_stable_sort_of(r, s),
        0 <= p <= r.len(),
        forall|k: int| 0 <= k < p ==> r[k].1 >= e.1,
        forall|k: int| p <= k < r.len() ==> r[k].1 < e.1,
    ensures
        is_stable_sort_of(r.insert(p, e), s.push(e)),
{
    let r2 = r.insert(p, e);
    assert(descending(r2)) by {
        assert forall|i: int, j: int| 0 <= i < j < r2.len() implies r2[i].1 >= r2[j].1 by {
            // Every entry of `r2` but `e` is an entry of `r`, one place on
            // where it stands behind `e`.
            let i0 = if i < p {
                i
            } else {
                i - 1
            };
            let j0 = if j < p {
                j
            } else {
                j - 1
            };
            if i != p && j != p {
                assert(r[i0].1 >= r[j0].1);
            }
        }
    }
    assert forall|n: u64| with_count(r2, n) == with_count(s.push(e), n) by {
        let pred = has_count(n);
        let head = r.take(p);
        let tail = r.skip(p);
        assert(r =~= head + tail);
        assert(r2 =~= head.push(e) + tail);
        Seq::filter_distributes_over_add(head, tail, pred);
        Seq::filter_distributes_over_add(head.push(e), tail, pred);
        head.lemma_filter_push(e, pred);
        s.lemma_filter_push(e, pred);
        assert(with_count(r, n) == with_count(s, n));
        if e.1 == n {
            // No entry behind `e` has its count.
            lemma_with_count_none(tail, n);
        }
    }
}

/// Two descending sequences that hold the same entries of each count, in
/// the same order, are one sequence.
pub proof fn lemma_groups_determine_order(a: Seq<Count>, b: Seq<Count>)
    requires
        descending(a),
        descending(b),
        forall|n: u64| with_count(a, n) == with_count(b, n),
    ensures
        a == b,
    decreases a.len(),
{
    if a.len() == 0 {
        if b.len() > 0 {
            // The first entry of `b` would stand among those of its count.
            let m = b[0].1;
            lemma_with_count_first(b, m);
            a.lemma_filter_len(has_count(m));
        }
    } else {
        // The first entry of `a` is the first of its count `m`, in `b` too,
        // so `b` is not empty and holds an entry of count `m`.
        let m = a[0].1;
        lemma_with_count_first(a, m);
        b.lemma_filter_len(has_count(m));
        assert(with_count(b, m)[0] == a[0]);
        b.lemma_filter_contains_rev(has_count(m), a[0]);
        // In the same way `a` holds an entry of the count `m2` of the first
        // entry of `b`. Both being descending, `m` and `m2` are equal, and
        // so are the two first entries.
        let m2 = b[0].1;
        lemma_with_count_first(b, m2);
        assert(with_count(a, m2)[0] == b[0]);
        a.lemma_filter_contains_rev(has_count(m2), b[0]);
        assert(a[0] == b[0]);
        // What follows the first entries is descending and holds the same
        // entries of each count.
        let a1 = a.drop_first();
        let b1 = b.drop_first();
        assert forall|n: u64| with_count(a1, n) == with_count(b1, n) by {
            lemma_with_count_first(a, n);
            lemma_with_count_first(b, n);
            let front = if a[0].1 == n {
                seq![a[0]]
            } else {
                Seq::<Count>::empty()
            };
            let x = with_count(a1, n);
            let y = with_count(b1, n);
            assert(front + x == front + y);
            assert forall|i: int| 0 <= i < x.len() implies x[i] == y[i] by {
                assert((front + x)[front.len() + i] == (front + y)[front.len() + i]);
            }
            assert(x =~= y);
        }
        lemma_groups_determine_order(a1, b1);
        assert(a =~= seq![a[0]] + a1);
        assert(b =~= seq![b[0]] + b1);
    }
}

/// A sequence has one stable descending order.
pub proof fn lemma_stable_sort_unique(a: Seq<Count>, b: Seq<Count>, s: Seq<Count>)
    requires
        is_stable_sort_of(a, s),
        is_stable_sort_of(b, s),
    ensures
        a == b,
{
    lemma_groups_determine_order(a, b);
}

/// Where the entries that count no less than `e` end in a descending
/// sequence.
proof fn insertion_point(r: Seq<Count>, e: Count) -> (p: int)
    requires
        descending(r),
    ensures
        0 <= p <= r.len(),
        forall|k: int| 0 <= k < p ==> r[k].1 >= e.1,
        forall|k: int| p <= k < r.len() ==> r[k].1 < e.1,
    decreases r.len(),
{
    if r.len() == 0 {
        0
    } else if r.last().1 >= e.1 {
        r.len() as int
    } else {
        let shorter = r.drop_last();
        let p = insertion_point(shorter, e);
        assert forall|k: int| 0 <= k < r.len() implies (k < p ==> r[k].1 >= e.1) && (p <= k
            ==> r[k].1 < e.1) by {
            if k < shorter.len() {
                assert(shorter[k] == r[k]);
            }
        }
        p
    }
}

/// A stable descending order of `s`.
proof fn stable_order(s: Seq<Count>) -> (r: Seq<Count>)
    ensures
        is_stable_sort_of(r, s),
    decreases s.len(),
{
    if s.len() == 0 {
        s
    } else {
        let shorter = stable_order(s.drop_last());
        let p = insertion_point(shorter, s.last());
        lemma_insert_keeps_order(shorter, s.drop_last(), s.last(), p);
        assert(s.drop_last().push(s.last()) =~= s);
        shorter.insert(p, s.last())
    }
}

/// Every sequence has a stable descending order, and `sorted_by_count` is it.
pub proof fn lemma_sorted_by_count(s: Seq<Count>)
    ensures
        is_stable_sort_of(sorted_by_count(s), s),
{
    let witness = stable_order(s);
    assert(is_stable_sort_of(witness, s));
}

/// An entry occurs as often among the entries of its count as in the whole
/// sequence.
proof fn lemma_with_count_keeps(s: Seq<Count>, x: Count)
    ensures
        with_count(s, x.1).to_multiset().count(x) == s.to_multiset().count(x),
    decreases s.len(),
{
    broadcast use vstd::multiset::group_multiset_axioms;

    if s.len() == 0 {
        s.lemma_filter_len(has_count(x.1));
        assert(with_count(s, x.1) =~= s);
    } else {
        let shorter = s.drop_last();
        let e = s.last();
        lemma_with_count_keeps(shorter, x);
        assert(shorter.push(e) =~= s);
        shorter.lemma_filter_push(e, has_count(x.1));
        vstd::seq_lib::to_multiset_build(shorter, e);
        vstd::seq_lib::to_multiset_build(with_count(shorter, x.1), e);
    }
}

/// A stable descending order of a sequence holds each entry as often as the
/// sequence does.
pub proof fn lemma_stable_sort_permutes(r: Seq<Count>, s: Seq<Count>)
    requires
        is_stable_sort_of(r, s),
    ensures
        r.to_multiset() == s.to_multiset(),
        r.len() == s.len(),
{
    assert forall|x: Count| r.to_multiset().count(x) == s.to_multiset().count(x) by {
        lemma_with_count_keeps(r, x);
        lemma_with_count_keeps(s, x);
    }
    vstd::seq_lib::to_multiset_len(r);
    vstd::seq_lib::to_multiset_len(s);
}

/// Puts `counts` in descending order of count. Entries of one count keep the
/// order they had.
pub fn sort_by_frequency(counts: &mut Vec<Count>)
    ensures
        final(counts)@ == sorted_by_count(old(counts)@),
        is_stable_sort_of(final(counts)@, old(counts)@),
        final(counts)@.to_multiset() == old(counts)@.to_multiset(),
        final(counts).len() == old(counts).len(),
{
    let mut out: Vec<Count> = Vec::new();
    let mut i: usize = 0;
    assert(counts@.take(0) =~= out@);
    while i < counts.len()
        invariant
            i <= counts.len(),
            counts@ == old(counts)@,
            is_stable_sort_of(out@, counts@.take(i as int)),
        decreases counts.len() - i,
    {
        let e: Count = counts[i];
        let mut p: usize = 0;
        while p < out.len() && out[p].1 >= e.1
            invariant
                p <= out.len(),
                forall|k: int| 0 <= k < p ==> out@[k].1 >= e.1,
            decreases out.len() - p,
        {
            p += 1;
        }
        proof {
            lemma_insert_keeps_order(out@, counts@.take(i as int), e, p as int);
            assert(counts@.take(i as int).push(e) =~= counts@.take(i + 1));
        }
        out.insert(p, e);
        i += 1;
    }
    proof {
        assert(counts@.take(counts.len() as int) =~= counts@);
        lemma_sorted_by_count(counts@);
        lemma_stable_sort_unique(out@, sorted_by_count(counts@), counts@);
        lemma_stable_sort_permutes(out@, counts@);
    }
    *counts = out;
}

} // verus!
