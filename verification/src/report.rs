//! The report: the dictionary entries of the characters that were found, as
//! lines for a flashcard tool, and the characters that the dictionary lacks.

use crate::dictionary::{entries_of, Entry, Kanji};
use crate::frequency::Count;
use vstd::prelude::*;

verus! {

/// Stands between the fields of a card.
pub const FIELD_SEPARATOR: &'static str = "; ";

/// Ends a card.
pub const LINE_END: &'static str = "\n";

/// Stands above the characters that the dictionary lacks.
pub const UNMATCHED_HEADING: &'static str = "These kanjis were not found in the dictionary:";

/// Holds of the entries whose `kanji` field holds `c`.
pub open spec fn listing(c: char) -> spec_fn(Entry) -> bool {
    |e: Entry| e.kanji.contains(c)
}

/// The entries of `dict` for the character `c`, in the order of `dict`.
pub open spec fn entries_for(dict: Seq<Entry>, c: char) -> Seq<Entry> {
    dict.filter(listing(c))
}

/// For each character of `counts`, in order, its entries in `dict`.
pub open spec fn entry_groups(counts: Seq<Count>, dict: Seq<Entry>) -> Seq<Seq<Entry>> {
    counts.map_values(|e: Count| entries_for(dict, e.0))
}

/// The entries of `dict` for the characters of `counts`: character by
/// character in the order of `counts`, and for one character in the order of
/// `dict`.
pub open spec fn matched(counts: Seq<Count>, dict: Seq<Entry>) -> Seq<Entry> {
    entry_groups(counts, dict).flatten()
}

/// Holds of the counts whose character has no entry in `dict`.
pub open spec fn is_missing(dict: Seq<Entry>) -> spec_fn(Count) -> bool {
    |e: Count| entries_for(dict, e.0).len() == 0
}

/// The counts whose character has no entry in `dict`, in the order of
/// `counts`.
pub open spec fn unmatched(counts: Seq<Count>, dict: Seq<Entry>) -> Seq<Count> {
    counts.filter(is_missing(dict))
}

/// What a list of borrowed entries holds.
pub open spec fn entries_of_refs(v: Seq<&Kanji>) -> Seq<Entry> {
    v.map_values(|k: &Kanji| k@)
}

/// The outcome of joining counted characters with the dictionary.
pub struct Report<'a> {
    /// The entries that were found, most frequent character first.
    pub matched: Vec<&'a Kanji>,
    /// The counted characters without an entry, most frequent first.
    pub unmatched: Vec<Count>,
}

/// Whether `c` is one of the characters of `s`.
pub fn has_char(s: &str, c: char) -> (b: bool)
    ensures
        b == s@.contains(c),
{
    let mut found = false;
    for ch in it: s.chars()
        invariant
            it.seq() == s@,
            found == s@.take(it.index() as int).contains(c),
    {
        let ghost i = it.index() as int;
        proof {
            // What holds `c` among the first `i` characters holds it among
            // the first `i + 1`, at the same place.
            if s@.take(i).contains(c) {
                let k = choose|k: int| 0 <= k < i && s@.take(i)[k] == c;
                assert(s@.take(i + 1)[k] == c);
            }
            if ch == c {
                assert(s@.take(i + 1)[i] == c);
            }
        }
        if ch == c {
            found = true;
        }
    }
    assert(s@.take(s@.len() as int) =~= s@);
    found
}

/// Joins counted characters with the dictionary.
pub fn merge<'a>(counts: &Vec<Count>, dict: &'a Vec<Kanji>) -> (r: Report<'a>)
    ensures
        entries_of_refs(r.matched@) == matched(counts@, entries_of(dict@)),
        r.unmatched@ == unmatched(counts@, entries_of(dict@)),
{
    let ghost d = entries_of(dict@);
    let mut hits: Vec<&'a Kanji> = Vec::new();
    let mut misses: Vec<Count> = Vec::new();
    let mut i: usize = 0;
    proof {
        Seq::<Count>::empty().lemma_filter_len(is_missing(d));
        assert(counts@.take(0) =~= Seq::<Count>::empty());
    }
    while i < counts.len()
        invariant
            i <= counts.len(),
            d == entries_of(dict@),
            entries_of_refs(hits@) == matched(counts@.take(i as int), d),
            misses@ == unmatched(counts@.take(i as int), d),
        decreases counts.len() - i,
    {
        let e: Count = counts[i];
        let ghost before = entries_of_refs(hits@);
        let mut found = false;
        let mut j: usize = 0;
        proof {
            Seq::<Entry>::empty().lemma_filter_len(listing(e.0));
            assert(d.take(0) =~= Seq::<Entry>::empty());
        }
        while j < dict.len()
            invariant
                j <= dict.len(),
                d == entries_of(dict@),
                entries_of_refs(hits@) == before + entries_for(d.take(j as int), e.0),
                found == (entries_for(d.take(j as int), e.0).len() > 0),
            decreases dict.len() - j,
        {
            let ghost group = entries_for(d.take(j as int), e.0);
            proof {
                d.take(j as int).lemma_filter_push(d[j as int], listing(e.0));
                assert(d.take(j as int).push(d[j as int]) =~= d.take(j + 1));
            }
            if has_char(dict[j].kanji.as_str(), e.0) {
                hits.push(&dict[j]);
                found = true;
                assert((before + group).push(d[j as int]) =~= before + group.push(d[j as int]));
            }
            j += 1;
        }
        proof {
            assert(d.take(dict.len() as int) =~= d);
            let shorter = counts@.take(i as int);
            assert(shorter.push(e) =~= counts@.take(i + 1));
            assert(entry_groups(shorter.push(e), d) =~= entry_groups(shorter, d).push(
                entries_for(d, e.0),
            ));
            entry_groups(shorter, d).lemma_flatten_push(entries_for(d, e.0));
            shorter.lemma_filter_push(e, is_missing(d));
        }
        if !found {
            misses.push(e);
        }
        i += 1;
    }
    assert(counts@.take(counts.len() as int) =~= counts@);
    Report { matched: hits, unmatched: misses }
}

/// The card of an entry: the character, its meanings, its Sino-Japanese
/// readings and its native readings, separated, on a line.
pub open spec fn card_line(e: Entry) -> Seq<char> {
    e.kanji + FIELD_SEPARATOR@ + e.meaning + FIELD_SEPARATOR@ + e.onyomi + FIELD_SEPARATOR@
        + e.kunyomi + LINE_END@
}

/// The cards of `entries`, one behind the other.
pub open spec fn cards_text(entries: Seq<Entry>) -> Seq<char> {
    entries.map_values(|e: Entry| card_line(e)).flatten()
}

/// Writes the card of an entry.
pub fn format_card(k: &Kanji) -> (s: String)
    ensures
        s@ == card_line(k@),
{
    let mut s = String::new();
    s.append(k.kanji.as_str());
    s.append(FIELD_SEPARATOR);
    s.append(k.meaning.as_str());
    s.append(FIELD_SEPARATOR);
    s.append(k.onyomi.as_str());
    s.append(FIELD_SEPARATOR);
    s.append(k.kunyomi.as_str());
    s.append(LINE_END);
    s
}

/// Writes the cards of the entries that were found, in order.
pub fn format_cards(matched: &Vec<&Kanji>) -> (s: String)
    ensures
        s@ == cards_text(entries_of_refs(matched@)),
{
    let ghost all = entries_of_refs(matched@);
    let ghost lines = all.map_values(|e: Entry| card_line(e));
    let mut s = String::new();
    let mut i: usize = 0;
    while i < matched.len()
        invariant
            i <= matched.len(),
            all == entries_of_refs(matched@),
            lines == all.map_values(|e: Entry| card_line(e)),
            s@ == lines.take(i as int).flatten(),
        decreases matched.len() - i,
    {
        let card = format_card(matched[i]);
        proof {
            assert(lines.take(i as int).push(lines[i as int]) =~= lines.take(i + 1));
            lines.take(i as int).lemma_flatten_push(lines[i as int]);
        }
        s.append(card.as_str());
        i += 1;
    }
    assert(lines.take(matched.len() as int) =~= lines);
    s
}

/// How `std` writes a character with `{:?}`: between single quotes, escaped
/// where it is not printable.
pub uninterp spec fn char_debug(c: char) -> Seq<char>;

/// `format!` with `{:?}` on a `char`, which goes to the `Debug` impl of
/// `char`: the result is a function of the character alone, and is given
/// the name `char_debug`.
#[verifier::external_body]
fn debug_char(c: char) -> (s: String)
    ensures
        s@ == char_debug(c),
{
    format!("{:?}", c)
}

/// The character that stands for the digit `d`.
pub open spec fn digit(d: nat) -> char {
    ((48 + d) as u8) as char
}

/// `n` in decimal digits, without leading zeros.
pub open spec fn decimal(n: nat) -> Seq<char>
    decreases n,
{
    if n < 10 {
        seq![digit(n)]
    } else {
        decimal(n / 10).push(digit(n % 10))
    }
}

/// What the digit `c` stands for.
pub open spec fn digit_value(c: char) -> int {
    c as u32 - 48
}

/// The number that a sequence of decimal digits stands for.
pub open spec fn decimal_value(s: Seq<char>) -> int
    decreases s.len(),
{
    if s.len() == 0 {
        0
    } else {
        decimal_value(s.drop_last()) * 10 + digit_value(s.last())
    }
}

/// `digit` gives the ten digits their values.
pub proof fn lemma_digit(d: nat)
    requires
        d < 10,
    ensures
        digit_value(digit(d)) == d,
        d == 0 <==> digit(d) == '0',
{
    let byte = (48 + d) as u8;
    assert(byte == 48 + d);
    assert((byte as char) as u32 == byte);
    assert('0' as u32 == 48);
}

/// `decimal` writes a number in digits, the first of them `0` only for the
/// number 0, and the digits stand for the number.
pub proof fn lemma_decimal(n: nat)
    ensures
        decimal(n).len() >= 1,
        forall|i: int|
            0 <= i < decimal(n).len() ==> 0 <= digit_value(#[trigger] decimal(n)[i]) <= 9,
        n > 0 ==> decimal(n)[0] != '0',
        decimal_value(decimal(n)) == n,
    decreases n,
{
    lemma_digit(n % 10);
    if n < 10 {
        assert(decimal(n).drop_last() =~= Seq::<char>::empty());
        assert(decimal_value(Seq::<char>::empty()) == 0);
    } else {
        lemma_decimal(n / 10);
        assert(decimal(n).drop_last() =~= decimal(n / 10));
        assert(decimal(n).last() == digit(n % 10));
    }
}

/// Appends `n` in decimal digits to `out`.
pub fn push_decimal(out: &mut String, n: u64)
    ensures
        final(out)@ == old(out)@ + decimal(n as nat),
    decreases n,
{
    if n >= 10 {
        push_decimal(out, n / 10);
    }
    let d: u8 = (n % 10) as u8;
    out.push((48 + d) as char);
}

/// A quoted character and a count, written as a pair.
pub open spec fn pair_line(quoted: Seq<char>, count: nat) -> Seq<char> {
    "("@ + quoted + ", "@ + decimal(count) + ")"@
}

/// The line of a character that the dictionary lacks: the character as
/// `std` writes it with `{:?}` and its count, as a pair.
pub open spec fn unmatched_line(e: Count) -> Seq<char> {
    pair_line(char_debug(e.0), e.1 as nat)
}

/// Writes a quoted character and a count as a pair.
pub fn format_pair(quoted: &str, count: u64) -> (s: String)
    ensures
        s@ == pair_line(quoted@, count as nat),
{
    let mut s = String::new();
    s.append("(");
    s.append(quoted);
    s.append(", ");
    push_decimal(&mut s, count);
    s.append(")");
    assert(s@ =~= pair_line(quoted@, count as nat));
    s
}

/// Writes the line of a character that the dictionary lacks.
pub fn format_unmatched(e: Count) -> (s: String)
    ensures
        s@ == unmatched_line(e),
{
    let quoted = debug_char(e.0);
    format_pair(quoted.as_str(), e.1)
}

/// What is said of the characters that the dictionary lacks: nothing where
/// there is none, else the heading and a line for each, in order.
pub open spec fn unmatched_notice(unmatched: Seq<Count>) -> Seq<Seq<char>> {
    if unmatched.len() == 0 {
        Seq::empty()
    } else {
        seq![UNMATCHED_HEADING@] + unmatched.map_values(|e: Count| unmatched_line(e))
    }
}

/// What a list of lines holds.
pub open spec fn texts_of(v: Seq<String>) -> Seq<Seq<char>> {
    v.map_values(|s: String| s@)
}

/// Writes what is said of the characters that the dictionary lacks, line by
/// line.
pub fn format_unmatched_notice(unmatched: &Vec<Count>) -> (lines: Vec<String>)
    ensures
        texts_of(lines@) == unmatched_notice(unmatched@),
{
    let mut lines: Vec<String> = Vec::new();
    if unmatched.len() == 0 {
        return lines;
    }
    let ghost body = unmatched@.map_values(|e: Count| unmatched_line(e));
    lines.push(UNMATCHED_HEADING.to_owned());
    let mut i: usize = 0;
    while i < unmatched.len()
        invariant
            i <= unmatched.len(),
            body == unmatched@.map_values(|e: Count| unmatched_line(e)),
            texts_of(lines@) == seq![UNMATCHED_HEADING@] + body.take(i as int),
        decreases unmatched.len() - i,
    {
        let ghost earlier = lines@;
        let line = format_unmatched(unmatched[i]);
        lines.push(line);
        proof {
            assert(texts_of(lines@) =~= texts_of(earlier).push(line@));
        }
        i += 1;
    }
    lines
}

/// One more counted character adds its entries behind those of the others.
pub proof fn lemma_matched_push(counts: Seq<Count>, e: Count, dict: Seq<Entry>)
    ensures
        matched(counts.push(e), dict) == matched(counts, dict) + entries_for(dict, e.0),
{
    assert(entry_groups(counts.push(e), dict) =~= entry_groups(counts, dict).push(
        entries_for(dict, e.0),
    ));
    entry_groups(counts, dict).lemma_flatten_push(entries_for(dict, e.0));
}

/// The entries of `dict` for a character are those that hold it.
pub proof fn lemma_entries_for(dict: Seq<Entry>, c: char, x: Entry)
    ensures
        entries_for(dict, c).contains(x) <==> dict.contains(x) && x.kanji.contains(c),
{
    let found = entries_for(dict, c);
    if found.contains(x) {
        dict.lemma_filter_contains_rev(listing(c), x);
        let k = choose|k: int| 0 <= k < found.len() && found[k] == x;
        dict.lemma_filter_pred(listing(c), k);
    }
    if dict.contains(x) && x.kanji.contains(c) {
        let k = choose|k: int| 0 <= k < dict.len() && dict[k] == x;
        dict.lemma_filter_contains(listing(c), k);
    }
}

/// The matched entries are the entries of the dictionary that hold a
/// counted character.
pub proof fn lemma_matched_are_the_entries_of_counted(
    counts: Seq<Count>,
    dict: Seq<Entry>,
    x: Entry,
)
    ensures
        matched(counts, dict).contains(x) <==> dict.contains(x) && exists|i: int|
            0 <= i < counts.len() && x.kanji.contains(counts[i].0),
    decreases counts.len(),
{
    if counts.len() > 0 {
        let shorter = counts.drop_last();
        let e = counts.last();
        assert(shorter.push(e) =~= counts);
        lemma_matched_push(shorter, e, dict);
        lemma_matched_are_the_entries_of_counted(shorter, dict, x);
        lemma_entries_for(dict, e.0, x);
        let before = matched(shorter, dict);
        let added = entries_for(dict, e.0);
        if matched(counts, dict).contains(x) {
            // `x` stands among the entries of the earlier characters or
            // among those of the last.
            let k = choose|k: int| 0 <= k < (before + added).len() && (before + added)[k] == x;
            if k < before.len() {
                assert(before[k] == x);
                let i = choose|i: int| 0 <= i < shorter.len() && x.kanji.contains(shorter[i].0);
                assert(counts[i] == shorter[i]);
            } else {
                assert(added[k - before.len()] == x);
            }
        }
        if dict.contains(x) && exists|i: int|
            0 <= i < counts.len() && x.kanji.contains(counts[i].0) {
            // `x` holds one of the earlier characters or the last.
            let i = choose|i: int| 0 <= i < counts.len() && x.kanji.contains(counts[i].0);
            if i < shorter.len() {
                assert(shorter[i] == counts[i]);
                let k = choose|k: int| 0 <= k < before.len() && before[k] == x;
                assert((before + added)[k] == x);
            } else {
                let k = choose|k: int| 0 <= k < added.len() && added[k] == x;
                assert((before + added)[before.len() + k] == x);
            }
        }
    }
}

/// The unmatched counts are the counts whose character no entry of the
/// dictionary holds.
pub proof fn lemma_unmatched_are_the_counts_without_entry(
    counts: Seq<Count>,
    dict: Seq<Entry>,
    e: Count,
)
    ensures
        unmatched(counts, dict).contains(e) <==> counts.contains(e) && forall|k: int|
            0 <= k < dict.len() ==> !dict[k].kanji.contains(e.0),
{
    let found = entries_for(dict, e.0);
    let none = unmatched(counts, dict);
    if found.len() > 0 {
        dict.lemma_filter_pred(listing(e.0), 0);
        dict.lemma_filter_contains_rev(listing(e.0), found[0]);
    } else {
        assert forall|k: int| 0 <= k < dict.len() implies !dict[k].kanji.contains(e.0) by {
            if dict[k].kanji.contains(e.0) {
                dict.lemma_filter_contains(listing(e.0), k);
            }
        }
    }
    if none.contains(e) {
        counts.lemma_filter_contains_rev(is_missing(dict), e);
        let k = choose|k: int| 0 <= k < none.len() && none[k] == e;
        counts.lemma_filter_pred(is_missing(dict), k);
    }
    if counts.contains(e) && found.len() == 0 {
        let k = choose|k: int| 0 <= k < counts.len() && counts[k] == e;
        counts.lemma_filter_contains(is_missing(dict), k);
    }
}

} // verus!
