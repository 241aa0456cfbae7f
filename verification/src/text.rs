//! Character sequences: conversion between strings and vectors of `char`,
//! substring search and removal, and UTF-8 byte offsets.

use vstd::prelude::*;
use vstd::utf8::{encode_scalar, encode_utf8};

verus! {

/// `String::push` appends the given character to the end of the string.
pub assume_specification[ String::push ](s: &mut String, ch: char)
    ensures
        final(s)@ == old(s)@.push(ch),
;

/// The characters of `s`, in order.
pub fn chars_of(s: &str) -> (v: Vec<char>)
    ensures
        v@ == s@,
{
    let mut v: Vec<char> = Vec::new();
    for c in it: s.chars()
        invariant
            it.seq() == s@,
            v@ == s@.take(it.index() as int),
    {
        v.push(c);
    }
    v
}

/// The string made of the characters of `v`, in order.
pub fn string_of(v: &Vec<char>) -> (s: String)
    ensures
        s@ == v@,
{
    let mut s = String::new();
    let mut i: usize = 0;
    while i < v.len()
        invariant
            i <= v.len(),
            s@ == v@.take(i as int),
        decreases v.len() - i,
    {
        s.push(v[i]);
        i += 1;
    }
    s
}

/// `pat` stands in `s` at index `i`.
pub open spec fn occurs_at(s: Seq<char>, pat: Seq<char>, i: int) -> bool {
    &&& 0 <= i
    &&& i + pat.len() <= s.len()
    &&& s.subrange(i, i + pat.len()) == pat
}

/// `pat` stands somewhere in `s`. The empty sequence stands in every sequence.
pub open spec fn occurs_in(s: Seq<char>, pat: Seq<char>) -> bool {
    exists|i: int| occurs_at(s, pat, i)
}

/// Whether `pat` stands in `s` at index `i`.
pub fn matches_at(s: &Vec<char>, pat: &Vec<char>, i: usize) -> (b: bool)
    ensures
        b == occurs_at(s@, pat@, i as int),
{
    if i > s.len() || pat.len() > s.len() - i {
        return false;
    }
    let mut j: usize = 0;
    while j < pat.len()
        invariant
            j <= pat.len(),
            i + pat.len() <= s.len(),
            forall|k: int| 0 <= k < j ==> s@[i + k] == pat@[k],
        decreases pat.len() - j,
    {
        if s[i + j] != pat[j] {
            return false;
        }
        j += 1;
    }
    assert(s@.subrange(i as int, i + pat.len()) =~= pat@);
    true
}

/// Whether `pat` stands somewhere in `s`.
pub fn contains(s: &Vec<char>, pat: &Vec<char>) -> (b: bool)
    ensures
        b == occurs_in(s@, pat@),
{
    if pat.len() > s.len() {
        return false;
    }
    let last: usize = s.len() - pat.len();
    let mut i: usize = 0;
    loop
        invariant
            i <= last,
            last == s.len() - pat.len(),
            forall|k: int| 0 <= k < i ==> !occurs_at(s@, pat@, k),
        decreases last - i,
    {
        if matches_at(s, pat, i) {
            return true;
        }
        if i == last {
            return false;
        }
        i += 1;
    }
}

/// `s` with every occurrence of `pat` taken out, found from left to right,
/// each search starting behind the occurrence before it. An empty `pat`
/// takes nothing out.
pub open spec fn without(s: Seq<char>, pat: Seq<char>) -> Seq<char>
    decreases s.len(),
{
    if pat.len() == 0 || s.len() == 0 {
        s
    } else if occurs_at(s, pat, 0) {
        without(s.skip(pat.len() as int), pat)
    } else {
        seq![s[0]] + without(s.skip(1), pat)
    }
}

/// Removes every occurrence of `pat` from `s`.
pub fn remove_all(s: &Vec<char>, pat: &Vec<char>) -> (r: Vec<char>)
    ensures
        r@ == without(s@, pat@),
{
    let mut out: Vec<char> = Vec::new();
    let mut i: usize = 0;
    let skipping: bool = pat.len() > 0;
    assert(s@.skip(0) =~= s@);
    while i < s.len()
        invariant
            i <= s.len(),
            skipping == (pat.len() > 0),
            without(s@, pat@) == out@ + without(s@.skip(i as int), pat@),
        decreases s.len() - i,
    {
        let ghost rest = s@.skip(i as int);
        proof {
            lemma_occurs_at_skip(s@, pat@, i as int, 0);
        }
        if skipping && matches_at(s, pat, i) {
            // `pat` begins what is left: it is passed over.
            assert(rest.skip(pat.len() as int) =~= s@.skip(i + pat.len()));
            i += pat.len();
        } else {
            // The first character of what is left stays.
            proof {
                if skipping {
                    assert(rest.skip(1) =~= s@.skip(i + 1));
                } else {
                    lemma_without_empty_pattern(rest, pat@);
                    lemma_without_empty_pattern(s@.skip(i + 1), pat@);
                }
            }
            out.push(s[i]);
            i += 1;
        }
    }
    out
}

/// Taking out the empty sequence leaves a sequence as it is.
pub proof fn lemma_without_empty_pattern(s: Seq<char>, pat: Seq<char>)
    requires
        pat.len() == 0,
    ensures
        without(s, pat) == s,
{
}

/// The number of bytes that `c` takes in UTF-8.
pub open spec fn utf8_width(c: char) -> nat {
    encode_scalar(c as u32).len()
}

/// The number of bytes that `s` takes in UTF-8.
pub open spec fn byte_len(s: Seq<char>) -> nat {
    encode_utf8(s).len()
}

/// A character takes one to four bytes, by the range of its scalar value.
pub proof fn lemma_utf8_width(c: char)
    ensures
        utf8_width(c) == if (c as u32) < 0x80 {
            1nat
        } else if (c as u32) < 0x800 {
            2nat
        } else if (c as u32) < 0x10000 {
            3nat
        } else {
            4nat
        },
{
}

/// The number of bytes that `c` takes in UTF-8.
pub fn width_of(c: char) -> (n: usize)
    ensures
        n == utf8_width(c),
        1 <= n <= 4,
{
    proof {
        lemma_utf8_width(c);
    }
    let v: u32 = c as u32;
    if v < 0x80 {
        1
    } else if v < 0x800 {
        2
    } else if v < 0x10000 {
        3
    } else {
        4
    }
}

/// A sequence that grows by one character grows by that character's width.
pub proof fn lemma_byte_len_push(s: Seq<char>, c: char)
    ensures
        byte_len(s.push(c)) == byte_len(s) + utf8_width(c),
    decreases s.len(),
{
    if s.len() == 0 {
        assert(encode_utf8(s.push(c)) == encode_scalar(c as u32) + encode_utf8(
            s.push(c).drop_first(),
        ));
    } else {
        assert(s.push(c).drop_first() =~= s.drop_first().push(c));
        lemma_byte_len_push(s.drop_first(), c);
    }
}

/// A longer prefix takes more bytes: at least one for each character more.
pub proof fn lemma_byte_len_prefix(s: Seq<char>, i: int, j: int)
    requires
        0 <= i <= j <= s.len(),
    ensures
        byte_len(s.take(i)) + (j - i) <= byte_len(s.take(j)),
    decreases j - i,
{
    if i < j {
        lemma_byte_len_prefix(s, i, j - 1);
        assert(s.take(j) =~= s.take(j - 1).push(s[j - 1]));
        lemma_byte_len_push(s.take(j - 1), s[j - 1]);
        lemma_utf8_width(s[j - 1]);
    }
}

/// The character at index `k` of `s` begins at byte `offset` of the UTF-8
/// encoding of `s`.
pub open spec fn starts_at_byte(s: Seq<char>, k: int, offset: int) -> bool {
    &&& 0 <= k < s.len()
    &&& byte_len(s.take(k)) == offset
}

/// The index of the character of `s` that begins at byte `offset`, if one
/// does: none does where `offset` falls inside a character or is not below
/// the byte length of `s`.
pub open spec fn char_at_byte(s: Seq<char>, offset: int) -> Option<int> {
    if exists|k: int| starts_at_byte(s, k, offset) {
        Some(choose|k: int| starts_at_byte(s, k, offset))
    } else {
        None
    }
}

/// At most one character begins at a given byte.
pub proof fn lemma_starts_at_byte_unique(s: Seq<char>, i: int, j: int, offset: int)
    requires
        starts_at_byte(s, i, offset),
        starts_at_byte(s, j, offset),
    ensures
        i == j,
{
    if i < j {
        lemma_byte_len_prefix(s, i, j);
    } else if j < i {
        lemma_byte_len_prefix(s, j, i);
    }
}

/// The index of the character of `s` that begins at byte `offset`.
pub fn find_char_at_byte(s: &Vec<char>, offset: usize) -> (r: Option<usize>)
    ensures
        match r {
            Some(k) => char_at_byte(s@, offset as int) == Some(k as int),
            None => char_at_byte(s@, offset as int) is None,
        },
{
    let mut k: usize = 0;
    let mut pos: usize = 0;
    while k < s.len()
        invariant
            k <= s.len(),
            pos == byte_len(s@.take(k as int)),
            pos <= offset,
            forall|j: int| 0 <= j < k ==> !starts_at_byte(s@, j, offset as int),
        decreases s.len() - k,
    {
        if pos == offset {
            proof {
                assert(starts_at_byte(s@, k as int, offset as int));
                let c = choose|j: int| starts_at_byte(s@, j, offset as int);
                lemma_starts_at_byte_unique(s@, c, k as int, offset as int);
            }
            return Some(k);
        }
        let w: usize = width_of(s[k]);
        proof {
            assert(s@.take(k + 1) =~= s@.take(k as int).push(s@[k as int]));
            lemma_byte_len_push(s@.take(k as int), s@[k as int]);
        }
        if w > offset - pos {
            proof {
                assert forall|j: int| !starts_at_byte(s@, j, offset as int) by {
                    if k < j < s.len() {
                        lemma_byte_len_prefix(s@, k + 1, j);
                    }
                }
            }
            return None;
        }
        pos += w;
        k += 1;
    }
    None
}

/// The character at index `k` begins at byte `offset` exactly where
/// `char_at_byte` gives `k` for `offset`.
pub proof fn lemma_char_at_byte(s: Seq<char>, k: int, offset: int)
    ensures
        char_at_byte(s, offset) == Some(k) <==> starts_at_byte(s, k, offset),
{
    if starts_at_byte(s, k, offset) {
        let c = choose|j: int| starts_at_byte(s, j, offset);
        lemma_starts_at_byte_unique(s, c, k, offset);
    }
}

/// Where `pat` stands at index `i` of what follows the first `n` characters
/// of `s`, it stands at index `n + i` of `s`.
pub proof fn lemma_occurs_at_skip(s: Seq<char>, pat: Seq<char>, n: int, i: int)
    requires
        0 <= n <= s.len(),
    ensures
        occurs_at(s.skip(n), pat, i) <==> 0 <= i && occurs_at(s, pat, n + i),
{
    if 0 <= i && n + i + pat.len() <= s.len() {
        assert(s.skip(n).subrange(i, i + pat.len()) =~= s.subrange(n + i, n + i + pat.len()));
    }
}

/// Taking `pat` out of a sequence in which it does not stand changes
/// nothing.
pub proof fn lemma_without_absent(s: Seq<char>, pat: Seq<char>)
    requires
        !occurs_in(s, pat),
    ensures
        without(s, pat) == s,
    decreases s.len(),
{
    if pat.len() > 0 && s.len() > 0 {
        assert forall|i: int| !occurs_at(s.skip(1), pat, i) by {
            lemma_occurs_at_skip(s, pat, 1, i);
        }
        lemma_without_absent(s.skip(1), pat);
    }
}

/// Taking occurrences out does not make a sequence longer.
pub proof fn lemma_without_len(s: Seq<char>, pat: Seq<char>)
    ensures
        without(s, pat).len() <= s.len(),
    decreases s.len(),
{
    if pat.len() > 0 && s.len() > 0 {
        if occurs_at(s, pat, 0) {
            lemma_without_len(s.skip(pat.len() as int), pat);
        } else {
            lemma_without_len(s.skip(1), pat);
        }
    }
}

} // verus!
