//! Recognising Han ideographs with a compiled regular expression, whose
//! answers are stated over the ranges of the script Han.

use crate::frequency::Count;
use regex::Regex;
use vstd::prelude::*;

verus! {

/// `regex::Regex`, a compiled regular expression. Nothing inside it is
/// seen here.
#[verifier::external_type_specification]
#[verifier::external_body]
pub struct ExRegex(regex::Regex);

/// `regex::Error`, why a pattern did not compile. Nothing inside it is seen
/// here.
#[verifier::external_type_specification]
#[verifier::external_body]
pub struct ExRegexError(regex::Error);

/// The haystacks in which a compiled regular expression finds a match: what
/// `Regex::is_match` answers for it.
pub uninterp spec fn regex_language(re: Regex) -> Set<Seq<char>>;

/// The pattern that matches one character of the Han script.
pub const HAN_PATTERN: &'static str = "\\p{Han}";

/// Whether the scalar value `v` belongs to the script Han of Unicode 16.0.0:
/// the 22 ranges that the regular expression engine holds for that script.
pub open spec fn han_scalar(v: u32) -> bool {
    ||| 0x2E80 <= v <= 0x2E99
    ||| 0x2E9B <= v <= 0x2EF3
    ||| 0x2F00 <= v <= 0x2FD5
    ||| v == 0x3005
    ||| v == 0x3007
    ||| 0x3021 <= v <= 0x3029
    ||| 0x3038 <= v <= 0x303B
    ||| 0x3400 <= v <= 0x4DBF
    ||| 0x4E00 <= v <= 0x9FFF
    ||| 0xF900 <= v <= 0xFA6D
    ||| 0xFA70 <= v <= 0xFAD9
    ||| 0x16FE2 <= v <= 0x16FE3
    ||| 0x16FF0 <= v <= 0x16FF1
    ||| 0x20000 <= v <= 0x2A6DF
    ||| 0x2A700 <= v <= 0x2B739
    ||| 0x2B740 <= v <= 0x2B81D
    ||| 0x2B820 <= v <= 0x2CEA1
    ||| 0x2CEB0 <= v <= 0x2EBE0
    ||| 0x2EBF0 <= v <= 0x2EE5D
    ||| 0x2F800 <= v <= 0x2FA1D
    ||| 0x30000 <= v <= 0x3134A
    ||| 0x31350 <= v <= 0x323AF
}

/// Whether `c` is a Han ideograph.
pub open spec fn is_han(c: char) -> bool {
    han_scalar(c as u32)
}

/// Whether `text` holds a Han ideograph.
pub open spec fn holds_han(text: Seq<char>) -> bool {
    exists|i: int| 0 <= i < text.len() && is_han(#[trigger] text[i])
}

/// `regex::Regex::new`, for the one pattern that is compiled here. With the
/// crate's default features the pattern `\p{Han}` compiles, to the class of
/// the script Han: the regular expression that comes back finds a match in
/// a haystack exactly where one of its characters is in that class. Of
/// other patterns nothing is said.
pub assume_specification[ Regex::new ](re: &str) -> (r: Result<Regex, regex::Error>)
    ensures
        re@ == "\\p{Han}"@ ==> match r {
            Ok(compiled) => forall|h: Seq<char>|
                #[trigger] regex_language(compiled).contains(h) <==> holds_han(h),
            Err(_) => false,
        },
;

/// `regex::Regex::is_match`: true if and only if the regular expression
/// matches somewhere in the haystack.
pub assume_specification[ Regex::is_match ](re: &Regex, haystack: &str) -> (b: bool)
    ensures
        b == regex_language(*re).contains(haystack@),
;

/// A text of one character holds an ideograph exactly where the character
/// is one.
pub proof fn lemma_holds_han_one(c: char)
    ensures
        holds_han(seq![c]) <==> is_han(c),
{
    if is_han(c) {
        assert(is_han(seq![c][0]));
    }
}

/// The empty text holds no ideograph.
pub proof fn lemma_holds_han_empty()
    ensures
        !holds_han(Seq::<char>::empty()),
{
}

/// A joined text holds an ideograph exactly where one of its parts does.
pub proof fn lemma_holds_han_joined(a: Seq<char>, b: Seq<char>)
    ensures
        holds_han(a + b) <==> holds_han(a) || holds_han(b),
{
    if holds_han(a) {
        let i = choose|i: int| 0 <= i < a.len() && is_han(a[i]);
        assert(is_han((a + b)[i]));
    }
    if holds_han(b) {
        let i = choose|i: int| 0 <= i < b.len() && is_han(b[i]);
        assert(is_han((a + b)[a.len() + i]));
    }
    if holds_han(a + b) {
        let i = choose|i: int| 0 <= i < (a + b).len() && is_han((a + b)[i]);
        if i < a.len() {
            assert(is_han(a[i]));
        } else {
            assert(is_han(b[i - a.len()]));
        }
    }
}

/// Holds of the entries whose character belongs to the Han script.
pub open spec fn counts_han() -> spec_fn(Count) -> bool {
    |e: Count| is_han(e.0)
}

/// The entries of `s` whose character belongs to the Han script, in the
/// order they have in `s`.
pub open spec fn han_only(s: Seq<Count>) -> Seq<Count> {
    s.filter(counts_han())
}

/// A compiled matcher for Han ideographs.
pub struct HanMatcher {
    re: Regex,
}

impl HanMatcher {
    /// The regular expression finds a match exactly in the texts that hold
    /// a Han ideograph.
    #[verifier::type_invariant]
    spec fn matches_han(&self) -> bool {
        forall|h: Seq<char>| #[trigger] regex_language(self.re).contains(h) <==> holds_han(h)
    }

    /// Compiles the Han pattern. A matcher is always given.
    pub fn new() -> (r: Option<HanMatcher>)
        ensures
            r is Some,
    {
        match Regex::new(HAN_PATTERN) {
            Ok(re) => Some(HanMatcher { re }),
            Err(_) => None,
        }
    }

    /// Whether `text` holds a Han ideograph: whether one of its characters
    /// is one.
    pub fn found_in(&self, text: &str) -> (b: bool)
        ensures
            b == holds_han(text@),
            b <==> exists|i: int| 0 <= i < text@.len() && is_han(#[trigger] text@[i]),
    {
        proof {
            use_type_invariant(self);
        }
        self.re.is_match(text)
    }

    /// Whether `c` is a Han ideograph.
    pub fn is_han(&self, c: char) -> (b: bool)
        ensures
            b == is_han(c),
    {
        let mut s = String::new();
        s.push(c);
        proof {
            lemma_holds_han_one(c);
        }
        self.found_in(s.as_str())
    }

    /// The entries of `counts` whose character is a Han ideograph, in the
    /// order they have in `counts`.
    pub fn keep_han(&self, counts: &Vec<Count>) -> (r: Vec<Count>)
        ensures
            r@ == han_only(counts@),
    {
        let mut kept: Vec<Count> = Vec::new();
        let mut i: usize = 0;
        proof {
            Seq::<Count>::empty().lemma_filter_len(counts_han());
        }
        while i < counts.len()
            invariant
                i <= counts.len(),
                kept@ == han_only(counts@.take(i as int)),
            decreases counts.len() - i,
        {
            let e: Count = counts[i];
            proof {
                counts@.take(i as int).lemma_filter_push(e, counts_han());
                assert(counts@.take(i as int).push(e) =~= counts@.take(i + 1));
            }
            if self.is_han(e.0) {
                kept.push(e);
            }
            i += 1;
        }
        assert(counts@.take(counts.len() as int) =~= counts@);
        kept
    }
}

} // verus!
