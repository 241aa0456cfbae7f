//! The dictionary of readings and meanings, read line by line from its
//! XML text.

use crate::text::{
    char_at_byte, chars_of, contains, find_char_at_byte, occurs_in, remove_all, string_of,
    without,
};
use vstd::prelude::*;

verus! {

/// Opens the element that holds the character of an entry.
pub const LITERAL_OPEN: &'static str = "<literal>";

/// Opens an element that holds a Sino-Japanese reading.
pub const ONYOMI_OPEN: &'static str = "<reading r_type=\"ja_on\">";

/// Opens an element that holds a native Japanese reading.
pub const KUNYOMI_OPEN: &'static str = "<reading r_type=\"ja_kun\">";

/// Closes a reading of either kind.
pub const READING_CLOSE: &'static str = "</reading>";

/// Opens an element that holds a meaning.
pub const MEANING_OPEN: &'static str = "<meaning>";

/// Closes a meaning.
pub const MEANING_CLOSE: &'static str = "</meaning>";

/// Closes an entry.
pub const CHARACTER_CLOSE: &'static str = "</character>";

/// Stands between two readings, or two meanings, of one entry.
pub const SEPARATOR: &'static str = ", ";

/// The byte of a line at which the character of an entry begins: the length
/// of `LITERAL_OPEN`.
pub const LITERAL_OFFSET: usize = 9;

/// One entry of the dictionary.
#[derive(Debug, Clone, PartialEq, Eq)]
pub struct Kanji {
    /// The character.
    pub kanji: String,
    /// Its Sino-Japanese readings, separated.
    pub onyomi: String,
    /// Its native Japanese readings, separated.
    pub kunyomi: String,
    /// Its meanings, separated.
    pub meaning: String,
}

/// What an entry holds, as sequences of characters.
pub struct Entry {
    pub kanji: Seq<char>,
    pub onyomi: Seq<char>,
    pub kunyomi: Seq<char>,
    pub meaning: Seq<char>,
}

impl View for Kanji {
    type V = Entry;

    open spec fn view(&self) -> Entry {
        Entry {
            kanji: self.kanji@,
            onyomi: self.onyomi@,
            kunyomi: self.kunyomi@,
            meaning: self.meaning@,
        }
    }
}

/// What a list of entries holds.
pub open spec fn entries_of(v: Seq<Kanji>) -> Seq<Entry> {
    v.map_values(|k: Kanji| k@)
}

/// Why a line of the dictionary is refused.
#[derive(Debug, Clone, Copy, PartialEq, Eq)]
pub enum DictError {
    /// The line holds `LITERAL_OPEN`, but no character of it begins at byte
    /// `LITERAL_OFFSET`.
    MissingLiteral,
}

/// What the parser has read so far.
pub struct ParseState {
    /// The characters of the entry that is being read.
    pub kanji: Seq<char>,
    /// Its Sino-Japanese readings, separated.
    pub onyomi: Seq<char>,
    /// Its native readings, separated.
    pub kunyomi: Seq<char>,
    /// Its meanings, separated.
    pub meaning: Seq<char>,
    /// The entries that are complete.
    pub entries: Seq<Entry>,
}

/// The state before the first line.
pub open spec fn initial() -> ParseState {
    ParseState {
        kanji: Seq::empty(),
        onyomi: Seq::empty(),
        kunyomi: Seq::empty(),
        meaning: Seq::empty(),
        entries: Seq::empty(),
    }
}

/// A line without its opening and closing tag.
pub open spec fn element_text(line: Seq<char>, open: Seq<char>, close: Seq<char>) -> Seq<char> {
    without(without(line, open), close)
}

/// `acc` with `piece` added, behind a separator unless `acc` is empty.
pub open spec fn joined(acc: Seq<char>, piece: Seq<char>) -> Seq<char> {
    if acc.len() == 0 {
        piece
    } else {
        acc + SEPARATOR@ + piece
    }
}

/// `acc` with the text of the element that `open` marks, where `line` holds
/// one.
pub open spec fn collected(
    acc: Seq<char>,
    line: Seq<char>,
    open: Seq<char>,
    close: Seq<char>,
) -> Seq<char> {
    if occurs_in(line, open) {
        joined(acc, element_text(line, open, close))
    } else {
        acc
    }
}

/// The character that a line gives to the entry, and the line without it: on
/// a line that holds `LITERAL_OPEN`, the character that begins at byte
/// `LITERAL_OFFSET`; on any other line, nothing. `None` where the line holds
/// the tag and no character begins there.
pub open spec fn literal_split(line: Seq<char>) -> Option<(Seq<char>, Seq<char>)> {
    if !occurs_in(line, LITERAL_OPEN@) {
        Some((Seq::empty(), line))
    } else {
        match char_at_byte(line, LITERAL_OFFSET as int) {
            Some(k) => Some((seq![line[k]], line.remove(k))),
            None => None,
        }
    }
}

/// The state after one more line, or `None` where the line is refused.
pub open spec fn step(st: ParseState, line: Seq<char>) -> Option<ParseState> {
    match literal_split(line) {
        None => None,
        Some((literal, rest)) => {
            let kanji = st.kanji + literal;
            let onyomi = collected(st.onyomi, rest, ONYOMI_OPEN@, READING_CLOSE@);
            let kunyomi = collected(st.kunyomi, rest, KUNYOMI_OPEN@, READING_CLOSE@);
            let meaning = collected(st.meaning, rest, MEANING_OPEN@, MEANING_CLOSE@);
            if occurs_in(rest, CHARACTER_CLOSE@) {
                Some(
                    ParseState {
                        kanji: Seq::empty(),
                        onyomi: Seq::empty(),
                        kunyomi: Seq::empty(),
                        meaning: Seq::empty(),
                        entries: st.entries.push(Entry { kanji, onyomi, kunyomi, meaning }),
                    },
                )
            } else {
                Some(ParseState { kanji, onyomi, kunyomi, meaning, entries: st.entries })
            }
        },
    }
}

/// The tags, as vectors of characters.
struct Tags {
    literal_open: Vec<char>,
    onyomi_open: Vec<char>,
    kunyomi_open: Vec<char>,
    reading_close: Vec<char>,
    meaning_open: Vec<char>,
    meaning_close: Vec<char>,
    character_close: Vec<char>,
    separator: Vec<char>,
}

impl Tags {
    /// Each field holds the characters of its tag.
    #[verifier::type_invariant]
    spec fn holds_the_tags(&self) -> bool {
        &&& self.literal_open@ == LITERAL_OPEN@
        &&& self.onyomi_open@ == ONYOMI_OPEN@
        &&& self.kunyomi_open@ == KUNYOMI_OPEN@
        &&& self.reading_close@ == READING_CLOSE@
        &&& self.meaning_open@ == MEANING_OPEN@
        &&& self.meaning_close@ == MEANING_CLOSE@
        &&& self.character_close@ == CHARACTER_CLOSE@
        &&& self.separator@ == SEPARATOR@
    }

    /// The tags of the dictionary.
    fn new() -> (tags: Tags)
        ensures
            tags.holds_the_tags(),
    {
        Tags {
            literal_open: chars_of(LITERAL_OPEN),
            onyomi_open: chars_of(ONYOMI_OPEN),
            kunyomi_open: chars_of(KUNYOMI_OPEN),
            reading_close: chars_of(READING_CLOSE),
            meaning_open: chars_of(MEANING_OPEN),
            meaning_close: chars_of(MEANING_CLOSE),
            character_close: chars_of(CHARACTER_CLOSE),
            separator: chars_of(SEPARATOR),
        }
    }
}

/// Appends the characters of `src` to `dst`.
fn extend(dst: &mut Vec<char>, src: &Vec<char>)
    ensures
        final(dst)@ == old(dst)@ + src@,
{
    let mut i: usize = 0;
    while i < src.len()
        invariant
            i <= src.len(),
            dst@ == old(dst)@ + src@.take(i as int),
        decreases src.len() - i,
    {
        dst.push(src[i]);
        i += 1;
    }
}

/// Adds to `acc` the text of the element that `open` marks, where `line`
/// holds one.
fn collect(
    acc: &mut Vec<char>,
    line: &Vec<char>,
    open: &Vec<char>,
    close: &Vec<char>,
    separator: &Vec<char>,
)
    requires
        separator@ == SEPARATOR@,
    ensures
        final(acc)@ == collected(old(acc)@, line@, open@, close@),
{
    if contains(line, open) {
        let opened = remove_all(line, open);
        let piece = remove_all(&opened, close);
        if acc.len() > 0 {
            extend(acc, separator);
        }
        extend(acc, &piece);
    }
}

/// Reads the dictionary one line at a time.
pub struct DictParser {
    tags: Tags,
    kanji: Vec<char>,
    onyomi: Vec<char>,
    kunyomi: Vec<char>,
    meaning: Vec<char>,
    entries: Vec<Kanji>,
}

impl View for DictParser {
    type V = ParseState;

    closed spec fn view(&self) -> ParseState {
        ParseState {
            kanji: self.kanji@,
            onyomi: self.onyomi@,
            kunyomi: self.kunyomi@,
            meaning: self.meaning@,
            entries: entries_of(self.entries@),
        }
    }
}

impl DictParser {
    /// A parser that has read nothing.
    pub fn new() -> (p: DictParser)
        ensures
            p@ == initial(),
    {
        let p = DictParser {
            tags: Tags::new(),
            kanji: Vec::new(),
            onyomi: Vec::new(),
            kunyomi: Vec::new(),
            meaning: Vec::new(),
            entries: Vec::new(),
        };
        assert(entries_of(p.entries@) =~= Seq::<Entry>::empty());
        p
    }

    /// Reads one line. A line that is refused leaves the parser as it was.
    pub fn feed_line(&mut self, line: &str) -> (r: Result<(), DictError>)
        ensures
            match step(old(self)@, line@) {
                Some(next) => r is Ok && final(self)@ == next,
                None => r == Err::<(), DictError>(DictError::MissingLiteral) && final(self)@ == old(
                    self,
                )@,
            },
    {
        proof {
            use_type_invariant(&self.tags);
        }
        let mut rest = chars_of(line);
        if contains(&rest, &self.tags.literal_open) {
            match find_char_at_byte(&rest, LITERAL_OFFSET) {
                Some(k) => {
                    let c = rest.remove(k);
                    self.kanji.push(c);
                    assert(self.kanji@ =~= old(self).kanji@ + seq![c]);
                },
                None => {
                    return Err(DictError::MissingLiteral);
                },
            }
        }
        collect(
            &mut self.onyomi,
            &rest,
            &self.tags.onyomi_open,
            &self.tags.reading_close,
            &self.tags.separator,
        );
        collect(
            &mut self.kunyomi,
            &rest,
            &self.tags.kunyomi_open,
            &self.tags.reading_close,
            &self.tags.separator,
        );
        collect(
            &mut self.meaning,
            &rest,
            &self.tags.meaning_open,
            &self.tags.meaning_close,
            &self.tags.separator,
        );
        if contains(&rest, &self.tags.character_close) {
            let entry = Kanji {
                kanji: string_of(&self.kanji),
                onyomi: string_of(&self.onyomi),
                kunyomi: string_of(&self.kunyomi),
                meaning: string_of(&self.meaning),
            };
            self.entries.push(entry);
            self.kanji.clear();
            self.onyomi.clear();
            self.kunyomi.clear();
            self.meaning.clear();
            assert(entries_of(self.entries@) =~= entries_of(old(self).entries@).push(entry@));
        }
        Ok(())
    }

    /// The entries that are complete.
    pub fn entries(&self) -> (r: &Vec<Kanji>)
        ensures
            entries_of(r@) == self@.entries,
    {
        &self.entries
    }

    /// Ends the reading: the complete entries, without what was read of an
    /// entry that was not closed.
    pub fn finish(self) -> (r: Vec<Kanji>)
        ensures
            entries_of(r@) == self@.entries,
    {
        self.entries
    }
}

/// What a list of lines holds.
pub open spec fn lines_of(v: Seq<String>) -> Seq<Seq<char>> {
    v.map_values(|s: String| s@)
}

/// The state after all of `lines`, read in order from `st`, or `None` where
/// one of them is refused.
pub open spec fn run(st: ParseState, lines: Seq<Seq<char>>) -> Option<ParseState>
    decreases lines.len(),
{
    if lines.len() == 0 {
        Some(st)
    } else {
        match run(st, lines.drop_last()) {
            Some(mid) => step(mid, lines.last()),
            None => None,
        }
    }
}

/// Where the lines before a point are refused, so are the lines up to any
/// later point.
pub proof fn lemma_run_refused_stays(st: ParseState, lines: Seq<Seq<char>>, i: int)
    requires
        0 <= i <= lines.len(),
        run(st, lines.take(i)) is None,
    ensures
        run(st, lines) is None,
    decreases lines.len() - i,
{
    if i < lines.len() {
        assert(lines.take(i + 1).drop_last() =~= lines.take(i));
        lemma_run_refused_stays(st, lines, i + 1);
    } else {
        assert(lines.take(i) =~= lines);
    }
}

/// A line of the dictionary that was refused.
#[derive(Debug, Clone, Copy, PartialEq, Eq)]
pub struct LineError {
    /// The index of the line, counted from 0.
    pub line: usize,
    /// Why it was refused.
    pub error: DictError,
}

/// Reads a whole dictionary: the entries that its lines complete, in order,
/// or the first line that is refused.
pub fn parse_dictionary(lines: &Vec<String>) -> (r: Result<Vec<Kanji>, LineError>)
    ensures
        r is Ok <==> run(initial(), lines_of(lines@)) is Some,
        match r {
            Ok(entries) => entries_of(entries@) == run(initial(), lines_of(lines@))->0.entries,
            Err(e) => {
                &&& e.error == DictError::MissingLiteral
                &&& e.line < lines.len()
                &&& run(initial(), lines_of(lines@).take(e.line as int)) is Some
                &&& run(initial(), lines_of(lines@).take(e.line + 1)) is None
            },
        },
{
    let mut parser = DictParser::new();
    let ghost all = lines_of(lines@);
    let mut i: usize = 0;
    while i < lines.len()
        invariant
            i <= lines.len(),
            all == lines_of(lines@),
            run(initial(), all.take(i as int)) == Some(parser@),
        decreases lines.len() - i,
    {
        assert(all.take(i + 1).drop_last() =~= all.take(i as int));
        match parser.feed_line(lines[i].as_str()) {
            Ok(()) => {},
            Err(error) => {
                proof {
                    lemma_run_refused_stays(initial(), all, i + 1);
                }
                return Err(LineError { line: i, error });
            },
        }
        i += 1;
    }
    assert(all.take(lines.len() as int) =~= all);
    Ok(parser.finish())
}

/// A line that holds none of the tags leaves the state as it is.
pub proof fn lemma_step_plain_line(st: ParseState, line: Seq<char>)
    requires
        !occurs_in(line, LITERAL_OPEN@),
        !occurs_in(line, ONYOMI_OPEN@),
        !occurs_in(line, KUNYOMI_OPEN@),
        !occurs_in(line, MEANING_OPEN@),
        !occurs_in(line, CHARACTER_CLOSE@),
    ensures
        step(st, line) == Some(st),
{
}

/// A line is refused for its own sake, whatever was read before it.
pub proof fn lemma_step_refuses(st: ParseState, line: Seq<char>)
    ensures
        step(st, line) is None <==> occurs_in(line, LITERAL_OPEN@) && char_at_byte(
            line,
            LITERAL_OFFSET as int,
        ) is None,
{
}

/// A line completes at most one entry and takes none away.
pub proof fn lemma_step_keeps_entries(st: ParseState, line: Seq<char>)
    requires
        step(st, line) is Some,
    ensures
        st.entries.len() <= step(st, line)->0.entries.len() <= st.entries.len() + 1,
        step(st, line)->0.entries.take(st.entries.len() as int) == st.entries,
{
}

/// Reading lines in two parts gives what reading them in one gives.
pub proof fn lemma_run_in_parts(st: ParseState, first: Seq<Seq<char>>, second: Seq<Seq<char>>)
    ensures
        run(st, first + second) == match run(st, first) {
            Some(mid) => run(mid, second),
            None => None,
        },
    decreases second.len(),
{
    if second.len() > 0 {
        assert((first + second).drop_last() =~= first + second.drop_last());
        lemma_run_in_parts(st, first, second.drop_last());
    }
}

/// The entries that some lines complete stay, in their places, whatever
/// lines follow.
pub proof fn lemma_run_keeps_entries(st: ParseState, lines: Seq<Seq<char>>)
    requires
        run(st, lines) is Some,
    ensures
        st.entries.len() <= run(st, lines)->0.entries.len() <= st.entries.len() + lines.len(),
        run(st, lines)->0.entries.take(st.entries.len() as int) == st.entries,
    decreases lines.len(),
{
    if lines.len() > 0 {
        let mid = run(st, lines.drop_last())->0;
        lemma_run_keeps_entries(st, lines.drop_last());
        lemma_step_keeps_entries(mid, lines.last());
    }
}

} // verus!
