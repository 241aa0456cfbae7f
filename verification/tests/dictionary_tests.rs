use kanji_freq::dictionary::{
    parse_dictionary, DictError, DictParser, Kanji, LineError, CHARACTER_CLOSE, KUNYOMI_OPEN,
    LITERAL_OFFSET, LITERAL_OPEN, MEANING_CLOSE, MEANING_OPEN, ONYOMI_OPEN, READING_CLOSE,
    SEPARATOR,
};

fn entry(kanji: &str, onyomi: &str, kunyomi: &str, meaning: &str) -> Kanji {
    Kanji {
        kanji: kanji.to_string(),
        onyomi: onyomi.to_string(),
        kunyomi: kunyomi.to_string(),
        meaning: meaning.to_string(),
    }
}

fn lines(text: &[&str]) -> Vec<String> {
    text.iter().map(|s| s.to_string()).collect()
}

const A: [&str; 16] = [
    "<character>",
    "<literal>亜</literal>",
    "<codepoint>",
    "<cp_value cp_type=\"ucs\">4e9c</cp_value>",
    "</codepoint>",
    "<reading_meaning>",
    "<rmgroup>",
    "<reading r_type=\"pinyin\">ya4</reading>",
    "<reading r_type=\"ja_on\">ア</reading>",
    "<reading r_type=\"ja_kun\">つ.ぐ</reading>",
    "<meaning>Asia</meaning>",
    "<meaning>rank next</meaning>",
    "<meaning m_lang=\"fr\">Asie</meaning>",
    "</rmgroup>",
    "</reading_meaning>",
    "</character>",
];

#[test]
fn the_tags_are_those_of_the_dictionary_format() {
    assert_eq!(LITERAL_OPEN, "<literal>");
    assert_eq!(ONYOMI_OPEN, "<reading r_type=\"ja_on\">");
    assert_eq!(KUNYOMI_OPEN, "<reading r_type=\"ja_kun\">");
    assert_eq!(READING_CLOSE, "</reading>");
    assert_eq!(MEANING_OPEN, "<meaning>");
    assert_eq!(MEANING_CLOSE, "</meaning>");
    assert_eq!(CHARACTER_CLOSE, "</character>");
    assert_eq!(SEPARATOR, ", ");
    assert_eq!(LITERAL_OFFSET, LITERAL_OPEN.len());
}

#[test]
fn a_new_parser_holds_no_entry() {
    let p = DictParser::new();
    assert!(p.entries().is_empty());
    assert!(p.finish().is_empty());
}

#[test]
fn one_entry_is_read_line_by_line() {
    let mut p = DictParser::new();
    for (i, line) in A.iter().enumerate() {
        assert_eq!(p.feed_line(line), Ok(()));
        assert_eq!(p.entries().len(), if i + 1 < A.len() { 0 } else { 1 });
    }
    assert_eq!(p.finish(), vec![entry("亜", "ア", "つ.ぐ", "Asia, rank next")]);
}

#[test]
fn parse_dictionary_reads_one_entry() {
    assert_eq!(
        parse_dictionary(&lines(&A)),
        Ok(vec![entry("亜", "ア", "つ.ぐ", "Asia, rank next")])
    );
}

#[test]
fn parse_dictionary_of_nothing() {
    assert_eq!(parse_dictionary(&Vec::new()), Ok(Vec::new()));
}

#[test]
fn several_readings_are_separated() {
    let text = lines(&[
        "<literal>生</literal>",
        "<reading r_type=\"ja_on\">セイ</reading>",
        "<reading r_type=\"ja_on\">ショウ</reading>",
        "<reading r_type=\"ja_kun\">い.きる</reading>",
        "<reading r_type=\"ja_kun\">う.まれる</reading>",
        "<reading r_type=\"ja_kun\">なま</reading>",
        "<meaning>life</meaning>",
        "</character>",
    ]);
    assert_eq!(
        parse_dictionary(&text),
        Ok(vec![entry("生", "セイ, ショウ", "い.きる, う.まれる, なま", "life")])
    );
}

#[test]
fn entries_come_in_the_order_of_the_lines() {
    let text = lines(&[
        "<literal>一</literal>",
        "<meaning>one</meaning>",
        "</character>",
        "<literal>二</literal>",
        "<reading r_type=\"ja_on\">ニ</reading>",
        "</character>",
        "</character>",
    ]);
    assert_eq!(
        parse_dictionary(&text),
        Ok(vec![entry("一", "", "", "one"), entry("二", "ニ", "", ""), entry("", "", "", "")])
    );
}

#[test]
fn an_entry_starts_empty_after_the_one_before() {
    let text = lines(&[
        "<literal>一</literal>",
        "<reading r_type=\"ja_on\">イチ</reading>",
        "<reading r_type=\"ja_kun\">ひと</reading>",
        "<meaning>one</meaning>",
        "</character>",
        "<literal>二</literal>",
        "</character>",
    ]);
    let got = parse_dictionary(&text).unwrap();
    assert_eq!(got[1], entry("二", "", "", ""));
}

#[test]
fn an_entry_that_is_not_closed_is_left_out() {
    let text = lines(&[
        "<literal>一</literal>",
        "</character>",
        "<literal>二</literal>",
        "<meaning>two</meaning>",
    ]);
    assert_eq!(parse_dictionary(&text), Ok(vec![entry("一", "", "", "")]));
}

#[test]
fn the_text_around_the_tags_stays() {
    let text = lines(&["  <meaning>a</meaning> b", "\t<reading r_type=\"ja_on\">ア</reading>;", "</character>"]);
    assert_eq!(parse_dictionary(&text), Ok(vec![entry("", "\tア;", "", "  a b")]));
}

#[test]
fn a_line_can_give_several_fields() {
    let text = lines(&["<literal>亜</literal><meaning>Asia</meaning></character>"]);
    // The character leaves the line before the meaning is taken from it.
    assert_eq!(
        parse_dictionary(&text),
        Ok(vec![entry("亜", "", "", "<literal></literal>Asia</character>")])
    );
}

#[test]
fn two_literals_make_one_field() {
    let text = lines(&["<literal>亜</literal>", "<literal>唖</literal>", "</character>"]);
    assert_eq!(parse_dictionary(&text), Ok(vec![entry("亜唖", "", "", "")]));
}

#[test]
fn the_literal_is_the_character_at_byte_nine() {
    // Three characters of three bytes each stand before the tag: byte 9 is
    // where the tag begins, and its first character is taken.
    let text = lines(&["日本語<literal>", "</character>"]);
    assert_eq!(parse_dictionary(&text), Ok(vec![entry("<", "", "", "")]));
}

#[test]
fn removing_the_literal_can_break_a_tag() {
    // Byte 9 holds the "<" of the meaning tag; without it the line holds
    // no meaning tag any more.
    let text = lines(&["<literal><meaning>x</meaning>", "</character>"]);
    assert_eq!(parse_dictionary(&text), Ok(vec![entry("<", "", "", "")]));
}

#[test]
fn a_literal_tag_with_nothing_behind_it_is_refused() {
    let mut p = DictParser::new();
    assert_eq!(p.feed_line("<literal>"), Err(DictError::MissingLiteral));
}

#[test]
fn a_literal_tag_that_hides_byte_nine_in_a_character_is_refused() {
    let mut p = DictParser::new();
    // "ab" takes bytes 0 and 1, the three ideographs bytes 2 to 10: byte 9
    // falls inside the third.
    assert_eq!(p.feed_line("ab日本語<literal>"), Err(DictError::MissingLiteral));
}

#[test]
fn a_refused_line_leaves_the_parser_as_it_was() {
    let mut p = DictParser::new();
    assert_eq!(p.feed_line("<literal>一</literal>"), Ok(()));
    assert_eq!(p.feed_line("<meaning>one</meaning>"), Ok(()));
    assert_eq!(p.feed_line("<literal>"), Err(DictError::MissingLiteral));
    assert_eq!(p.entries().len(), 0);
    assert_eq!(p.feed_line("</character>"), Ok(()));
    assert_eq!(p.finish(), vec![entry("一", "", "", "one")]);
}

#[test]
fn parse_dictionary_names_the_first_line_refused() {
    let text = lines(&["<literal>一</literal>", "</character>", "<literal>", "<literal>"]);
    assert_eq!(
        parse_dictionary(&text),
        Err(LineError { line: 2, error: DictError::MissingLiteral })
    );
    let text = lines(&["<literal>"]);
    assert_eq!(
        parse_dictionary(&text),
        Err(LineError { line: 0, error: DictError::MissingLiteral })
    );
}

#[test]
fn lines_without_a_known_tag_change_nothing() {
    let text = lines(&[
        "<?xml version=\"1.0\" encoding=\"UTF-8\"?>",
        "<kanjidic2>",
        "<reading r_type=\"korean_r\">a</reading>",
        "<meaning m_lang=\"es\">pato</meaning>",
        "",
        "</kanjidic2>",
    ]);
    assert_eq!(parse_dictionary(&text), Ok(Vec::new()));
}
