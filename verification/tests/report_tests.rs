use kanji_freq::analysis::{analyze, analyze_with, kanji_frequencies};
use kanji_freq::dictionary::{parse_dictionary, Kanji};
use kanji_freq::han::HanMatcher;
use kanji_freq::report::{
    format_card, format_cards, format_pair, format_unmatched, format_unmatched_notice, has_char,
    merge, push_decimal, FIELD_SEPARATOR, LINE_END, UNMATCHED_HEADING,
};

fn entry(kanji: &str, onyomi: &str, kunyomi: &str, meaning: &str) -> Kanji {
    Kanji {
        kanji: kanji.to_string(),
        onyomi: onyomi.to_string(),
        kunyomi: kunyomi.to_string(),
        meaning: meaning.to_string(),
    }
}

fn dict() -> Vec<Kanji> {
    vec![
        entry("日", "ニチ, ジツ", "ひ, -び, -か", "day, sun, Japan"),
        entry("本", "ホン", "もと", "book, present, main"),
        entry("人", "ジン, ニン", "ひと", "person"),
    ]
}

#[test]
fn has_char_looks_through_the_string() {
    assert!(has_char("日", '日'));
    assert!(has_char("ab日", '日'));
    assert!(has_char("日ab", '日'));
    assert!(!has_char("", '日'));
    assert!(!has_char("本", '日'));
}

#[test]
fn merge_follows_the_order_of_the_counts() {
    let d = dict();
    let counts = vec![('本', 3), ('日', 2), ('語', 1)];
    let r = merge(&counts, &d);
    assert_eq!(r.matched, vec![&d[1], &d[0]]);
    assert_eq!(r.unmatched, vec![('語', 1)]);
}

#[test]
fn merge_with_nothing() {
    let d = dict();
    let r = merge(&Vec::new(), &d);
    assert!(r.matched.is_empty());
    assert!(r.unmatched.is_empty());
    let none: Vec<Kanji> = Vec::new();
    let r = merge(&vec![('日', 1), ('本', 1)], &none);
    assert!(r.matched.is_empty());
    assert_eq!(r.unmatched, vec![('日', 1), ('本', 1)]);
}

#[test]
fn merge_gives_every_entry_that_holds_the_character() {
    let d = vec![entry("亜唖", "", "", "both"), entry("本", "", "", "book"), entry("亜", "", "", "one")];
    let r = merge(&vec![('亜', 5), ('唖', 1)], &d);
    assert_eq!(r.matched, vec![&d[0], &d[2], &d[0]]);
    assert!(r.unmatched.is_empty());
}

#[test]
fn merge_passes_over_entries_without_a_character() {
    let d = vec![entry("", "", "", "empty"), entry("日", "", "", "day")];
    let r = merge(&vec![('日', 1)], &d);
    assert_eq!(r.matched, vec![&d[1]]);
}

#[test]
fn a_card_is_kanji_meaning_onyomi_kunyomi() {
    assert_eq!(FIELD_SEPARATOR, "; ");
    assert_eq!(LINE_END, "\n");
    assert_eq!(
        format_card(&entry("亜", "ア", "つ.ぐ", "Asia, rank next")),
        "亜; Asia, rank next; ア; つ.ぐ\n"
    );
    assert_eq!(format_card(&entry("", "", "", "")), "; ; ; \n");
}

#[test]
fn cards_follow_each_other() {
    let d = dict();
    assert_eq!(format_cards(&Vec::new()), "");
    assert_eq!(
        format_cards(&vec![&d[1], &d[0]]),
        "本; book, present, main; ホン; もと\n日; day, sun, Japan; ニチ, ジツ; ひ, -び, -か\n"
    );
}

#[test]
fn decimal_digits() {
    for (n, text) in [
        (0u64, "0"),
        (7, "7"),
        (9, "9"),
        (10, "10"),
        (42, "42"),
        (100, "100"),
        (1234567890, "1234567890"),
        (u64::MAX, "18446744073709551615"),
    ] {
        let mut s = String::new();
        push_decimal(&mut s, n);
        assert_eq!(s, text);
        assert_eq!(s, n.to_string());
    }
    let mut s = String::from("n=");
    push_decimal(&mut s, 305);
    assert_eq!(s, "n=305");
}

#[test]
fn a_pair_is_written_in_round_brackets() {
    assert_eq!(format_pair("'語'", 1), "('語', 1)");
    assert_eq!(format_pair("", 0), "(, 0)");
    assert_eq!(format_pair("x", u64::MAX), "(x, 18446744073709551615)");
}

#[test]
fn an_unmatched_line_is_the_pair() {
    assert_eq!(format_unmatched(('語', 1)), "('語', 1)");
    assert_eq!(format_unmatched(('亜', 120)), "('亜', 120)");
    assert_eq!(format_unmatched(('\'', 3)), "('\\'', 3)");
    assert_eq!(format_unmatched(('\n', 0)), "('\\n', 0)");
    for e in [('a', 0u64), ('龍', 99), ('\u{0}', u64::MAX), ('\u{301}', 5)] {
        assert_eq!(format_unmatched(e), format!("{:?}", e));
        assert_eq!(format_unmatched(e), format!("{:?}", &e));
    }
}

#[test]
fn the_notice_is_empty_where_nothing_is_unmatched() {
    assert!(format_unmatched_notice(&Vec::new()).is_empty());
}

#[test]
fn the_notice_has_a_heading_and_a_line_each() {
    assert_eq!(UNMATCHED_HEADING, "These kanjis were not found in the dictionary:");
    assert_eq!(
        format_unmatched_notice(&vec![('語', 1), ('龍', 12)]),
        vec![
            "These kanjis were not found in the dictionary:".to_string(),
            "('語', 1)".to_string(),
            "('龍', 12)".to_string(),
        ]
    );
}

#[test]
fn kanji_frequencies_counts_filters_and_orders() {
    let m = HanMatcher::new().unwrap();
    assert_eq!(
        kanji_frequencies(&m, "日本語の本。日本!"),
        vec![('本', 3), ('日', 2), ('語', 1)]
    );
    assert_eq!(kanji_frequencies(&m, ""), Vec::<(char, u64)>::new());
    assert_eq!(kanji_frequencies(&m, "no kanji here, ひらがな"), Vec::<(char, u64)>::new());
}

#[test]
fn kanji_of_equal_frequency_keep_their_first_occurrence_order() {
    let m = HanMatcher::new().unwrap();
    assert_eq!(
        kanji_frequencies(&m, "山川山川海人海"),
        vec![('山', 2), ('川', 2), ('海', 2), ('人', 1)]
    );
}

#[test]
fn analyze_joins_text_and_dictionary() {
    let d = dict();
    let r = analyze("日本語の本。日本!", &d).unwrap();
    assert_eq!(r.matched, vec![&d[1], &d[0]]);
    assert_eq!(r.unmatched, vec![('語', 1)]);
    assert_eq!(
        format_cards(&r.matched),
        "本; book, present, main; ホン; もと\n日; day, sun, Japan; ニチ, ジツ; ひ, -び, -か\n"
    );
    assert_eq!(
        format_unmatched_notice(&r.unmatched),
        vec![UNMATCHED_HEADING.to_string(), "('語', 1)".to_string()]
    );
}

#[test]
fn analyze_with_gives_what_analyze_gives() {
    let d = dict();
    let m = HanMatcher::new().unwrap();
    let text = "人と人、本日は日本の本";
    let a = analyze(text, &d).unwrap();
    let b = analyze_with(&m, text, &d);
    assert_eq!(a.matched, b.matched);
    assert_eq!(a.unmatched, b.unmatched);
    // 本 occurs three times; 人 and 日 twice each, 人 first.
    assert_eq!(a.matched, vec![&d[1], &d[2], &d[0]]);
    assert!(a.unmatched.is_empty());
}

#[test]
fn from_dictionary_lines_to_cards() {
    let lines: Vec<String> = [
        "<character>",
        "<literal>亜</literal>",
        "<reading r_type=\"ja_on\">ア</reading>",
        "<reading r_type=\"ja_kun\">つ.ぐ</reading>",
        "<meaning>Asia</meaning>",
        "<meaning>rank next</meaning>",
        "</character>",
        "<character>",
        "<literal>唖</literal>",
        "<reading r_type=\"ja_on\">ア</reading>",
        "<reading r_type=\"ja_on\">アク</reading>",
        "<reading r_type=\"ja_kun\">おし</reading>",
        "<meaning>mute</meaning>",
        "</character>",
    ]
    .iter()
    .map(|s| s.to_string())
    .collect();
    let d = parse_dictionary(&lines).unwrap();
    let r = analyze("唖然、亜流、唖", &d).unwrap();
    assert_eq!(
        format_cards(&r.matched),
        "唖; mute; ア, アク; おし\n亜; Asia, rank next; ア; つ.ぐ\n"
    );
    assert_eq!(r.unmatched, vec![('然', 1), ('流', 1)]);
}
