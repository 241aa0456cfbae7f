use kanji_freq::text::{
    chars_of, contains, find_char_at_byte, matches_at, remove_all, string_of, width_of,
};

fn cv(s: &str) -> Vec<char> {
    s.chars().collect()
}

#[test]
fn chars_of_gives_each_character_in_order() {
    assert_eq!(chars_of(""), Vec::<char>::new());
    assert_eq!(chars_of("abc"), vec!['a', 'b', 'c']);
    assert_eq!(chars_of("日本語a"), vec!['日', '本', '語', 'a']);
}

#[test]
fn string_of_puts_the_characters_together() {
    assert_eq!(string_of(&vec![]), "");
    assert_eq!(string_of(&vec!['a', '日', 'b']), "a日b");
}

#[test]
fn string_of_undoes_chars_of() {
    for s in ["", "x", "<literal>亜</literal>", "つ.ぐ, あ", "𠀋 four bytes"] {
        assert_eq!(string_of(&chars_of(s)), s);
    }
}

#[test]
fn matches_at_tells_where_a_pattern_stands() {
    let s = cv("abcabc");
    let p = cv("bc");
    assert!(!matches_at(&s, &p, 0));
    assert!(matches_at(&s, &p, 1));
    assert!(!matches_at(&s, &p, 2));
    assert!(matches_at(&s, &p, 4));
    assert!(!matches_at(&s, &p, 5));
    assert!(!matches_at(&s, &p, 6));
    assert!(!matches_at(&s, &p, 7));
    assert!(!matches_at(&s, &p, usize::MAX));
}

#[test]
fn matches_at_with_the_empty_pattern() {
    let s = cv("ab");
    let e = cv("");
    assert!(matches_at(&s, &e, 0));
    assert!(matches_at(&s, &e, 2));
    assert!(!matches_at(&s, &e, 3));
}

#[test]
fn contains_agrees_with_std() {
    let texts = ["", "a", "<meaning>Asia</meaning>", "aab", "abab", "日本語の本", "<literal>"];
    let patterns = ["", "a", "ab", "b", "<meaning>", "</meaning>", "本", "語の", "<literal>x"];
    for t in texts {
        for p in patterns {
            assert_eq!(contains(&cv(t), &cv(p)), t.contains(p), "{:?} in {:?}", p, t);
        }
    }
}

#[test]
fn contains_finds_a_pattern_at_the_very_end() {
    assert!(contains(&cv("xx</character>"), &cv("</character>")));
    assert!(!contains(&cv("xx</character"), &cv("</character>")));
}

#[test]
fn remove_all_takes_out_every_occurrence() {
    assert_eq!(remove_all(&cv("<meaning>Asia</meaning>"), &cv("<meaning>")), cv("Asia</meaning>"));
    assert_eq!(remove_all(&cv("abcabc"), &cv("bc")), cv("aa"));
    assert_eq!(remove_all(&cv("abc"), &cv("abc")), cv(""));
    assert_eq!(remove_all(&cv("abc"), &cv("abcd")), cv("abc"));
    assert_eq!(remove_all(&cv(""), &cv("a")), cv(""));
}

#[test]
fn remove_all_does_not_search_what_it_joined() {
    // Taking "ab" out of "aabb" leaves "ab": the search goes on behind the
    // occurrence, not in what is left.
    assert_eq!(remove_all(&cv("aabb"), &cv("ab")), cv("ab"));
    assert_eq!(remove_all(&cv("aaa"), &cv("aa")), cv("a"));
}

#[test]
fn remove_all_with_the_empty_pattern_changes_nothing() {
    assert_eq!(remove_all(&cv("abc"), &cv("")), cv("abc"));
    assert_eq!(remove_all(&cv(""), &cv("")), cv(""));
}

#[test]
fn remove_all_agrees_with_std_replace() {
    let texts = ["", "a", "aaa", "aabb", "ababab", "<reading r_type=\"ja_on\">ア</reading>", "本本日本"];
    let patterns = ["", "a", "aa", "ab", "ba", "</reading>", "本", "日本"];
    for t in texts {
        for p in patterns {
            assert_eq!(string_of(&remove_all(&cv(t), &cv(p))), t.replace(p, ""), "{:?} from {:?}", p, t);
        }
    }
}

#[test]
fn width_of_is_the_utf8_length() {
    assert_eq!(width_of('a'), 1);
    assert_eq!(width_of('\u{7f}'), 1);
    assert_eq!(width_of('\u{80}'), 2);
    assert_eq!(width_of('é'), 2);
    assert_eq!(width_of('\u{7ff}'), 2);
    assert_eq!(width_of('\u{800}'), 3);
    assert_eq!(width_of('亜'), 3);
    assert_eq!(width_of('\u{ffff}'), 3);
    assert_eq!(width_of('\u{10000}'), 4);
    assert_eq!(width_of('𠀋'), 4);
    assert_eq!(width_of('\u{10ffff}'), 4);
    for c in ['\0', 'z', 'ß', 'あ', '語', '😀'] {
        assert_eq!(width_of(c), c.len_utf8());
    }
}

#[test]
fn find_char_at_byte_in_ascii() {
    let s = cv("<literal>亜</literal>");
    assert_eq!(find_char_at_byte(&s, 0), Some(0));
    assert_eq!(find_char_at_byte(&s, 9), Some(9));
    assert_eq!(s[9], '亜');
    // The character takes bytes 9, 10 and 11.
    assert_eq!(find_char_at_byte(&s, 10), None);
    assert_eq!(find_char_at_byte(&s, 11), None);
    assert_eq!(find_char_at_byte(&s, 12), Some(10));
}

#[test]
fn find_char_at_byte_past_the_end() {
    let s = cv("<literal>");
    assert_eq!(find_char_at_byte(&s, 8), Some(8));
    assert_eq!(find_char_at_byte(&s, 9), None);
    assert_eq!(find_char_at_byte(&s, 10), None);
    assert_eq!(find_char_at_byte(&cv(""), 0), None);
    assert_eq!(find_char_at_byte(&cv("a"), usize::MAX), None);
}

#[test]
fn find_char_at_byte_agrees_with_char_indices() {
    for t in ["", "abc", "日本語", "a日b本c", "𠀋x𠀋", "<literal>亜</literal>"] {
        let v = cv(t);
        for offset in 0..t.len() + 3 {
            let expected = t.char_indices().position(|(b, _)| b == offset);
            assert_eq!(find_char_at_byte(&v, offset), expected, "{:?} at {}", t, offset);
        }
    }
}
