use packmap::table::StringTable;
use packmap::text::{decimal_text, ends_with, pad_text, same_ignoring_case, same_text, split_text};
use packmap::text::{starts_with, text_after_last, text_lines, text_second_word, text_without};
use packmap::text::{to_chars, trim_text, two_digit_text};

#[test]
fn a_table_keeps_one_value_to_a_key() {
    let mut table: StringTable<String> = StringTable::new();
    assert!(table.is_empty());
    for (key, value) in [("b", "1"), ("a", "2"), ("c", "3"), ("a", "4"), ("", "5")] {
        table.insert(key.to_string(), value.to_string());
    }
    assert_eq!(table.len(), 4);
    assert_eq!(table.get("a"), Some(&"4".to_string()));
    assert_eq!(table.get("d"), None);
    assert!(table.contains_key(""));
    let keys: Vec<String> = (0..table.len()).map(|i| table.key(i).clone()).collect();
    assert_eq!(keys, vec!["", "a", "b", "c"]);
}

#[test]
fn keys_are_ordered_as_strings_are() {
    let mut words = vec!["z", "é", "a", "ab", "A", "𐍈", "\u{ffff}", "~", "/", "."];
    let mut table: StringTable<String> = StringTable::new();
    for word in &words {
        table.insert(word.to_string(), String::new());
    }
    words.sort();
    let keys: Vec<String> = (0..table.len()).map(|i| table.key(i).clone()).collect();
    assert_eq!(keys, words);
}

#[test]
fn texts_are_compared_by_character() {
    assert!(same_text("aä", "aä"));
    assert!(!same_text("a", "A"));
    assert!(!same_text("a", "ab"));
    assert!(starts_with("sound/x", "sound/"));
    assert!(!starts_with("soun", "sound/"));
    assert!(starts_with("x", ""));
    assert!(ends_with("x.wav", ".wav"));
    assert!(!ends_with("wav", ".wav"));
    assert!(same_ignoring_case("BsP", "bsp"));
    assert!(!same_ignoring_case("Ä", "ä"));
    assert_eq!(to_chars("aä"), vec!['a', 'ä']);
}

#[test]
fn texts_are_split() {
    assert_eq!(split_text("a;;b;", ';'), vec!["a", "", "b", ""]);
    assert_eq!(split_text("", ';'), vec![""]);
    assert_eq!(text_lines("a\r\nb\n\nc\r"), vec!["a", "b", "", "c\r"]);
    assert_eq!(text_lines(""), Vec::<String>::new());
    assert_eq!(text_lines("a\n"), vec!["a"]);
    assert_eq!(text_after_last("a/b/c", '/'), "c");
    assert_eq!(text_after_last("abc", '/'), "abc");
    assert_eq!(text_without("a\0b\0", '\0'), "ab");
}

#[test]
fn white_space_is_trimmed_and_separates_words() {
    assert_eq!(trim_text(" \t\r\n\u{b}\u{c}a b\u{85}\u{2028} "), "a b");
    assert_eq!(trim_text(" \n"), "");
    assert_eq!(trim_text("\u{200b}"), "\u{200b}");
    assert_eq!(text_second_word("one  two three"), "two");
    assert_eq!(text_second_word("one"), "");
    assert_eq!(text_second_word("one\u{3000}two"), "two");
}

#[test]
fn white_space_is_told_for_every_character() {
    for c in '\0'..=char::MAX {
        let blank = matches!(
            c,
            '\t'..='\r'
                | ' '
                | '\u{85}'
                | '\u{a0}'
                | '\u{1680}'
                | '\u{2000}'..='\u{200a}'
                | '\u{2028}'
                | '\u{2029}'
                | '\u{202f}'
                | '\u{205f}'
                | '\u{3000}'
        );
        assert_eq!(trim_text(&c.to_string()).is_empty(), blank);
    }
}

#[test]
fn numbers_are_written_in_decimal() {
    assert_eq!(decimal_text(0), "0");
    assert_eq!(decimal_text(10), "10");
    assert_eq!(decimal_text(u128::MAX), u128::MAX.to_string());
    assert_eq!(two_digit_text(0), "00");
    assert_eq!(two_digit_text(7), "07");
    assert_eq!(two_digit_text(42), "42");
    assert_eq!(two_digit_text(1234), "1234");
}

#[test]
fn texts_are_padded_to_a_width() {
    assert_eq!(pad_text("ä", 3), "ä  ");
    assert_eq!(pad_text("abc", 3), "abc");
    assert_eq!(pad_text("abcd", 3), "abcd");
    assert_eq!(pad_text("", 0), "");
}
