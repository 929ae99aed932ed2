use word_practice::text::{
    chars_of, find, is_whitespace, same_text, string_of, trim_bounds, trimmed,
};

#[test]
fn white_space_is_what_the_standard_library_calls_so() {
    let mut count = 0;
    for c in '\0'..=char::MAX {
        assert_eq!(is_whitespace(c), c.is_whitespace(), "at {:?}", c);
        if is_whitespace(c) {
            count += 1;
        }
    }
    assert_eq!(count, 25);
}

#[test]
fn common_white_space_and_common_letters() {
    assert!(is_whitespace(' '));
    assert!(is_whitespace('\n'));
    assert!(is_whitespace('\r'));
    assert!(is_whitespace('\t'));
    assert!(is_whitespace('\u{a0}'));
    assert!(!is_whitespace(';'));
    assert!(!is_whitespace('a'));
    assert!(!is_whitespace('越'));
    assert!(!is_whitespace('\u{200b}'));
}

#[test]
fn trimmed_is_what_the_standard_library_trims() {
    let samples = [
        "",
        " ",
        " \t\r\n ",
        "a",
        " a",
        "a ",
        "  a b  ",
        "\u{3000}mot\u{a0}",
        " Bonjour ",
        "inner  space",
        "\n\nline\n",
        "zero\u{200b}width\u{200b}",
    ];
    for sample in samples {
        assert_eq!(trimmed(sample), sample.trim());
    }
}

#[test]
fn trimmed_gives_exact_texts() {
    assert_eq!(trimmed("  hello world \n"), "hello world");
    assert_eq!(trimmed("   "), "");
    assert_eq!(trimmed(""), "");
}

#[test]
fn characters_and_back() {
    let chars = chars_of("aé越;");
    assert_eq!(chars, vec!['a', 'é', '越', ';']);
    assert_eq!(string_of(&chars, 0, 4), "aé越;");
    assert_eq!(string_of(&chars, 1, 3), "é越");
    assert_eq!(string_of(&chars, 2, 2), "");
    assert!(chars_of("").is_empty());
}

#[test]
fn find_gives_the_first_place_or_the_end() {
    let chars = chars_of("ab;cd;ef");
    assert_eq!(find(&chars, 0, 8, ';'), 2);
    assert_eq!(find(&chars, 3, 8, ';'), 5);
    assert_eq!(find(&chars, 6, 8, ';'), 8);
    assert_eq!(find(&chars, 0, 2, ';'), 2);
    assert_eq!(find(&chars, 2, 8, ';'), 2);
    assert_eq!(find(&chars, 4, 4, ';'), 4);
}

#[test]
fn trim_bounds_enclose_what_is_no_white_space() {
    let chars = chars_of("  ab c  ;  ");
    assert_eq!(trim_bounds(&chars, 0, 8), (2, 6));
    assert_eq!(trim_bounds(&chars, 2, 6), (2, 6));
    assert_eq!(trim_bounds(&chars, 9, 11), (11, 11));
    assert_eq!(trim_bounds(&chars, 0, 2), (2, 2));
    assert_eq!(trim_bounds(&chars, 5, 5), (5, 5));
}

#[test]
fn same_text_compares_the_characters() {
    assert!(same_text(&"chat".to_string(), &"chat".to_string()));
    assert!(!same_text(&"chat".to_string(), &"Chat".to_string()));
    assert!(!same_text(&"chat".to_string(), &"chats".to_string()));
    assert!(same_text(&String::new(), &String::new()));
}
