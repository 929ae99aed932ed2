use word_practice::parser::{parse_all, parse_file, parse_line, visit, EntryKind, Visit};

fn pair(front: &str, back: &str) -> (String, String) {
    (front.to_string(), back.to_string())
}

#[test]
fn two_lines_give_two_pairs() {
    let pairs = parse_file("cat;chat\nhouse;maison\n".to_string());
    assert_eq!(pairs, vec![pair("cat", "chat"), pair("house", "maison")]);
}

#[test]
fn last_line_needs_no_line_feed() {
    let pairs = parse_file("hello;bonjour\ngoodbye;au revoir".to_string());
    assert_eq!(pairs, vec![pair("hello", "bonjour"), pair("goodbye", "au revoir")]);
}

#[test]
fn empty_text_gives_no_pair() {
    assert_eq!(parse_file(String::new()), Vec::<(String, String)>::new());
}

#[test]
fn blank_lines_and_plain_lines_give_no_pair() {
    let pairs = parse_file("\n\n   \nno delimiter here\n\t\nanother plain line\n\n".to_string());
    assert!(pairs.is_empty());
}

#[test]
fn pair_count_matches_the_lines_that_hold_an_entry() {
    let content = "\
one;un
two ; deux
this line has no delimiter

;missing word
missing definition;
   ;   
three;trois;drei
  four  ;  quatre  
;
five;cinq";
    let pairs = parse_file(content.to_string());
    assert_eq!(pairs.len(), 5);
    assert_eq!(
        pairs,
        vec![
            pair("one", "un"),
            pair("two", "deux"),
            pair("three", "trois;drei"),
            pair("four", "quatre"),
            pair("five", "cinq"),
        ]
    );
}

#[test]
fn line_is_split_at_its_first_delimiter_only() {
    assert_eq!(parse_file("a;b;c\n".to_string()), vec![pair("a", "b;c")]);
    assert_eq!(parse_file("a;;c\n".to_string()), vec![pair("a", ";c")]);
}

#[test]
fn white_space_around_both_halves_is_dropped() {
    assert_eq!(
        parse_file(" \t hello world \t ; \u{a0} bonjour le monde\u{3000}\n".to_string()),
        vec![pair("hello world", "bonjour le monde")]
    );
}

#[test]
fn carriage_returns_at_line_ends_are_dropped() {
    assert_eq!(
        parse_file("cat;chat\r\nhouse;maison\r\n".to_string()),
        vec![pair("cat", "chat"), pair("house", "maison")]
    );
    assert!(parse_file("cat;\r\n".to_string()).is_empty());
}

#[test]
fn half_that_is_empty_once_trimmed_drops_the_line() {
    assert!(parse_file(";chat\n".to_string()).is_empty());
    assert!(parse_file("cat;\n".to_string()).is_empty());
    assert!(parse_file(" ; \n".to_string()).is_empty());
    assert!(parse_file(";".to_string()).is_empty());
    assert_eq!(parse_file(";x\ncat;chat\ny;\n".to_string()), vec![pair("cat", "chat")]);
}

#[test]
fn order_of_the_pairs_is_the_order_of_the_lines() {
    let pairs = parse_file("z;1\na;2\nm;3\n".to_string());
    assert_eq!(pairs, vec![pair("z", "1"), pair("a", "2"), pair("m", "3")]);
}

#[test]
fn case_is_kept_by_the_parser() {
    assert_eq!(parse_file("Cat;Chat\n".to_string()), vec![pair("Cat", "Chat")]);
}

#[test]
fn words_beyond_ascii_are_kept() {
    assert_eq!(
        parse_file("straße;größe\n越;南\n".to_string()),
        vec![pair("straße", "größe"), pair("越", "南")]
    );
}

#[test]
fn reading_the_same_text_twice_gives_the_same_pairs() {
    let content = "cat;chat\nnot an entry\nhouse ; maison\n;\n";
    let first = parse_file(content.to_string());
    let second = parse_file(content.to_string());
    assert_eq!(first, second);
    assert_eq!(first.len(), 2);
}

#[test]
fn one_line_is_read_like_a_line_of_a_file() {
    assert_eq!(parse_line("cat;chat"), Some(pair("cat", "chat")));
    assert_eq!(parse_line("  cat ;  chat  "), Some(pair("cat", "chat")));
    assert_eq!(parse_line("cat;chat;gato"), Some(pair("cat", "chat;gato")));
    assert_eq!(parse_line("cat"), None);
    assert_eq!(parse_line(""), None);
    assert_eq!(parse_line(";chat"), None);
    assert_eq!(parse_line("cat;"), None);
}

#[test]
fn catalog_holds_each_source_under_its_key_in_lower_case() {
    let sources = vec![
        (7u32, "Cat;CHAT\nHouse;Maison\n".to_string()),
        (3u32, "nothing to see".to_string()),
        (9u32, "ÄPFEL;Pommes\n".to_string()),
    ];
    let catalog = parse_all(sources);
    assert_eq!(catalog.len(), 3);
    assert_eq!(catalog[0], (7u32, vec![pair("cat", "chat"), pair("house", "maison")]));
    assert_eq!(catalog[1], (3u32, Vec::new()));
    assert_eq!(catalog[2], (9u32, vec![pair("äpfel", "pommes")]));
}

#[test]
fn catalog_of_no_source_is_empty() {
    let catalog = parse_all(Vec::<(String, String)>::new());
    assert!(catalog.is_empty());
}

#[test]
fn file_is_taken_unless_known_to_be_empty() {
    assert_eq!(visit(Some(EntryKind::File), Some(12)), Visit::Take);
    assert_eq!(visit(Some(EntryKind::File), Some(1)), Visit::Take);
    assert_eq!(visit(Some(EntryKind::File), None), Visit::Take);
    assert_eq!(visit(Some(EntryKind::File), Some(0)), Visit::Skip);
}

#[test]
fn folder_is_walked_through_whatever_its_size() {
    assert_eq!(visit(Some(EntryKind::Directory), Some(4096)), Visit::Descend);
    assert_eq!(visit(Some(EntryKind::Directory), Some(0)), Visit::Descend);
    assert_eq!(visit(Some(EntryKind::Directory), None), Visit::Descend);
}

#[test]
fn other_entries_are_passed_over() {
    assert_eq!(visit(Some(EntryKind::Other), Some(12)), Visit::Skip);
    assert_eq!(visit(None, Some(12)), Visit::Skip);
    assert_eq!(visit(None, None), Visit::Skip);
}
