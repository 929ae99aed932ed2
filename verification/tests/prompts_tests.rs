use word_practice::gui::AppState;
use word_practice::parser::parse_file;
use word_practice::prompts::edit::{check_field, encode, FieldCheck};
use word_practice::prompts::learn::PathPart;
use word_practice::{SOURCE_FOLDER_NAME, SPLIT_DELIMITER};

fn pair(front: &str, back: &str) -> (String, String) {
    (front.to_string(), back.to_string())
}

fn parts(names: &[&str]) -> Vec<String> {
    names.iter().map(|name| name.to_string()).collect()
}

#[test]
fn constants_are_those_of_the_file_format() {
    assert_eq!(SPLIT_DELIMITER, ';');
    assert_eq!(SOURCE_FOLDER_NAME, "source");
}

#[test]
fn field_with_the_delimiter_is_refused() {
    assert_eq!(check_field("a;b"), FieldCheck::HasDelimiter);
    assert_eq!(check_field(";"), FieldCheck::HasDelimiter);
    assert_eq!(check_field("chat;"), FieldCheck::HasDelimiter);
}

#[test]
fn field_without_text_is_refused() {
    assert_eq!(check_field(""), FieldCheck::Empty);
}

#[test]
fn any_other_field_is_accepted() {
    assert_eq!(check_field("chat"), FieldCheck::Valid);
    assert_eq!(check_field("au revoir"), FieldCheck::Valid);
    assert_eq!(check_field(" "), FieldCheck::Valid);
    assert_eq!(check_field("a:b,c"), FieldCheck::Valid);
}

#[test]
fn pairs_are_stored_one_per_line() {
    let pairs = vec![pair("hello", "bonjour"), pair("goodbye", "au revoir")];
    assert_eq!(encode(&pairs), "hello;bonjour\ngoodbye;au revoir\n");
    assert_eq!(encode(&Vec::new()), "");
    assert_eq!(encode(&vec![pair("a", "b")]), "a;b\n");
}

#[test]
fn what_is_stored_is_read_back() {
    let pairs = vec![pair("cat", "chat"), pair("house", "la maison"), pair("越", "南")];
    assert_eq!(parse_file(encode(&pairs)), pairs);
}

#[test]
fn what_was_read_is_stored_and_read_back_the_same() {
    let first = parse_file(" cat ; chat \nplain\nhouse;maison;casa\n;\n".to_string());
    let second = parse_file(encode(&first));
    assert_eq!(first, second);
}

#[test]
fn label_is_the_path_below_the_source_folder() {
    assert_eq!(PathPart::new(parts(&[".", "source", "animals.txt"])).label(), "animals.txt");
    assert_eq!(
        PathPart::new(parts(&[".", "source", "french", "animals.txt"])).label(),
        "french/animals.txt"
    );
    assert_eq!(
        PathPart::new(parts(&[".", "source", "a", "b", "c.txt"])).label(),
        "a/b/c.txt"
    );
}

#[test]
fn label_of_a_path_that_ends_at_the_source_folder_is_empty() {
    assert_eq!(PathPart::new(parts(&[".", "source"])).label(), "");
    assert_eq!(PathPart::new(parts(&["."])).label(), "");
    assert_eq!(PathPart::new(Vec::new()).label(), "");
}

#[test]
fn window_state_holds_the_text_it_was_made_with() {
    assert_eq!(AppState::new("guess").name(), "guess");
    assert_eq!(AppState::new("").name(), "");
}
