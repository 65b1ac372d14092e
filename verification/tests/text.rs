use rustdash::strings::{
    _capitalize, _lower_case, _trim, _trim_end, _trim_start, _upper_case, _words,
};

#[test]
fn test_capitalize_basic() {
    assert_eq!(_capitalize("hello"), "Hello");
    assert_eq!(_capitalize("world"), "World");
    assert_eq!(_capitalize("rust"), "Rust");
}

#[test]
fn test_capitalize_already_capitalized() {
    assert_eq!(_capitalize("Hello"), "Hello");
    assert_eq!(_capitalize("HELLO"), "Hello");
}

#[test]
fn test_capitalize_empty_string() {
    assert_eq!(_capitalize(""), "");
}

#[test]
fn test_capitalize_single_char() {
    assert_eq!(_capitalize("a"), "A");
    assert_eq!(_capitalize("Z"), "Z");
}

#[test]
fn test_capitalize_with_spaces() {
    assert_eq!(_capitalize("hello world"), "Hello world");
}

#[test]
fn test_capitalize_numbers() {
    assert_eq!(_capitalize("123abc"), "123abc");
    assert_eq!(_capitalize("a123"), "A123");
}

#[test]
fn test_upper_case_basic() {
    assert_eq!(_upper_case("hello"), "HELLO");
    assert_eq!(_upper_case("world"), "WORLD");
    assert_eq!(_upper_case("rust"), "RUST");
}

#[test]
fn test_upper_case_already_upper() {
    assert_eq!(_upper_case("HELLO"), "HELLO");
}

#[test]
fn test_upper_case_mixed() {
    assert_eq!(_upper_case("HeLLo WoRLd"), "HELLO WORLD");
}

#[test]
fn test_upper_case_empty_string() {
    assert_eq!(_upper_case(""), "");
}

#[test]
fn test_upper_case_with_numbers() {
    assert_eq!(_upper_case("hello123"), "HELLO123");
    assert_eq!(_upper_case("test_case"), "TEST_CASE");
}

#[test]
fn test_lower_case_basic() {
    assert_eq!(_lower_case("HELLO"), "hello");
    assert_eq!(_lower_case("WORLD"), "world");
    assert_eq!(_lower_case("RUST"), "rust");
}

#[test]
fn test_lower_case_already_lower() {
    assert_eq!(_lower_case("hello"), "hello");
}

#[test]
fn test_lower_case_mixed() {
    assert_eq!(_lower_case("HeLLo WoRLd"), "hello world");
}

#[test]
fn test_lower_case_empty_string() {
    assert_eq!(_lower_case(""), "");
}

#[test]
fn test_lower_case_with_numbers() {
    assert_eq!(_lower_case("HELLO123"), "hello123");
    assert_eq!(_lower_case("TEST_CASE"), "test_case");
}

#[test]
fn test_trim_basic() {
    assert_eq!(_trim("  hello  "), "hello");
    assert_eq!(_trim("   world   "), "world");
}

#[test]
fn test_trim_no_whitespace() {
    assert_eq!(_trim("hello"), "hello");
}

#[test]
fn test_trim_only_whitespace() {
    assert_eq!(_trim("   "), "");
    assert_eq!(_trim("\t\n"), "");
}

#[test]
fn test_trim_empty_string() {
    assert_eq!(_trim(""), "");
}

#[test]
fn test_trim_tabs_and_newlines() {
    assert_eq!(_trim("\thello\n"), "hello");
    assert_eq!(_trim("\n\t  hello world  \t\n"), "hello world");
}

#[test]
fn test_trim_internal_spaces_preserved() {
    assert_eq!(_trim("  hello world  "), "hello world");
}

#[test]
fn test_trim_start_basic() {
    assert_eq!(_trim_start("  hello"), "hello");
    assert_eq!(_trim_start("   world"), "world");
}

#[test]
fn test_trim_start_trailing_preserved() {
    assert_eq!(_trim_start("  hello  "), "hello  ");
}

#[test]
fn test_trim_start_no_leading_whitespace() {
    assert_eq!(_trim_start("hello  "), "hello  ");
}

#[test]
fn test_trim_start_empty_string() {
    assert_eq!(_trim_start(""), "");
}

#[test]
fn test_trim_start_tabs_and_newlines() {
    assert_eq!(_trim_start("\t\nhello"), "hello");
}

#[test]
fn test_trim_end_basic() {
    assert_eq!(_trim_end("hello  "), "hello");
    assert_eq!(_trim_end("world   "), "world");
}

#[test]
fn test_trim_end_leading_preserved() {
    assert_eq!(_trim_end("  hello  "), "  hello");
}

#[test]
fn test_trim_end_no_trailing_whitespace() {
    assert_eq!(_trim_end("  hello"), "  hello");
}

#[test]
fn test_trim_end_empty_string() {
    assert_eq!(_trim_end(""), "");
}

#[test]
fn test_trim_end_tabs_and_newlines() {
    assert_eq!(_trim_end("hello\t\n"), "hello");
}

#[test]
fn test_words_basic() {
    assert_eq!(_words("hello world foo"), vec!["hello", "world", "foo"]);
}

#[test]
fn test_words_single_word() {
    assert_eq!(_words("hello"), vec!["hello"]);
}

#[test]
fn test_words_multiple_spaces() {
    assert_eq!(_words("hello   world"), vec!["hello", "world"]);
}

#[test]
fn test_words_leading_trailing_spaces() {
    assert_eq!(_words("  hello world  "), vec!["hello", "world"]);
}

#[test]
fn test_words_empty_string() {
    let empty: Vec<&str> = vec![];
    assert_eq!(_words(""), empty);
}

#[test]
fn test_words_only_whitespace() {
    let empty: Vec<&str> = vec![];
    assert_eq!(_words("   "), empty);
}

#[test]
fn test_words_tabs_and_newlines() {
    assert_eq!(_words("hello\tworld\nfoo"), vec!["hello", "world", "foo"]);
}

#[test]
fn test_words_mixed_whitespace() {
    assert_eq!(
        _words("  hello \t world \n foo  "),
        vec!["hello", "world", "foo"]
    );
}
