use rustdash::strings::{
    _trim, _trim_end, _trim_start, _words, emit, lower_char, space, to_parse, to_parse_single,
    tokenize, upper_char, StringMode,
};
use rustdash::strings_helpers::{clean_delimiters, split_capitalized_words};

const MODES: [StringMode; 4] = [
    StringMode::CamelCase,
    StringMode::SnakeCase,
    StringMode::KebabCase,
    StringMode::PascalCase,
];

#[test]
fn test_acronym_then_word_camel() {
    assert_eq!(
        to_parse_single("XMLHttpRequest", &StringMode::CamelCase),
        "xmlHttpRequest"
    );
}

#[test]
fn test_acronym_then_word_snake() {
    assert_eq!(
        to_parse_single("HTTPSConnection", &StringMode::SnakeCase),
        "https_connection"
    );
}

#[test]
fn test_tokenize_boundaries() {
    assert_eq!(tokenize("getJSON"), vec!["get", "JSON"]);
    assert_eq!(tokenize("XMLHttpRequest"), vec!["XML", "Http", "Request"]);
    assert_eq!(tokenize("HTTPSConnection"), vec!["HTTPS", "Connection"]);
    assert_eq!(tokenize("helloWorld"), vec!["hello", "World"]);
    assert_eq!(tokenize("ABC"), vec!["ABC"]);
    assert_eq!(tokenize("aB"), vec!["a", "B"]);
    assert_eq!(tokenize("ABc"), vec!["A", "Bc"]);
}

#[test]
fn test_tokenize_digits_make_no_boundary() {
    assert_eq!(tokenize("user123name"), vec!["user123name"]);
    assert_eq!(tokenize("version_2_api"), vec!["version", "2", "api"]);
    assert_eq!(tokenize("version2Api"), vec!["version2Api"]);
    assert_eq!(tokenize("A1b"), vec!["A1b"]);
}

#[test]
fn test_tokenize_empty_and_delimiters_only() {
    let none: Vec<&str> = vec![];
    assert_eq!(tokenize(""), none);
    assert_eq!(tokenize("_"), none);
    assert_eq!(tokenize("_- -_"), none);
}

#[test]
fn test_tokenize_mixed_delimiters_and_capitals() {
    assert_eq!(
        tokenize("MixedFormat_with-everything here"),
        vec!["Mixed", "Format", "with", "everything", "here"]
    );
}

#[test]
fn test_clean_delimiters_pieces() {
    assert_eq!(clean_delimiters("_a__b-c d_"), vec!["a", "b", "c", "d"]);
    assert_eq!(clean_delimiters("plain"), vec!["plain"]);
    assert_eq!(clean_delimiters("fooBar_baz"), vec!["fooBar", "baz"]);
    assert_eq!(clean_delimiters("tab\tstays"), vec!["tab\tstays"]);
    let none: Vec<&str> = vec![];
    assert_eq!(clean_delimiters(""), none);
    assert_eq!(clean_delimiters("---"), none);
}

#[test]
fn test_split_capitalized_words_pieces() {
    assert_eq!(
        split_capitalized_words(vec!["fooBar", "baz", "IOError"]),
        vec!["foo", "Bar", "baz", "IO", "Error"]
    );
    assert_eq!(split_capitalized_words(vec!["lower"]), vec!["lower"]);
    assert_eq!(split_capitalized_words(vec!["Upper"]), vec!["Upper"]);
    assert_eq!(split_capitalized_words(vec!["aBcD"]), vec!["a", "Bc", "D"]);
    let none: Vec<&str> = vec![];
    assert_eq!(split_capitalized_words(vec![]), none);
}

#[test]
fn test_split_capitalized_words_keeps_empty_piece() {
    assert_eq!(split_capitalized_words(vec!["", "aB"]), vec!["", "a", "B"]);
}

#[test]
fn test_emit_each_mode() {
    let words = vec!["XML", "http", "REQUEST"];
    assert_eq!(emit(&words, StringMode::CamelCase), "xmlHttpRequest");
    assert_eq!(emit(&words, StringMode::PascalCase), "XmlHttpRequest");
    assert_eq!(emit(&words, StringMode::SnakeCase), "xml_http_request");
    assert_eq!(emit(&words, StringMode::KebabCase), "xml-http-request");
}

#[test]
fn test_emit_no_words() {
    let words: Vec<&str> = vec![];
    for mode in MODES {
        assert_eq!(emit(&words, mode), "");
    }
}

#[test]
fn test_emit_one_character_words() {
    let words = vec!["a", "B", "c"];
    assert_eq!(emit(&words, StringMode::CamelCase), "aBC");
    assert_eq!(emit(&words, StringMode::PascalCase), "ABC");
    assert_eq!(emit(&words, StringMode::SnakeCase), "a_b_c");
    assert_eq!(emit(&words, StringMode::KebabCase), "a-b-c");
}

#[test]
fn test_emit_word_starting_with_digit() {
    let words = vec!["api", "2go"];
    assert_eq!(emit(&words, StringMode::CamelCase), "api2go");
    assert_eq!(emit(&words, StringMode::PascalCase), "Api2go");
}

#[test]
fn test_letters_outside_a_to_z_are_left_alone() {
    assert_eq!(
        to_parse_single("élan_VITAL", &StringMode::PascalCase),
        "élanVital"
    );
    assert_eq!(
        to_parse_single("ÉCOLE", &StringMode::SnakeCase),
        "École"
    );
}

#[test]
fn test_empty_string_all_modes() {
    for mode in MODES {
        assert_eq!(to_parse_single("", &mode), "");
    }
}

#[test]
fn test_to_parse_keeps_length_and_order() {
    let input = vec!["b_a".to_string(), "".to_string(), "aB".to_string()];
    assert_eq!(
        to_parse(input, StringMode::KebabCase),
        vec!["b-a".to_string(), "".to_string(), "a-b".to_string()]
    );
    let none: Vec<String> = vec![];
    assert_eq!(to_parse(none.clone(), StringMode::CamelCase), none);
}

#[test]
fn test_converting_twice_changes_nothing() {
    let inputs = [
        "hello_world",
        "XMLHttpRequest",
        "getJSON",
        "foo-bar baz",
        "alreadyCamelCase",
        "user123name",
        "a_2b",
        "x",
        "_",
    ];
    for s in inputs {
        for mode in MODES {
            let once = to_parse_single(s, &mode);
            assert_eq!(to_parse_single(&once, &mode), once, "{s} in {mode:?}");
        }
    }
}

#[test]
fn test_snake_and_kebab_settle_on_any_input() {
    let inputs = ["a_b_c", "version_2_api", "ABC", "x-y-z", "aBC", "A1B2"];
    for s in inputs {
        for mode in [StringMode::SnakeCase, StringMode::KebabCase] {
            let once = to_parse_single(s, &mode);
            assert_eq!(to_parse_single(&once, &mode), once);
        }
    }
}

#[test]
fn test_capital_inside_a_word_is_lost_on_second_conversion() {
    let once = to_parse_single("a_b_c", &StringMode::CamelCase);
    assert_eq!(once, "aBC");
    assert_eq!(to_parse_single(&once, &StringMode::CamelCase), "aBc");
    let once = to_parse_single("version_2_api", &StringMode::CamelCase);
    assert_eq!(once, "version2Api");
    assert_eq!(to_parse_single(&once, &StringMode::CamelCase), "version2api");
    let once = to_parse_single("a_b_c", &StringMode::PascalCase);
    assert_eq!(once, "ABC");
    assert_eq!(to_parse_single(&once, &StringMode::PascalCase), "Abc");
}

#[test]
fn test_snake_to_camel_and_back() {
    let camel = to_parse_single("hello_world", &StringMode::CamelCase);
    assert_eq!(camel, "helloWorld");
    assert_eq!(to_parse_single(&camel, &StringMode::SnakeCase), "hello_world");
    let camel = to_parse_single("parse_http_response", &StringMode::CamelCase);
    assert_eq!(
        to_parse_single(&camel, &StringMode::SnakeCase),
        "parse_http_response"
    );
}

#[test]
fn test_digit_at_a_joint_merges_words_on_the_way_back() {
    let camel = to_parse_single("version_2_api", &StringMode::CamelCase);
    assert_eq!(to_parse_single(&camel, &StringMode::SnakeCase), "version2api");
}

#[test]
fn test_trim_takes_every_kind_of_white_space() {
    let padded = "\u{a0}\u{2003}\r\n x y \u{3000}\u{85}\u{b}\u{c}";
    assert_eq!(_trim(padded), padded.trim());
    assert_eq!(_trim(padded), "x y");
    assert_eq!(_trim_start(padded), padded.trim_start());
    assert_eq!(_trim_end(padded), padded.trim_end());
    assert_eq!(_words(padded), padded.split_whitespace().collect::<Vec<_>>());
    assert_eq!(_trim("\u{200b}x"), "\u{200b}x");
}

#[test]
fn test_white_space_is_what_the_standard_library_counts() {
    for n in 0..0x11000u32 {
        if let Some(c) = char::from_u32(n) {
            assert_eq!(space(c), c.is_whitespace(), "{n:#x}");
        }
    }
}

#[test]
fn test_case_of_letters_is_that_of_the_standard_library_on_ascii() {
    for n in 0..128u8 {
        let c = n as char;
        assert_eq!(lower_char(c), c.to_ascii_lowercase());
        assert_eq!(upper_char(c), c.to_ascii_uppercase());
        assert_eq!(lower_char(c).to_string(), c.to_lowercase().to_string());
        assert_eq!(upper_char(c).to_string(), c.to_uppercase().to_string());
    }
    assert_eq!(lower_char('É'), 'É');
    assert_eq!(upper_char('ß'), 'ß');
}
