use rustdash::objects::{
    advance, get, get_all, has, has_all, has_all_paths, resolve_path, walk,
};
use rustdash::path::{parse_path, Token};
use rustdash::value::Value;

fn key(name: &str) -> Token {
    Token::Key(name.to_string())
}

fn num(n: i64) -> Value {
    Value::integer(n)
}

fn list(items: Vec<Value>) -> Value {
    Value::array(items)
}

fn record(entries: Vec<(&str, Value)>) -> Value {
    Value::object(entries.into_iter().map(|(k, v)| (k.to_string(), v)).collect())
}

#[test]
fn test_parse_dotted_keys() {
    assert_eq!(parse_path("a.b.c"), vec![key("a"), key("b"), key("c")]);
    assert_eq!(parse_path("single"), vec![key("single")]);
}

#[test]
fn test_parse_key_index_key() {
    assert_eq!(
        parse_path("users[0].name"),
        vec![key("users"), Token::Index(0), key("name")]
    );
}

#[test]
fn test_parse_adjacent_brackets() {
    assert_eq!(
        parse_path("matrix[0][1]"),
        vec![key("matrix"), Token::Index(0), Token::Index(1)]
    );
    assert_eq!(
        parse_path("matrix[*][*]"),
        vec![key("matrix"), Token::Wildcard, Token::Wildcard]
    );
    assert_eq!(parse_path("[3][*]"), vec![Token::Index(3), Token::Wildcard]);
}

#[test]
fn test_parse_wildcard() {
    assert_eq!(
        parse_path("users[*].name"),
        vec![key("users"), Token::Wildcard, key("name")]
    );
}

#[test]
fn test_parse_empty_path_has_no_token() {
    assert_eq!(parse_path(""), vec![]);
}

#[test]
fn test_parse_empty_segments_are_empty_keys() {
    assert_eq!(parse_path("a..b"), vec![key("a"), key(""), key("b")]);
    assert_eq!(parse_path("a."), vec![key("a"), key("")]);
    assert_eq!(parse_path(".a"), vec![key(""), key("a")]);
    assert_eq!(parse_path("."), vec![key(""), key("")]);
}

#[test]
fn test_parse_bad_bracket_content_gives_no_token() {
    assert_eq!(parse_path("items[abc]"), vec![key("items")]);
    assert_eq!(parse_path("items[]"), vec![key("items")]);
    assert_eq!(parse_path("items[-1]"), vec![key("items")]);
    assert_eq!(parse_path("items[ 1]"), vec![key("items")]);
    assert_eq!(parse_path("items[1x]"), vec![key("items")]);
    assert_eq!(parse_path("items[**]"), vec![key("items")]);
    assert_eq!(parse_path("items[+]"), vec![key("items")]);
    assert_eq!(parse_path("[abc]"), vec![]);
    assert_eq!(
        parse_path("items[abc][2]"),
        vec![key("items"), Token::Index(2)]
    );
}

#[test]
fn test_parse_index_forms() {
    assert_eq!(parse_path("a[007]"), vec![key("a"), Token::Index(7)]);
    assert_eq!(parse_path("a[+5]"), vec![key("a"), Token::Index(5)]);
    assert_eq!(parse_path("a[0]"), vec![key("a"), Token::Index(0)]);
    assert_eq!(
        parse_path("a[18446744073709551615]"),
        vec![key("a"), Token::Index(usize::MAX)]
    );
}

#[test]
fn test_parse_index_too_large_gives_no_token() {
    assert_eq!(parse_path("a[18446744073709551616]"), vec![key("a")]);
    assert_eq!(
        parse_path("a[99999999999999999999999999]"),
        vec![key("a")]
    );
}

#[test]
fn test_parse_text_after_brackets_is_passed_over() {
    assert_eq!(parse_path("a[0]b"), vec![key("a"), Token::Index(0)]);
    assert_eq!(parse_path("a[0]b[1]"), vec![key("a"), Token::Index(0)]);
    assert_eq!(
        parse_path("a[0]b.c"),
        vec![key("a"), Token::Index(0), key("c")]
    );
}

#[test]
fn test_parse_unclosed_bracket() {
    assert_eq!(parse_path("a[0"), vec![key("a")]);
    assert_eq!(parse_path("a[0][1"), vec![key("a"), Token::Index(0)]);
    assert_eq!(parse_path("a["), vec![key("a")]);
}

#[test]
fn test_parse_closing_bracket_in_key() {
    assert_eq!(parse_path("a]b"), vec![key("a]b")]);
}

#[test]
fn test_get_follows_parsed_tokens() {
    let root = record(vec![(
        "users",
        list(vec![record(vec![("name", Value::text("alice"))])]),
    )]);
    assert_eq!(
        get(&root, "users[0].name", Value::Null),
        Value::text("alice")
    );
}

#[test]
fn test_get_default_on_miss() {
    let root = record(vec![("a", num(1))]);
    assert_eq!(get(&root, "b", num(42)), num(42));
}

#[test]
fn test_get_empty_path_is_the_root() {
    let root = record(vec![("a", num(1))]);
    assert_eq!(get(&root, "", Value::Null), root);
    assert!(has(&root, ""));
    assert_eq!(get_all(&root, ""), vec![root.clone()]);
    assert!(has_all(&root, ""));
}

#[test]
fn test_single_lookup_fails_at_a_wildcard() {
    let root = record(vec![("xs", list(vec![num(1), num(2)]))]);
    assert_eq!(get(&root, "xs[*]", num(-1)), num(-1));
    assert!(!has(&root, "xs[*]"));
    assert!(walk(&root, &parse_path("xs[*]")).is_none());
}

#[test]
fn test_key_on_array_and_index_on_object_fail() {
    let root = record(vec![("xs", list(vec![num(1)])), ("o", record(vec![("0", num(7))]))]);
    assert!(!has(&root, "xs.0"));
    assert!(!has(&root, "o[0]"));
    assert!(has(&root, "o.0"));
    assert!(get_all(&root, "o[0]").is_empty());
    assert!(!has_all(&root, "xs.0"));
}

#[test]
fn test_dropped_bracket_changes_the_path() {
    let root = record(vec![("items", list(vec![num(1), num(2)]))]);
    assert_eq!(
        get(&root, "items[abc]", Value::Null),
        list(vec![num(1), num(2)])
    );
}

#[test]
fn test_nested_wildcards_flatten_in_order() {
    let root = record(vec![(
        "matrix",
        list(vec![list(vec![num(1), num(2)]), list(vec![num(3), num(4)])]),
    )]);
    assert_eq!(
        get_all(&root, "matrix[*][*]"),
        vec![num(1), num(2), num(3), num(4)]
    );
}

#[test]
fn test_wildcard_yields_as_many_as_the_array_holds() {
    for n in 0..5 {
        let items: Vec<Value> = (0..n).map(num).collect();
        let root = record(vec![("a", list(items.clone()))]);
        assert_eq!(get_all(&root, "a[*]"), items);
        assert_eq!(get_all(&root, "a[*]").len(), n as usize);
    }
}

#[test]
fn test_wildcard_count_is_the_sum_over_the_branches() {
    let rows = vec![
        list(vec![num(1), num(2), num(3)]),
        list(vec![]),
        num(9),
        list(vec![num(4)]),
    ];
    let root = record(vec![("m", list(rows.clone()))]);
    let tail = parse_path("[*]");
    let sum: usize = rows.iter().map(|row| resolve_path(row, &tail).len()).sum();
    assert_eq!(sum, 4);
    assert_eq!(get_all(&root, "m[*][*]").len(), sum);
}

#[test]
fn test_wildcard_on_what_is_no_array() {
    let root = record(vec![("a", record(vec![("b", num(1))])), ("s", Value::text("xyz"))]);
    assert!(get_all(&root, "a[*]").is_empty());
    assert!(get_all(&root, "s[*]").is_empty());
    assert!(!has_all(&root, "a[*]"));
    assert!(!has_all(&root, "s[*]"));
}

#[test]
fn test_has_all_over_empty_array_is_false() {
    let root = record(vec![("xs", list(vec![]))]);
    assert!(!has_all(&root, "xs[*].y"));
    assert!(!has_all(&root, "xs[*]"));
    assert!(has_all(&root, "xs"));
}

#[test]
fn test_has_all_one_missing_among_many() {
    let with = |email: bool| {
        let mut fields = vec![("name", Value::text("n"))];
        if email {
            fields.push(("email", Value::text("x")));
        }
        record(fields)
    };
    let all = record(vec![("users", list(vec![with(true), with(true), with(true)]))]);
    assert!(has_all(&all, "users[*].email"));
    for missing in 0..3 {
        let users: Vec<Value> = (0..3).map(|i| with(i != missing)).collect();
        let root = record(vec![("users", list(users))]);
        assert!(!has_all(&root, "users[*].email"));
        assert_eq!(get_all(&root, "users[*].email").len(), 2);
    }
}

#[test]
fn test_has_all_second_user_without_email() {
    let root = record(vec![(
        "users",
        list(vec![
            record(vec![("name", Value::text("a")), ("email", Value::text("x"))]),
            record(vec![("name", Value::text("b"))]),
        ]),
    )]);
    assert!(!has_all(&root, "users[*].email"));
}

#[test]
fn test_walkers_on_tokens() {
    let root = record(vec![("a", list(vec![num(5), num(6)]))]);
    let tokens = vec![key("a"), Token::Index(1)];
    assert_eq!(walk(&root, &tokens), Some(&num(6)));
    assert_eq!(resolve_path(&root, &tokens), vec![num(6)]);
    assert!(has_all_paths(&root, &tokens));
    let tokens = vec![key("a"), Token::Index(2)];
    assert_eq!(walk(&root, &tokens), None);
    assert!(resolve_path(&root, &tokens).is_empty());
    assert!(!has_all_paths(&root, &tokens));
    assert_eq!(advance(&root, &key("a")), Some(&list(vec![num(5), num(6)])));
    assert_eq!(advance(&root, &Token::Wildcard), None);
    assert_eq!(advance(&root, &Token::Index(0)), None);
}

#[test]
fn test_later_entry_shadows_earlier_one() {
    let raw = Value::Object(vec![
        ("a".to_string(), num(1)),
        ("b".to_string(), num(2)),
        ("a".to_string(), num(3)),
    ]);
    assert_eq!(get(&raw, "a", Value::Null), num(3));
    assert_eq!(get_all(&raw, "a"), vec![num(3)]);
}
