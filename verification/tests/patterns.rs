use rust_db::pattern::{escape_like, like, parse_pattern, prefix_pattern, tokens_accept, Token};
use rust_db::text::chars_of;

fn accepts(pattern: &str, text: &str) -> bool {
    like(pattern, text).expect("well-formed pattern")
}

#[test]
fn escape_like_leaves_plain_text_alone() {
    assert_eq!(escape_like(""), "");
    assert_eq!(escape_like("user:1"), "user:1");
    assert_eq!(escape_like("a/b c-d.e"), "a/b c-d.e");
    assert_eq!(escape_like("\u{e9}\u{1f600}"), "\u{e9}\u{1f600}");
}

#[test]
fn escape_like_escapes_each_special_character() {
    assert_eq!(escape_like("%"), "\\%");
    assert_eq!(escape_like("_"), "\\_");
    assert_eq!(escape_like("\\"), "\\\\");
    assert_eq!(escape_like("100%"), "100\\%");
    assert_eq!(escape_like("use_case"), "use\\_case");
    assert_eq!(escape_like("a_b\\c%d"), "a\\_b\\\\c\\%d");
    assert_eq!(escape_like("\\%"), "\\\\\\%");
    assert_eq!(escape_like("%%__\\\\"), "\\%\\%\\_\\_\\\\\\\\");
}

#[test]
fn escape_like_agrees_with_replacing_the_escape_first() {
    for text in ["", "plain", "100%", "a_b", "\\", "\\%", "%\\_", "\\\\%%__", "x\\%y_z\\", "\u{e9}%"] {
        let by_passes = text.replace('\\', "\\\\").replace('%', "\\%").replace('_', "\\_");
        assert_eq!(escape_like(text), by_passes);
    }
}

#[test]
fn prefix_pattern_ends_in_one_wildcard() {
    assert_eq!(prefix_pattern(""), "%");
    assert_eq!(prefix_pattern("use"), "use%");
    assert_eq!(prefix_pattern("100%"), "100\\%%");
    assert_eq!(prefix_pattern("a\\"), "a\\\\%");
}

#[test]
fn parse_pattern_reads_tokens() {
    let tokens = parse_pattern("a%_\\%\\_\\\\\\b").unwrap();
    let shown: Vec<String> = tokens.iter().map(|t| format!("{t:?}")).collect();
    assert_eq!(
        shown,
        vec![
            "Literal('a')",
            "AnyRun",
            "AnyOne",
            "Literal('%')",
            "Literal('_')",
            "Literal('\\\\')",
            "Literal('b')"
        ]
    );
    assert_eq!(parse_pattern("").unwrap().len(), 0);
}

#[test]
fn parse_pattern_rejects_a_trailing_escape() {
    assert!(parse_pattern("\\").is_none());
    assert!(parse_pattern("abc\\").is_none());
    assert!(parse_pattern("a\\\\\\").is_none());
    assert!(parse_pattern("a\\\\").is_some());
    assert_eq!(like("abc\\", "abc"), None);
    assert_eq!(like("abc\\", "abc\\"), None);
}

#[test]
fn like_matches_literals_exactly() {
    assert!(accepts("", ""));
    assert!(!accepts("", "a"));
    assert!(accepts("abc", "abc"));
    assert!(!accepts("abc", "ab"));
    assert!(!accepts("abc", "abcd"));
    assert!(!accepts("abc", "abd"));
    assert!(!accepts("abc", "ABC"));
}

#[test]
fn like_matches_any_run() {
    assert!(accepts("%", ""));
    assert!(accepts("%", "anything at all"));
    assert!(accepts("a%", "a"));
    assert!(accepts("a%", "abc"));
    assert!(!accepts("a%", "ba"));
    assert!(accepts("%c", "abc"));
    assert!(!accepts("%c", "abcd"));
    assert!(accepts("a%c", "ac"));
    assert!(accepts("a%c", "abbbc"));
    assert!(accepts("a%c", "acbc"));
    assert!(!accepts("a%c", "acb"));
    assert!(accepts("%b%", "abc"));
    assert!(!accepts("%b%", "acc"));
    assert!(accepts("%%", ""));
    assert!(accepts("a%b%c%", "a-b-c-"));
    assert!(accepts("%a%a%a%", "banana"));
    assert!(!accepts("%a%a%a%a%", "banana"));
}

#[test]
fn like_matches_any_one() {
    assert!(accepts("_", "x"));
    assert!(accepts("_", "\u{1f600}"));
    assert!(!accepts("_", ""));
    assert!(!accepts("_", "xy"));
    assert!(accepts("a_c", "abc"));
    assert!(!accepts("a_c", "ac"));
    assert!(accepts("__", "ab"));
    assert!(accepts("_%", "a"));
    assert!(!accepts("_%", ""));
    assert!(accepts("%_", "abc"));
}

#[test]
fn like_takes_escaped_characters_literally() {
    assert!(accepts("100\\%", "100%"));
    assert!(!accepts("100\\%", "1000"));
    assert!(!accepts("100\\%", "100"));
    assert!(accepts("a\\_b", "a_b"));
    assert!(!accepts("a\\_b", "axb"));
    assert!(accepts("a\\\\b", "a\\b"));
    assert!(!accepts("a\\\\b", "a\\\\b"));
    assert!(accepts("\\a", "a"));
}

#[test]
fn prefix_pattern_accepts_exactly_the_prefixed_texts() {
    let prefixes = ["", "use", "100%", "use_", "a\\", "%", "_", "\\", "\\%", "a%b", "\u{e9}"];
    let texts = [
        "", "use", "user:1", "use_case", "us", "100%", "100% off", "1000", "100", "use_", "usex",
        "a\\", "a\\b", "ab", "%", "%%", "_", "_x", "x", "\\", "\\%", "\\x", "a%b", "a%bc", "axb",
        "\u{e9}", "\u{e9}t\u{e9}", "e",
    ];
    for prefix in prefixes {
        let pattern = prefix_pattern(prefix);
        for text in texts {
            assert_eq!(
                like(&pattern, text),
                Some(text.starts_with(prefix)),
                "prefix {prefix:?}, text {text:?}"
            );
        }
    }
}

#[test]
fn tokens_accept_follows_the_tokens() {
    let tokens = vec![Token::Literal('a'), Token::AnyRun, Token::AnyOne, Token::Literal('z')];
    assert!(tokens_accept(&tokens, &chars_of("a-z")));
    assert!(tokens_accept(&tokens, &chars_of("a....z")));
    assert!(!tokens_accept(&tokens, &chars_of("az")));
    assert!(!tokens_accept(&tokens, &chars_of("a-z-")));
    assert!(tokens_accept(&Vec::new(), &chars_of("")));
    assert!(!tokens_accept(&Vec::new(), &chars_of("a")));
}
