use toon_lsp::toon::emit::{emit_scalar_string, escape_into, needs_quotes, Delimiter};
use toon_lsp::toon::decode::remove_block_comments;
use toon_lsp::toon::{DecodeError, EncodeError, ToonConfig};

#[test]
fn plain_word_unquoted() {
    assert!(!needs_quotes("hello", Delimiter::Comma));
    assert!(!needs_quotes("a-b-c", Delimiter::Comma));
}

#[test]
fn reserved_and_numeric_quoted() {
    assert!(needs_quotes("true", Delimiter::Comma));
    assert!(needs_quotes("42", Delimiter::Comma));
    assert!(needs_quotes("-1.5", Delimiter::Comma));
}

#[test]
fn delimiter_and_structure_quoted() {
    assert!(needs_quotes("a,b", Delimiter::Comma));
    assert!(!needs_quotes("a,b", Delimiter::Pipe));
    assert!(needs_quotes("a|b", Delimiter::Pipe));
    assert!(needs_quotes(" leading", Delimiter::Comma));
    assert!(needs_quotes("", Delimiter::Comma));
}

#[test]
fn number_like_texts() {
    assert!(needs_quotes("1e5", Delimiter::Comma));
    assert!(needs_quotes(".5", Delimiter::Comma));
    assert!(needs_quotes("5.", Delimiter::Comma));
    assert!(!needs_quotes("inf", Delimiter::Comma));
    assert!(!needs_quotes("NaN", Delimiter::Comma));
    assert!(!needs_quotes("1e", Delimiter::Comma));
    assert!(needs_quotes("#tag", Delimiter::Comma));
    assert!(needs_quotes("a\tb", Delimiter::Comma));
    assert!(needs_quotes("a\tb", Delimiter::Tab));
}

#[test]
fn escape_only_spec_chars() {
    let mut s = String::new();
    escape_into(&mut s, "a\"b\\c\nd\te");
    assert_eq!(s, "a\\\"b\\\\c\\nd\\te");
}

#[test]
fn escape_other_control_characters() {
    let mut s = String::from("x");
    escape_into(&mut s, "\u{1}\r\u{1f}");
    assert_eq!(s, "x\\u0001\\r\\u001f");
}

#[test]
fn emit_quotes_when_needed() {
    let mut s = String::new();
    emit_scalar_string(&mut s, "true", Delimiter::Comma);
    assert_eq!(s, "\"true\"");
    let mut s2 = String::new();
    emit_scalar_string(&mut s2, "hello", Delimiter::Comma);
    assert_eq!(s2, "hello");
}

#[test]
fn delimiter_chars() {
    assert_eq!(Delimiter::Comma.as_char(), ',');
    assert_eq!(Delimiter::Tab.as_char(), '\t');
    assert_eq!(Delimiter::Pipe.as_char(), '|');
}

#[test]
fn decode_syntax_error_displays_location() {
    let e = DecodeError::Syntax { message: "unexpected }".into(), line: 3, col: 5 };
    assert_eq!(e.display_text(), "syntax error at line 3, column 5: unexpected }");
}

#[test]
fn encode_unsupported_displays() {
    let e = EncodeError::Unsupported("NaN".into());
    assert_eq!(e.display_text(), "unsupported value: NaN");
}

#[test]
fn decode_error_new_is_structure() {
    let e = DecodeError::new("bad");
    assert_eq!(e.display_text(), "structure error: bad");
}

#[test]
fn config_defaults() {
    let c = ToonConfig::default();
    assert_eq!(c.indent, 2);
    assert_eq!(c.delimiter, Delimiter::Comma);
    assert!(!c.fold_keys && !c.flatten_keys && !c.expand_paths && !c.preserve_number_types);
}

#[test]
fn only_a_colon_followed_by_a_space_forces_quotes() {
    assert!(!needs_quotes("a:b", Delimiter::Comma));
    assert!(!needs_quotes("hello world", Delimiter::Comma));
    assert!(needs_quotes("a: b", Delimiter::Comma));
    assert!(!needs_quotes("http://x.y", Delimiter::Comma));
}

#[test]
fn block_comments_are_blanked_in_place() {
    let input = "a: 1 /* one\ntwo */ b: \"/* kept */\"";
    let out = remove_block_comments(input).expect("closed comment");
    assert_eq!(out, "a: 1       \n       b: \"/* kept */\"");
    assert_eq!(out.chars().count(), input.chars().count());
    let feeds = |s: &str| s.char_indices().filter(|(_, c)| *c == '\n').map(|(i, _)| i).collect::<Vec<_>>();
    assert_eq!(feeds(&out), feeds(input));
}

#[test]
fn an_unclosed_block_comment_is_refused() {
    match remove_block_comments("a: 1 /* open") {
        Err(DecodeError::Structure(m)) => assert_eq!(m, "Unterminated block comment"),
        other => panic!("expected a structure error, got {:?}", other),
    }
}
