use json_flat_parser::error::{LexError, LexErrorKind, ParseError, SyntaxErrorKind};
use json_flat_parser::parser::Parser;
use json_flat_parser::lexer::{next_token, Lexer, TokenKind};
use json_flat_parser::{string_from_bytes, ParseOptions, ParseResult, PointerKey, ValueType};

#[test]
fn default_options() {
    let o = ParseOptions::default();
    assert!(o.parse_array);
    assert!(o.keep_object_raw_data);
    assert_eq!(o.max_depth, 10);
    assert_eq!(o.start_parse_at, None);
    assert_eq!(o.prefix, None);
}

#[test]
fn builders_set_one_field() {
    let o = ParseOptions::default()
        .parse_array(false)
        .keep_object_raw_data(false)
        .max_depth(3)
        .start_parse_at("/a".to_string())
        .prefix("/p".to_string());
    assert!(!o.parse_array);
    assert!(!o.keep_object_raw_data);
    assert_eq!(o.max_depth, 3);
    assert_eq!(o.start_parse_at, Some("/a".to_string()));
    assert_eq!(o.prefix, Some("/p".to_string()));
    let c = o.clone();
    assert_eq!(c.max_depth, 3);
    assert_eq!(c.prefix, Some("/p".to_string()));
    assert_eq!(c.start_parse_at, Some("/a".to_string()));
}

#[test]
fn keys_are_equal_when_their_pointers_are() {
    let a = PointerKey::from_pointer("/a/b", ValueType::Number, 2, 7);
    let b = PointerKey::from_pointer("/a/b", ValueType::Object, 9, 1);
    let c = PointerKey::from_pointer("/a/c", ValueType::Number, 2, 7);
    assert!(a == b);
    assert!(a != c);
    assert_eq!(a.index, 0);
    assert_eq!(a.depth, 2);
    assert_eq!(a.position, 7);
    assert_eq!(a.value_type, ValueType::Number);
}

#[test]
fn default_key_and_kind() {
    let k = PointerKey::default();
    assert_eq!(k.pointer, "");
    assert_eq!(k.value_type, ValueType::Absent);
    assert_eq!(k.depth, 0);
    assert_eq!(ValueType::default(), ValueType::Absent);
}

#[test]
fn parent_is_what_stands_before_the_last_slash() {
    let key = |p: &'static str| PointerKey::from_pointer(p, ValueType::Null, 1, 0);
    assert_eq!(key("/a/0/b").parent(), "/a/0");
    assert_eq!(key("/a/0").parent(), "/a");
    assert_eq!(key("/a").parent(), "/");
    assert_eq!(key("").parent(), "/");
    assert_eq!(key("/").parent(), "/");
    assert_eq!(key("abc").parent(), "/");
    assert_eq!(key("/h\u{e9}/\u{4e16}").parent(), "/h\u{e9}");
    assert_eq!(key("/a/").parent(), "/a");
}

#[test]
fn clone_except_json_keeps_the_account() {
    let r = ParseResult {
        json: vec![(PointerKey::from_pointer("/a", ValueType::Null, 1, 0), None)],
        max_json_depth: 4,
        parsing_max_depth: 2,
        started_parsing_at: Some("/s".to_string()),
        parsing_prefix: Some("/p".to_string()),
    };
    let c = r.clone_except_json();
    assert_eq!(c.json.len(), 0);
    assert_eq!(c.max_json_depth, 4);
    assert_eq!(c.parsing_max_depth, 2);
    assert_eq!(c.started_parsing_at, Some("/s".to_string()));
    assert_eq!(c.parsing_prefix, Some("/p".to_string()));
}

#[test]
fn string_from_bytes_checks_the_encoding() {
    assert_eq!(string_from_bytes(b"abc"), Some("abc"));
    assert_eq!(string_from_bytes("h\u{e9}".as_bytes()), Some("h\u{e9}"));
    assert_eq!(string_from_bytes(b""), Some(""));
    assert_eq!(string_from_bytes(&[0x61, 0xff]), None);
    assert_eq!(string_from_bytes(&[0xc3]), None);
    assert_eq!(string_from_bytes(&[0xed, 0xa0, 0x80]), None);
}

#[test]
fn tokens_of_a_text() {
    let src = b" {\"k\": [-1, true,false ,null]}";
    let mut lexer = Lexer::new(src);
    let mut kinds = Vec::new();
    let mut spans = Vec::new();
    loop {
        let t = lexer.next_token().unwrap();
        kinds.push(t.kind);
        spans.push((t.start, t.end));
        if t.kind == TokenKind::EndOfInput {
            break;
        }
    }
    assert_eq!(
        kinds,
        vec![
            TokenKind::CurlyOpen,
            TokenKind::StringLiteral,
            TokenKind::Colon,
            TokenKind::SquareOpen,
            TokenKind::Number,
            TokenKind::Comma,
            TokenKind::Boolean,
            TokenKind::Comma,
            TokenKind::Boolean,
            TokenKind::Comma,
            TokenKind::Null,
            TokenKind::SquareClose,
            TokenKind::CurlyClose,
            TokenKind::EndOfInput,
        ]
    );
    assert_eq!(spans[1], (2, 5));
    assert_eq!(spans[4], (8, 10));
    assert_eq!(spans[6], (12, 16));
    assert_eq!(spans[8], (17, 22));
    assert_eq!(spans[13], (30, 30));
    assert_eq!(lexer.position, 30);
}

#[test]
fn string_tokens_hold_their_text() {
    let plain = b"\"abc\"";
    let t = next_token(plain, 0).unwrap();
    assert_eq!(t.unescaped, None);
    assert_eq!(t.bytes(plain), b"abc");
    let escaped = b"  \"a\\u00e9\\n\"";
    let t = next_token(escaped, 0).unwrap();
    assert_eq!((t.start, t.end), (2, 13));
    assert_eq!(t.bytes(escaped), "a\u{e9}\n".as_bytes());
    assert!(t.unescaped.is_some());
    let number = b"12.5,";
    let t = next_token(number, 0).unwrap();
    assert_eq!(t.bytes(number), b"12.5");
}

#[test]
fn text_that_is_not_utf8_is_refused() {
    let src = [b'"', 0xff, b'"'];
    assert_eq!(
        next_token(&src, 0).err(),
        Some(LexError { kind: LexErrorKind::InvalidUtf8, position: 0 })
    );
    let tail = [b' ', b'"', b'a', 0xc3, b'"'];
    assert_eq!(
        next_token(&tail, 0).err(),
        Some(LexError { kind: LexErrorKind::InvalidUtf8, position: 1 })
    );
    let mut lexer = Lexer::new(&tail);
    assert!(lexer.next_token().is_err());
    assert_eq!(lexer.position, 0);
}

#[test]
fn bytes_that_are_no_text_fail_where_they_are_met() {
    let arena = bumpalo::Bump::new();
    let parse = |src: &[u8]| Parser::new(Lexer::new(src)).parse(&ParseOptions::default(), 1, &arena).err();
    let lexical = |kind, position| Some(ParseError::Lexical(LexError { kind, position }));
    assert_eq!(
        parse(&[b'[', b'1', b']', b' ', 0x80]),
        Some(ParseError::Syntax { kind: SyntaxErrorKind::TrailingContent, position: 4 })
    );
    assert_eq!(parse(&[b'[', b'1', b',', b' ', 0x80, b']']), lexical(LexErrorKind::UnexpectedByte, 4));
    assert_eq!(parse(&[b'[', b'"', b'a', 0xff, b'"', b']']), lexical(LexErrorKind::InvalidUtf8, 1));
    assert_eq!(
        parse(&[b'{', b'"', b'k', b'"', b':', b'"', 0xc3, b'\\', b'n', b'"', b'}']),
        lexical(LexErrorKind::InvalidUtf8, 5)
    );
    assert_eq!(parse(&[0xef, 0xbb, 0xbf, b'1']), lexical(LexErrorKind::UnexpectedByte, 0));
    let deferred = [b'{', b'"', b'o', b'"', b':', b'{', b'"', 0xe9, b'"', b':', b'1', b'}', b'}'];
    let mut options = ParseOptions::default();
    options.max_depth = 1;
    assert_eq!(
        Parser::new(Lexer::new(&deferred)).parse(&options, 1, &arena).err(),
        lexical(LexErrorKind::InvalidUtf8, 6)
    );
}

#[test]
fn depths_are_counted_from_the_start() {
    let arena = bumpalo::Bump::new();
    let src = br#"{"a":{"b":1}}"#;
    let mut parser = Parser::new(Lexer::new(src));
    let r = parser.parse(&ParseOptions::default(), 4, &arena).unwrap();
    let depths: Vec<u8> = r.json.iter().map(|(k, _)| k.depth).collect();
    assert_eq!(depths, vec![4, 5]);
    assert_eq!(r.max_json_depth, 5);
    let mut at_limit = Parser::new(Lexer::new(b"[[1]]"));
    let deep = at_limit.parse(&ParseOptions::default(), 253, &arena).unwrap();
    assert_eq!(deep.json[2].0.depth, 255);
    let mut over = Parser::new(Lexer::new(b"[[1]]"));
    assert_eq!(
        over.parse(&ParseOptions::default(), 254, &arena).err(),
        Some(ParseError::Syntax { kind: SyntaxErrorKind::DepthOverflow, position: 1 })
    );
}

#[test]
fn equal_keys_hash_alike() {
    let mut seen = std::collections::HashSet::new();
    assert!(seen.insert(PointerKey::from_pointer("/a", ValueType::Number, 1, 0)));
    assert!(!seen.insert(PointerKey::from_pointer("/a", ValueType::Object, 2, 5)));
    assert!(seen.insert(PointerKey::from_pointer("/b", ValueType::Number, 1, 0)));
    assert_eq!(seen.len(), 2);
}
