use bumpalo::Bump;
use json_flat_parser::error::{LexErrorKind, ParseError, SyntaxErrorKind};
use json_flat_parser::{JSONParser, ParseOptions, ParseResult, PointerKey, ValueType};

fn flat<'a>(text: &str, options: ParseOptions, arena: &'a Bump) -> ParseResult<'a> {
    JSONParser::new(text).parse(options, arena).unwrap()
}

fn failure(text: &str, options: ParseOptions) -> ParseError {
    let arena = Bump::new();
    match JSONParser::new(text).parse(options, &arena) {
        Ok(_) => panic!("the text was accepted"),
        Err(e) => e,
    }
}

fn syntax(kind: SyntaxErrorKind, position: usize) -> ParseError {
    ParseError::Syntax { kind, position }
}

fn pointers<'a>(result: &ParseResult<'a>) -> Vec<&'a str> {
    result.json.iter().map(|(k, _)| k.pointer).collect()
}

fn value_at<'a>(result: &'a ParseResult, pointer: &str) -> Option<&'a (PointerKey<'a>, Option<String>)> {
    result.json.iter().find(|(k, _)| k.pointer == pointer)
}

#[test]
fn flat_object_of_scalars() {
    let arena = Bump::new();
    let r = flat(r#"{"id": 1, "name": "x", "ok": true, "none": null}"#, ParseOptions::default(), &arena);
    assert_eq!(pointers(&r), vec!["/id", "/name", "/ok", "/none"]);
    assert_eq!(r.json[0].0.value_type, ValueType::Number);
    assert_eq!(r.json[0].1, Some("1".to_string()));
    assert_eq!(r.json[0].0.depth, 1);
    assert_eq!(r.json[0].0.position, 7);
    assert_eq!(r.json[0].0.index, 0);
    assert_eq!(r.json[1].0.value_type, ValueType::String);
    assert_eq!(r.json[1].1, Some("x".to_string()));
    assert_eq!(r.json[1].0.position, 18);
    assert_eq!(r.json[2].0.value_type, ValueType::Bool);
    assert_eq!(r.json[2].1, Some("true".to_string()));
    assert_eq!(r.json[3].0.value_type, ValueType::Null);
    assert_eq!(r.json[3].1, None);
    assert_eq!(r.max_json_depth, 1);
    assert_eq!(r.parsing_max_depth, 10);
    assert_eq!(r.started_parsing_at, None);
    assert_eq!(r.parsing_prefix, None);
}

#[test]
fn depth_limit_captures_the_object_as_text() {
    let arena = Bump::new();
    let r = flat(r#"{"a":{"b":{"c":1}}}"#, ParseOptions::default().max_depth(2), &arena);
    assert_eq!(pointers(&r), vec!["/a", "/a/b"]);
    let b = value_at(&r, "/a/b").unwrap();
    assert_eq!(b.0.value_type, ValueType::Object);
    assert_eq!(b.0.depth, 2);
    assert_eq!(b.1, Some(r#"{"c":1}"#.to_string()));
    assert!(value_at(&r, "/a/b/c").is_none());
    let a = value_at(&r, "/a").unwrap();
    assert_eq!(a.0.value_type, ValueType::Object);
    assert_eq!(a.0.depth, 1);
    assert_eq!(a.1, Some(r#"{"b":{"c":1}}"#.to_string()));
    assert_eq!(r.max_json_depth, 3);
    assert_eq!(r.parsing_max_depth, 2);
}

#[test]
fn depth_zero_defers_every_object_below_the_root() {
    let arena = Bump::new();
    let r = flat(r#"{"a":{"b":1},"n":2}"#, ParseOptions::default().max_depth(0), &arena);
    assert_eq!(pointers(&r), vec!["/a", "/n"]);
    assert_eq!(r.json[0].1, Some(r#"{"b":1}"#.to_string()));
    assert_eq!(r.json[1].1, Some("2".to_string()));
}

#[test]
fn array_of_rows_with_default_options() {
    let arena = Bump::new();
    let r = flat(r#"[{"x":1},{"x":null}]"#, ParseOptions::default(), &arena);
    assert_eq!(pointers(&r), vec!["", "/0", "/0/x", "/1", "/1/x"]);
    assert_eq!(r.json[0].0.value_type, ValueType::Array(2));
    assert_eq!(r.json[0].0.depth, 1);
    assert_eq!(r.json[0].1, None);
    assert_eq!(r.json[1].0.value_type, ValueType::Object);
    assert_eq!(r.json[1].0.depth, 2);
    assert_eq!(r.json[1].0.index, 0);
    assert_eq!(r.json[1].1, Some(r#"{"x":1}"#.to_string()));
    assert_eq!(r.json[2].1, Some("1".to_string()));
    assert_eq!(r.json[2].0.depth, 3);
    assert_eq!(r.json[2].0.index, 0);
    assert_eq!(r.json[4].0.value_type, ValueType::Null);
    assert_eq!(r.json[4].1, None);
    assert_eq!(r.json[4].0.index, 1);
    assert_eq!(r.json[3].0.position, 9);
    assert_eq!(r.max_json_depth, 3);
}

#[test]
fn nearest_array_gives_the_index() {
    let arena = Bump::new();
    let r = flat(r#"{"rows":[[7,8],{"k":[9]}]}"#, ParseOptions::default(), &arena);
    assert_eq!(
        pointers(&r),
        vec!["/rows", "/rows/0", "/rows/0/0", "/rows/0/1", "/rows/1", "/rows/1/k", "/rows/1/k/0"]
    );
    let index: Vec<usize> = r.json.iter().map(|(k, _)| k.index).collect();
    assert_eq!(index, vec![0, 0, 0, 1, 1, 1, 0]);
    let depth: Vec<u8> = r.json.iter().map(|(k, _)| k.depth).collect();
    assert_eq!(depth, vec![1, 2, 3, 3, 2, 3, 4]);
    assert_eq!(r.json[1].0.value_type, ValueType::Array(2));
    assert_eq!(r.json[5].0.value_type, ValueType::Array(1));
}

#[test]
fn element_ten_has_a_pointer_of_two_digits() {
    let arena = Bump::new();
    let r = flat("[0,1,2,3,4,5,6,7,8,9,10,11]", ParseOptions::default(), &arena);
    assert_eq!(r.json[0].0.value_type, ValueType::Array(12));
    assert_eq!(r.json[11].0.pointer, "/10");
    assert_eq!(r.json[11].0.index, 10);
    assert_eq!(r.json[12].0.pointer, "/11");
    assert_eq!(r.json[12].1, Some("11".to_string()));
}

#[test]
fn arrays_stay_text_without_parse_array() {
    let arena = Bump::new();
    let r = flat(r#"{"a":[1, {"b":2}],"c":3}"#, ParseOptions::default().parse_array(false), &arena);
    assert_eq!(pointers(&r), vec!["/a", "/c"]);
    assert_eq!(r.json[0].0.value_type, ValueType::Array(2));
    assert_eq!(r.json[0].1, Some(r#"[1, {"b":2}]"#.to_string()));
    assert_eq!(r.max_json_depth, 3);
}

#[test]
fn objects_without_raw_data() {
    let arena = Bump::new();
    let options = ParseOptions::default().keep_object_raw_data(false).max_depth(3);
    let r = flat(r#"{"a":{"b":1},"l":[{"c":{"d":{}}}]}"#, options, &arena);
    assert_eq!(pointers(&r), vec!["/a/b", "/l", "/l/0", "/l/0/c"]);
    assert_eq!(r.json[2].0.value_type, ValueType::Object);
    assert_eq!(r.json[2].1, None);
    assert_eq!(r.json[3].0.value_type, ValueType::Object);
    assert_eq!(r.json[3].0.depth, 3);
    assert_eq!(r.json[3].1, Some(r#"{"d":{}}"#.to_string()));
}

#[test]
fn root_scalar_is_one_entry_at_depth_one() {
    let arena = Bump::new();
    let r = flat(" 42 ", ParseOptions::default(), &arena);
    assert_eq!(r.json.len(), 1);
    assert_eq!(r.json[0].0.pointer, "");
    assert_eq!(r.json[0].0.depth, 1);
    assert_eq!(r.json[0].0.position, 1);
    assert_eq!(r.json[0].1, Some("42".to_string()));
    assert_eq!(r.max_json_depth, 1);
}

#[test]
fn empty_containers() {
    let arena = Bump::new();
    let r = flat(r#"{"o":{},"a":[]}"#, ParseOptions::default(), &arena);
    assert_eq!(pointers(&r), vec!["/o", "/a"]);
    assert_eq!(r.json[0].1, Some("{}".to_string()));
    assert_eq!(r.json[1].0.value_type, ValueType::Array(0));
    let e = flat("{}", ParseOptions::default(), &arena);
    assert_eq!(e.json.len(), 0);
    assert_eq!(e.max_json_depth, 1);
}

#[test]
fn prefix_begins_every_pointer() {
    let arena = Bump::new();
    let r = flat(r#"{"a":[true]}"#, ParseOptions::default().prefix("/skills/3".to_string()), &arena);
    assert_eq!(pointers(&r), vec!["/skills/3/a", "/skills/3/a/0"]);
    assert_eq!(r.parsing_prefix, Some("/skills/3".to_string()));
}

#[test]
fn start_parse_at_flattens_a_subtree() {
    let arena = Bump::new();
    let text = r#"{"skip":{"a":1},"data":{"list":[{"v":1},{"v":[2]}],"z":0},"after":[1]}"#;
    let r = flat(text, ParseOptions::default().start_parse_at("/data/list".to_string()), &arena);
    assert_eq!(pointers(&r), vec!["", "/0", "/0/v", "/1", "/1/v", "/1/v/0"]);
    assert_eq!(r.json[0].0.value_type, ValueType::Array(2));
    assert_eq!(r.json[0].0.depth, 1);
    assert_eq!(r.json[0].0.position, 31);
    assert_eq!(r.json[5].1, Some("2".to_string()));
    assert_eq!(r.json[5].0.depth, 4);
    assert_eq!(r.max_json_depth, 4);
    assert_eq!(r.started_parsing_at, Some("/data/list".to_string()));

    let o = flat(text, ParseOptions::default().start_parse_at("/data".to_string()).prefix("/p".to_string()), &arena);
    assert_eq!(pointers(&o)[0], "/p/list");
    assert_eq!(o.json[0].0.depth, 1);
    assert_eq!(pointers(&o)[pointers(&o).len() - 1], "/p/z");

    let second = flat(text, ParseOptions::default().start_parse_at("/data/list/1/v/0".to_string()), &arena);
    assert_eq!(second.json.len(), 1);
    assert_eq!(second.json[0].1, Some("2".to_string()));
    assert_eq!(second.json[0].0.depth, 1);

    let whole = flat(r#"{"a":1}"#, ParseOptions::default().start_parse_at(String::new()), &arena);
    assert_eq!(pointers(&whole), vec!["/a"]);
}

#[test]
fn start_parse_at_takes_the_first_of_equal_keys() {
    let arena = Bump::new();
    let r = flat(r#"{"k":[1],"k":[2,3]}"#, ParseOptions::default().start_parse_at("/k".to_string()), &arena);
    assert_eq!(r.json[0].0.value_type, ValueType::Array(1));
    assert_eq!(r.json.len(), 2);
}

#[test]
fn unresolved_start() {
    let text = r#" {"a":{"b":1},"l":[5]}"#;
    for pointer in ["/x", "/a/c", "/a/b/c", "/l/1", "/l/00", "a", "/"] {
        let e = failure(text, ParseOptions::default().start_parse_at(pointer.to_string()));
        assert_eq!(e, syntax(SyntaxErrorKind::UnresolvedStart, 1));
    }
    let malformed = failure(r#"{"a":1,}"#, ParseOptions::default().start_parse_at("/x".to_string()));
    assert_eq!(malformed, syntax(SyntaxErrorKind::UnexpectedToken, 7));
}

#[test]
fn malformed_member_is_a_syntax_error_at_the_bracket() {
    let e = failure(r#"{"a":}"#, ParseOptions::default());
    assert_eq!(e, syntax(SyntaxErrorKind::UnexpectedToken, 5));
    assert_eq!(e.position(), 5);
    assert!(!e.is_lexical());
}

#[test]
fn unterminated_string_is_a_lexical_error() {
    let e = failure("\"abc", ParseOptions::default());
    assert_eq!(
        e,
        ParseError::Lexical(json_flat_parser::error::LexError {
            kind: LexErrorKind::UnterminatedString,
            position: 0,
        })
    );
    assert!(e.is_lexical());
}

#[test]
fn every_syntax_error() {
    let d = ParseOptions::default;
    assert_eq!(failure("", d()), syntax(SyntaxErrorKind::EmptyInput, 0));
    assert_eq!(failure("  \n", d()), syntax(SyntaxErrorKind::EmptyInput, 3));
    assert_eq!(failure("}", d()), syntax(SyntaxErrorKind::UnexpectedToken, 0));
    assert_eq!(failure("[1,]", d()), syntax(SyntaxErrorKind::UnexpectedToken, 3));
    assert_eq!(failure(r#"{"a":1,}"#, d()), syntax(SyntaxErrorKind::UnexpectedToken, 7));
    assert_eq!(failure(r#"{1:2}"#, d()), syntax(SyntaxErrorKind::UnexpectedToken, 1));
    assert_eq!(failure(r#"{"a" 1}"#, d()), syntax(SyntaxErrorKind::MissingColon, 5));
    assert_eq!(failure(r#"{"a":1 "b":2}"#, d()), syntax(SyntaxErrorKind::MissingComma, 7));
    assert_eq!(failure("[1 2]", d()), syntax(SyntaxErrorKind::MissingComma, 3));
    assert_eq!(failure("[1, 2", d()), syntax(SyntaxErrorKind::UnterminatedContainer, 5));
    assert_eq!(failure(r#"{"a":"#, d()), syntax(SyntaxErrorKind::UnterminatedContainer, 5));
    assert_eq!(failure(r#"{"a""#, d()), syntax(SyntaxErrorKind::UnterminatedContainer, 4));
    assert_eq!(failure("{", d()), syntax(SyntaxErrorKind::UnterminatedContainer, 1));
    assert_eq!(failure("{} x", d()), syntax(SyntaxErrorKind::TrailingContent, 3));
    assert_eq!(failure("1 2", d()), syntax(SyntaxErrorKind::TrailingContent, 2));
}

#[test]
fn every_lexical_error() {
    let lexical = |kind, position| ParseError::Lexical(json_flat_parser::error::LexError { kind, position });
    let d = ParseOptions::default;
    assert_eq!(failure(r#"["a\x"]"#, d()), lexical(LexErrorKind::InvalidEscape, 3));
    assert_eq!(failure(r#"["\ud800"]"#, d()), lexical(LexErrorKind::InvalidEscape, 2));
    assert_eq!(failure(r#"["\udc00"]"#, d()), lexical(LexErrorKind::InvalidEscape, 2));
    assert_eq!(failure(r#"["\u12"]"#, d()), lexical(LexErrorKind::InvalidEscape, 2));
    assert_eq!(failure(r#"{"a": tru}"#, d()), lexical(LexErrorKind::UnexpectedByte, 6));
    assert_eq!(failure("[1, @]", d()), lexical(LexErrorKind::UnexpectedByte, 4));
    assert_eq!(failure(r#"{"a":"b"#, d()), lexical(LexErrorKind::UnterminatedString, 5));
}

#[test]
fn nesting_beyond_the_counter_is_refused() {
    let deep = "[".repeat(254) + "1" + &"]".repeat(254);
    let arena = Bump::new();
    let r = flat(&deep, ParseOptions::default(), &arena);
    assert_eq!(r.json.len(), 255);
    assert_eq!(r.json[253].0.depth, 254);
    assert_eq!(r.json[254].0.depth, 255);
    assert_eq!(r.json[254].0.value_type, ValueType::Number);
    assert_eq!(r.max_json_depth, 255);
    let deeper = "[".repeat(255) + &"]".repeat(255);
    assert_eq!(failure(&deeper, ParseOptions::default()), syntax(SyntaxErrorKind::DepthOverflow, 254));
    let hidden = format!("{{\"a\":{}}}", "[".repeat(255) + &"]".repeat(255));
    assert_eq!(
        failure(&hidden, ParseOptions::default().parse_array(false)),
        syntax(SyntaxErrorKind::DepthOverflow, 5 + 254)
    );
}

#[test]
fn escapes_are_replaced_in_values_and_keys() {
    let arena = Bump::new();
    let r = flat(r#"{"k\n\"e\u0079": "a\tb\\c\/d\u00e9\ud83d\ude00\b\f\r"}"#, ParseOptions::default(), &arena);
    assert_eq!(r.json[0].0.pointer, "/k\n\"ey");
    assert_eq!(r.json[0].1, Some("a\tb\\c/d\u{e9}\u{1F600}\u{8}\u{c}\r".to_string()));
    let plain = flat("[\"h\u{e9}llo \u{4e16}\u{754c} \u{1F600}\", \"\\u4e16\"]", ParseOptions::default(), &arena);
    assert_eq!(plain.json[1].1, Some("h\u{e9}llo \u{4e16}\u{754c} \u{1F600}".to_string()));
    assert_eq!(plain.json[2].1, Some("\u{4e16}".to_string()));
}

#[test]
fn raw_text_keeps_escapes_and_spaces() {
    let arena = Bump::new();
    let r = flat("{\"o\" : { \"s\" : \"x\\n}\" } }", ParseOptions::default().max_depth(1), &arena);
    assert_eq!(r.json.len(), 1);
    assert_eq!(r.json[0].1, Some("{ \"s\" : \"x\\n}\" }".to_string()));
}

#[test]
fn numbers_are_passed_through_as_text() {
    let arena = Bump::new();
    let r = flat("[-1.5e+10, 0, 12E-3]", ParseOptions::default(), &arena);
    assert_eq!(r.json[1].1, Some("-1.5e+10".to_string()));
    assert_eq!(r.json[1].0.value_type, ValueType::Number);
    assert_eq!(r.json[3].1, Some("12E-3".to_string()));
}

#[test]
fn entries_come_in_the_order_of_the_text() {
    let arena = Bump::new();
    let r = flat(r#"{"a":{"b":[1,{"c":2}],"d":3},"e":[[4],5]}"#, ParseOptions::default(), &arena);
    assert_eq!(
        pointers(&r),
        vec!["/a", "/a/b", "/a/b/0", "/a/b/1", "/a/b/1/c", "/a/d", "/e", "/e/0", "/e/0/0", "/e/1"]
    );
    for w in r.json.windows(2) {
        assert!(w[0].0.position < w[1].0.position);
    }
    for (k, _) in r.json.iter() {
        assert_eq!(k.depth as usize, k.pointer.matches('/').count());
    }
    for (i, (k, _)) in r.json.iter().enumerate() {
        for (j, (other, _)) in r.json.iter().enumerate() {
            assert_eq!(i == j, k.pointer == other.pointer);
        }
    }
}

#[test]
fn pointers_outlive_the_text() {
    let arena = Bump::new();
    let r = {
        let text = String::from(r#"{"a":{"b":1}}"#);
        let mut parser = JSONParser::new(&text);
        parser.parse(ParseOptions::default(), &arena).unwrap()
    };
    assert_eq!(pointers(&r), vec!["/a", "/a/b"]);
}

#[test]
fn a_parser_reads_its_text_once() {
    let arena = Bump::new();
    let mut parser = JSONParser::new("[1]");
    assert!(parser.parse(ParseOptions::default(), &arena).is_ok());
    assert_eq!(
        parser.parse(ParseOptions::default(), &arena).err(),
        Some(syntax(SyntaxErrorKind::EmptyInput, 3))
    );
}

#[test]
fn equal_keys_give_equal_pointers() {
    let arena = Bump::new();
    let r = flat(r#"{"a":1,"a":2,"b/c":3,"b":{"c":4}}"#, ParseOptions::default(), &arena);
    assert_eq!(pointers(&r), vec!["/a", "/a", "/b/c", "/b", "/b/c"]);
}

#[test]
fn parent_of_an_entry_is_an_entry() {
    let arena = Bump::new();
    let options = ParseOptions::default().prefix("/p".to_string());
    let r = flat(r#"{"a":{"b":[1,{"c":2}],"d":3},"e":[[4],5]}"#, options, &arena);
    let names = pointers(&r);
    for (k, _) in r.json.iter() {
        let parent = k.parent();
        if k.depth > 1 {
            assert!(names.contains(&parent), "{} has no entry", parent);
            assert_eq!(format!("{}{}", parent, &k.pointer[parent.len()..]), k.pointer);
        } else {
            assert_eq!(parent, "/p");
        }
    }
}
