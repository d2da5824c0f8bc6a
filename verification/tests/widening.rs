use bumpalo::Bump;
use json_flat_parser::error::{ParseError, SyntaxErrorKind};
use json_flat_parser::{JSONParser, JsonArrayEntries, ParseOptions, ParseResult, PointerKey, ValueType};

fn flat<'a>(text: &str, options: ParseOptions, arena: &'a Bump) -> ParseResult<'a> {
    JSONParser::new(text).parse(options, arena).unwrap()
}

fn pairs(result: &ParseResult) -> Vec<(String, Option<String>)> {
    result.json.iter().map(|(k, v)| (k.pointer.to_string(), v.clone())).collect()
}

fn fields(result: &ParseResult) -> Vec<(String, ValueType, u8, usize, usize, Option<String>)> {
    result
        .json
        .iter()
        .map(|(k, v)| (k.pointer.to_string(), k.value_type, k.depth, k.index, k.position, v.clone()))
        .collect()
}

const DOC: &str = r#"{"a":{"b":{"c":1,"d":{"e":[true,{"f":null}]}}},"g":{"h":"i"},"j":2}"#;

#[test]
fn widening_splices_the_deferred_objects() {
    let arena = Bump::new();
    let narrow = flat(r#"{"a":{"b":{"c":1}},"z":0}"#, ParseOptions::default().max_depth(2), &arena);
    let wide = JSONParser::change_depth(narrow, ParseOptions::default().max_depth(3), &arena).unwrap();
    assert_eq!(
        fields(&wide),
        vec![
            ("/a".to_string(), ValueType::Object, 1, 0, 5, Some(r#"{"b":{"c":1}}"#.to_string())),
            ("/a/b".to_string(), ValueType::Object, 2, 0, 10, Some(r#"{"c":1}"#.to_string())),
            ("/a/b/c".to_string(), ValueType::Number, 3, 0, 5, Some("1".to_string())),
            ("/z".to_string(), ValueType::Number, 1, 0, 23, Some("0".to_string())),
        ]
    );
    assert_eq!(wide.parsing_max_depth, 3);
    assert_eq!(wide.max_json_depth, 3);
}

#[test]
fn widening_to_the_same_depth_changes_nothing() {
    let arena = Bump::new();
    let narrow = flat(DOC, ParseOptions::default().max_depth(2), &arena);
    let once = JSONParser::change_depth(narrow, ParseOptions::default().max_depth(3), &arena).unwrap();
    let expected = fields(&once);
    let twice = JSONParser::change_depth(once, ParseOptions::default().max_depth(3), &arena).unwrap();
    assert_eq!(fields(&twice), expected);
    assert_eq!(twice.parsing_max_depth, 3);
    let back = JSONParser::change_depth(twice, ParseOptions::default().max_depth(1), &arena).unwrap();
    assert_eq!(fields(&back), expected);
    assert_eq!(back.parsing_max_depth, 3);
}

#[test]
fn widening_gives_what_parsing_deeper_gives() {
    let arena = Bump::new();
    let narrow = flat(DOC, ParseOptions::default().max_depth(2), &arena);
    let widened = JSONParser::change_depth(narrow, ParseOptions::default().max_depth(5), &arena).unwrap();
    let direct = flat(DOC, ParseOptions::default().max_depth(5), &arena);
    let mut left = pairs(&widened);
    let mut right = pairs(&direct);
    assert_eq!(left, right);
    left.sort();
    right.sort();
    assert_eq!(left, right);
    assert_eq!(widened.max_json_depth, direct.max_json_depth);
    let depths = |r: &ParseResult| r.json.iter().map(|(k, _)| k.depth).collect::<Vec<u8>>();
    assert_eq!(depths(&widened), depths(&direct));
}

#[test]
fn widening_keeps_a_deferred_entry_without_text() {
    let arena = Bump::new();
    let mut result = flat(r#"{"a":{"b":1},"c":2}"#, ParseOptions::default().max_depth(1), &arena);
    result.json[0].1 = None;
    let wide = JSONParser::change_depth(result, ParseOptions::default().max_depth(2), &arena).unwrap();
    assert_eq!(
        pairs(&wide),
        vec![("/a".to_string(), None), ("/c".to_string(), Some("2".to_string()))]
    );
    assert_eq!(wide.json[0].0.value_type, ValueType::Object);
    assert_eq!(wide.json[0].0.depth, 1);
    assert_eq!(wide.parsing_max_depth, 2);
}

#[test]
fn widening_reports_the_error_of_the_text() {
    let arena = Bump::new();
    let json = vec![
        (PointerKey::from_pointer("/ok", ValueType::Object, 1, 0), Some(r#"{"x":1}"#.to_string())),
        (PointerKey::from_pointer("/bad", ValueType::Object, 1, 9), Some(r#"{"x":]"#.to_string())),
    ];
    let result = ParseResult {
        json,
        max_json_depth: 2,
        parsing_max_depth: 1,
        started_parsing_at: None,
        parsing_prefix: None,
    };
    let e = JSONParser::change_depth(result, ParseOptions::default(), &arena).err();
    assert_eq!(e, Some(ParseError::Syntax { kind: SyntaxErrorKind::UnexpectedToken, position: 5 }));
}

#[test]
fn widening_keeps_the_account_of_the_first_parse() {
    let arena = Bump::new();
    let options = ParseOptions::default().max_depth(1).prefix("/p".to_string());
    let narrow = flat(r#"{"a":{"b":[{"c":1}]}}"#, options, &arena);
    let wide = JSONParser::change_depth(narrow, ParseOptions::default().max_depth(9), &arena).unwrap();
    assert_eq!(wide.parsing_prefix, Some("/p".to_string()));
    assert_eq!(wide.started_parsing_at, None);
    assert_eq!(wide.max_json_depth, 4);
    let names: Vec<&str> = wide.json.iter().map(|(k, _)| k.pointer).collect();
    assert_eq!(names, vec!["/p/a", "/p/a/b", "/p/a/b/0", "/p/a/b/0/c"]);
    assert_eq!(wide.json[3].0.depth, 4);
}

fn rows<'a>(text: &str, arena: &'a Bump) -> Vec<JsonArrayEntries<'a>> {
    let result = flat(text, ParseOptions::default(), arena);
    let count = match result.json[0].0.value_type {
        ValueType::Array(n) => n,
        _ => panic!("the text is no array"),
    };
    (0..count)
        .map(|i| {
            let prefix = format!("/{}", i);
            let entries = result
                .json
                .iter()
                .filter(|(k, _)| k.pointer == prefix || k.pointer.starts_with(&format!("{}/", prefix)))
                .map(|(k, v)| (k.clone(), v.clone()))
                .collect();
            JsonArrayEntries::new(entries, i)
        })
        .collect()
}

#[test]
fn rows_with_a_null_column_are_left_out() {
    let arena = Bump::new();
    let all = rows(r#"[{"x":1},{"x":null}]"#, &arena);
    assert_eq!(all.len(), 2);
    let kept = JSONParser::filter_non_null_column(&all, "", &vec!["/x".to_string()]);
    assert_eq!(kept.len(), 1);
    assert_eq!(kept[0].index(), 0);
    assert_eq!(kept[0].entries().len(), 2);
    assert_eq!(kept[0].find_node_at("/0/x").unwrap().1, Some("1".to_string()));
}

#[test]
fn absent_and_null_columns_are_the_same_to_the_filter() {
    let arena = Bump::new();
    let all = rows(r#"[{"x":null,"y":1},{"y":2},{"x":3,"y":null},{"x":4,"y":5}]"#, &arena);
    let by_x = JSONParser::filter_non_null_column(&all, "", &vec!["/x".to_string()]);
    assert_eq!(by_x.iter().map(|r| r.index()).collect::<Vec<usize>>(), vec![2, 3]);
    let by_both = JSONParser::filter_non_null_column(&all, "", &vec!["/x".to_string(), "/y".to_string()]);
    assert_eq!(by_both.iter().map(|r| r.index()).collect::<Vec<usize>>(), vec![3]);
    let by_none = JSONParser::filter_non_null_column(&all, "", &vec![]);
    assert_eq!(by_none.len(), 4);
    let elsewhere = JSONParser::filter_non_null_column(&all, "/rows", &vec!["/y".to_string()]);
    assert_eq!(elsewhere.len(), 0);
}

#[test]
fn filter_reads_the_index_of_the_row() {
    let entries = vec![
        (PointerKey::from_pointer("/t/12/name", ValueType::String, 3, 0), Some("n".to_string())),
        (PointerKey::from_pointer("/t/12/name", ValueType::Null, 3, 0), None),
    ];
    let second = vec![
        (PointerKey::from_pointer("/t/7/name", ValueType::Null, 3, 0), None),
        (PointerKey::from_pointer("/t/7/name", ValueType::String, 3, 0), Some("n".to_string())),
    ];
    let all = vec![JsonArrayEntries::new(entries, 12), JsonArrayEntries::new(second, 7)];
    let kept = JSONParser::filter_non_null_column(&all, "/t", &vec!["/name".to_string()]);
    assert_eq!(kept.len(), 1);
    assert_eq!(kept[0].index(), 12);
    assert_eq!(all[1].find_node_at("/t/7/name").unwrap().0.value_type, ValueType::Null);
    assert!(all[1].find_node_at("/t/7").is_none());
}

#[test]
fn widening_leaves_objects_below_the_depth_as_text() {
    let arena = Bump::new();
    let text = r#"{"a":[[{"b":1}]]}"#;
    let narrow = flat(text, ParseOptions::default().max_depth(2), &arena);
    assert_eq!(narrow.json[2].0.pointer, "/a/0/0");
    assert_eq!(narrow.json[2].0.depth, 3);
    assert_eq!(narrow.json[2].1, Some(r#"{"b":1}"#.to_string()));
    let before = pairs(&narrow);
    let widened = JSONParser::change_depth(narrow, ParseOptions::default().max_depth(5), &arena).unwrap();
    assert_eq!(pairs(&widened), before);
    let direct = flat(text, ParseOptions::default().max_depth(5), &arena);
    assert_eq!(direct.json.len(), before.len() + 1);
    assert_eq!(direct.json[3].0.pointer, "/a/0/0/b");
}

#[test]
fn widening_an_object_in_an_array_counts_its_rows_anew() {
    let arena = Bump::new();
    let text = r#"[{"k":1},{"k":{"m":2}}]"#;
    let narrow = flat(text, ParseOptions::default().max_depth(3), &arena);
    let widened = JSONParser::change_depth(narrow, ParseOptions::default().max_depth(4), &arena).unwrap();
    let direct = flat(text, ParseOptions::default().max_depth(4), &arena);
    assert_eq!(pairs(&widened), pairs(&direct));
    let last = widened.json.len() - 1;
    assert_eq!(widened.json[last].0.pointer, "/1/k/m");
    assert_eq!(widened.json[last].0.depth, 4);
    assert_eq!(direct.json[last].0.index, 1);
    assert_eq!(widened.json[last].0.index, 0);
    assert_eq!(direct.json[last].0.position, 19);
    assert_eq!(widened.json[last].0.position, 5);
}

#[test]
fn widening_in_two_steps_gives_what_one_step_gives() {
    let arena = Bump::new();
    let first = flat(DOC, ParseOptions::default().max_depth(1), &arena);
    let second = JSONParser::change_depth(first, ParseOptions::default().max_depth(2), &arena).unwrap();
    let twice = JSONParser::change_depth(second, ParseOptions::default().max_depth(4), &arena).unwrap();
    let again = flat(DOC, ParseOptions::default().max_depth(1), &arena);
    let once = JSONParser::change_depth(again, ParseOptions::default().max_depth(4), &arena).unwrap();
    assert_eq!(pairs(&twice), pairs(&once));
    assert_eq!(twice.parsing_max_depth, 4);
    assert_eq!(once.parsing_max_depth, 4);
    let kinds = |r: &ParseResult| r.json.iter().map(|(k, _)| (k.value_type, k.depth)).collect::<Vec<_>>();
    assert_eq!(kinds(&twice), kinds(&once));
}

#[test]
fn widening_keeps_every_entry_in_its_order() {
    let arena = Bump::new();
    let narrow = flat(DOC, ParseOptions::default().max_depth(1), &arena);
    let before = fields(&narrow);
    let wide = JSONParser::change_depth(narrow, ParseOptions::default().max_depth(3), &arena).unwrap();
    let after = fields(&wide);
    assert_eq!(before.len(), 3);
    assert_eq!(after.len(), 7);
    assert_eq!(after[0], before[0]);
    assert_eq!(after[4], before[1]);
    assert_eq!(after[6], before[2]);
    assert_eq!(after[1].0, "/a/b");
    assert_eq!(after[2].0, "/a/b/c");
    assert_eq!(after[3].0, "/a/b/d");
    assert_eq!(after[5].0, "/g/h");
    let mut seen = std::collections::HashSet::new();
    for (k, _) in wide.json.iter() {
        assert!(seen.insert(k.pointer));
    }
}
