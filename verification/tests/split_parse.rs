use leviath_runtime::fanout::split_parse::{
    fenced_block, outermost_array, parse_work_items, slug, strip_tool_protocol_markup,
    work_item_from_value, work_items_from_parsed, work_items_from_value,
};
use leviath_runtime::json::{parse_json, scalar_text, Json};

/// The member of an object under a key.
fn member<'a>(value: &'a Json, key: &str) -> &'a Json {
    match value {
        Json::Object(members) => &members.iter().find(|(k, _)| k == key).unwrap().1,
        other => panic!("not an object: {other:?}"),
    }
}

/// The text of a string value.
fn text_of(value: &Json) -> &str {
    match value {
        Json::Text(s) => s,
        other => panic!("not a string: {other:?}"),
    }
}

#[test]
fn parse_work_items_unwraps_an_envelope() {
    for key in ["items", "work_items", "sub_questions", "tasks"] {
        let json = format!(r#"{{"{key}": [{{"id":"a"}},{{"id":"b"}}]}}"#);
        let items = parse_work_items(&json).expect("the envelope is unwrapped");
        assert_eq!(items.len(), 2, "{key}");
        assert_eq!(items[0].id, "a", "{key}");
    }
}

#[test]
fn parse_work_items_takes_a_single_bare_object() {
    let items = parse_work_items(r#"{"id":"only","context":{"question":"q"}}"#).unwrap();
    assert_eq!(items.len(), 1);
    assert_eq!(items[0].id, "only");
    assert_eq!(text_of(member(&items[0].context, "question")), "q");
}

#[test]
fn parse_work_items_takes_a_bare_object_with_only_a_context() {
    let items = parse_work_items(r#"{"context":{"question":"q"}}"#).unwrap();
    assert_eq!(items.len(), 1);
    assert_eq!(items[0].id, "");
    assert_eq!(text_of(member(&items[0].context, "question")), "q");
}

#[test]
fn parse_work_items_rejects_a_bare_object_with_the_wrong_types() {
    let err = parse_work_items(r#"{"id": 42, "context": {}}"#).unwrap_err();
    assert!(err.contains("work items"), "{err}");
}

#[test]
fn parse_work_items_takes_an_array_of_questions() {
    let items =
        parse_work_items(r#"["How does semaglutide work?", "What happens after"]"#).unwrap();
    assert_eq!(items.len(), 2);
    assert_eq!(items[0].id, "how-does-semaglutide-work");
    assert_eq!(
        text_of(member(&items[0].context, "question")),
        "How does semaglutide work?"
    );
    assert_eq!(items[1].id, "what-happens-after");
}

#[test]
fn a_generated_id_is_bounded() {
    let long = "one two three four five six seven eight nine";
    let items = parse_work_items(&format!(r#"["{long}"]"#)).unwrap();
    assert_eq!(items[0].id, "one-two-three-four-five-six");
}

#[test]
fn parse_work_items_prefers_a_fenced_block_over_stray_brackets() {
    let response = "See [6] and [14] above.\n```json\n[{\"id\":\"real\"}]\n```\nThanks!";
    let items = parse_work_items(response).unwrap();
    assert_eq!(items.len(), 1);
    assert_eq!(items[0].id, "real");
}

#[test]
fn parse_work_items_reads_a_fence_with_no_language_tag() {
    assert_eq!(
        parse_work_items("x ```[{\"id\":\"a\"}]``` y").unwrap()[0].id,
        "a"
    );
}

#[test]
fn parse_work_items_falls_through_an_unterminated_fence() {
    assert_eq!(
        parse_work_items("```json\n[{\"id\":\"a\"}]").unwrap()[0].id,
        "a"
    );
}

#[test]
fn parse_work_items_strips_text_protocol_tool_call_markup() {
    let response = "Here is the plan.\n</\u{ff5c}DSML\u{ff5c}parameter>\n</\u{ff5c}DSML\u{ff5c}tool_calls>\n[{\"id\":\"kept\"}]";
    let items = parse_work_items(response).unwrap();
    assert_eq!(items.len(), 1);
    assert_eq!(items[0].id, "kept");
}

#[test]
fn stripping_markup_keeps_real_tags_and_survives_a_dangling_bracket() {
    let response = "</\u{ff5c}X\u{ff5c}call> <b>bold</b> 3 < 4\n[{\"id\":\"a\"}]";
    let items = parse_work_items(response).unwrap();
    assert_eq!(items[0].id, "a");
}

#[test]
fn parse_work_items_rejects_a_scalar_and_says_what_it_got() {
    let err = parse_work_items("42").unwrap_err();
    assert!(err.contains("not a JSON array"), "{err}");
    assert!(err.contains("42"), "{err}");
}

#[test]
fn parse_work_items_rejects_an_array_of_the_wrong_thing() {
    let err = parse_work_items("[1, 2, 3]").unwrap_err();
    assert!(err.contains("work items"), "{err}");
}

#[test]
fn parse_work_items_rejects_prose_with_no_json_at_all() {
    let err = parse_work_items("I have completed the research.").unwrap_err();
    assert!(!err.is_empty(), "{err}");
}

#[test]
fn split_parse_parse_work_items_handles_array_prose_and_errors() {
    let ok = parse_work_items(r#"[{"id":"a"},{"id":"b","context":{"k":1}}]"#).unwrap();
    assert_eq!(ok.len(), 2);
    assert_eq!(ok[0].id, "a");
    assert!(matches!(member(&ok[1].context, "k"), Json::PosInt(1)));
    // Missing fields default.
    assert_eq!(parse_work_items("[{}]").unwrap()[0].id, "");
    // Prose around the array is tolerated.
    assert_eq!(
        parse_work_items("Here you go:\n```json\n[{\"id\":\"x\"}]\n```")
            .unwrap()
            .len(),
        1
    );
    // No brackets at all.
    assert!(parse_work_items("no array here").is_err());
    // Closing before opening.
    assert!(parse_work_items("]nope[").is_err());
    // Brackets but not valid JSON.
    assert!(parse_work_items("[not json]").is_err());
}

#[test]
fn a_botched_envelope_is_not_a_work_item() {
    let err = parse_work_items(r#"{"items": "all of them"}"#).unwrap_err();
    assert_eq!(
        err,
        "split output is a JSON object that is neither a work item (no `id` or `context`) nor a list of them (no `items` array)"
    );
}

#[test]
fn markup_is_cut_out_and_other_tags_stay() {
    let text = "a</\u{ff5c}X\u{ff5c}call>b <i>c</i> 3 < 4";
    assert_eq!(strip_tool_protocol_markup(text), "ab <i>c</i> 3 < 4");
    assert_eq!(strip_tool_protocol_markup("plain <i>text</i>"), "plain <i>text</i>");
}

#[test]
fn the_brackets_are_the_outermost_ones() {
    assert_eq!(outermost_array("x [a [b] c] y"), Some("[a [b] c]"));
    assert_eq!(outermost_array("] ["), None);
    assert_eq!(outermost_array("é[€]"), Some("[€]"));
}

#[test]
fn a_fence_needs_both_ends() {
    assert_eq!(fenced_block("a ```json\n  [1]  \n``` b"), Some("[1]"));
    assert_eq!(fenced_block("a ```[1]``` b"), Some("[1]"));
    assert_eq!(fenced_block("a ```[1]"), None);
}

#[test]
fn a_slug_is_made_of_lower_case_words() {
    assert_eq!(slug("How does X-ray work?"), "how-does-x-ray-work");
    assert_eq!(slug("  --  "), "");
    assert_eq!(slug("Ünïcode 42"), "n-code-42");
}

#[test]
fn scalars_are_written_as_the_json_printer_writes_them() {
    for text in ["null", "true", "false", "0", "18446744073709551615", "-7", "1.5", "\"a\\\"b\\n\""] {
        let value: serde_json::Value = serde_json::from_str(text).unwrap();
        let ours = parse_json(text).unwrap();
        assert_eq!(scalar_text(&ours), value.to_string(), "{text}");
    }
}

#[test]
fn parse_errors_carry_the_parsers_words() {
    let theirs = serde_json::from_str::<serde_json::Value>("[1,").unwrap_err().to_string();
    assert_eq!(parse_json("[1,").unwrap_err(), theirs);
    let err = work_items_from_parsed(parse_json("[1,")).unwrap_err();
    assert_eq!(err, format!("split output is not valid JSON: {theirs}"));
}

#[test]
fn objects_keep_each_key_once() {
    match parse_json(r#"{"b":1,"a":2,"b":3}"#).unwrap() {
        Json::Object(members) => {
            let value: serde_json::Value = serde_json::from_str(r#"{"b":1,"a":2,"b":3}"#).unwrap();
            let keys: Vec<&str> = members.iter().map(|(k, _)| k.as_str()).collect();
            let theirs: Vec<&str> = value.as_object().unwrap().keys().map(|k| k.as_str()).collect();
            assert_eq!(keys, theirs);
        }
        other => panic!("{other:?}"),
    }
}

#[test]
fn a_wrong_field_type_is_named_as_the_deserializer_names_it() {
    let err = work_items_from_value(parse_json(r#"[{"id": 42}]"#).unwrap()).unwrap_err();
    assert_eq!(
        err,
        "split output is not a valid JSON array of work items: invalid type: integer `42`, expected a string"
    );
    let err = work_items_from_value(parse_json("[1.5]").unwrap()).unwrap_err();
    assert!(err.contains("floating point `1.5`"), "{err}");
    let err = work_items_from_value(parse_json("[true]").unwrap()).unwrap_err();
    assert!(err.contains("boolean `true`"), "{err}");
}

#[test]
fn an_array_may_stand_for_a_work_item() {
    let items = work_items_from_value(parse_json(r#"[["a", 7]]"#).unwrap()).unwrap();
    assert_eq!(items[0].id, "a");
    assert!(matches!(items[0].context, Json::PosInt(7)));
    let err = work_items_from_value(parse_json(r#"[["a", 7, 8]]"#).unwrap()).unwrap_err();
    assert!(err.ends_with("invalid length 3, expected fewer elements in array"), "{err}");
}

#[test]
fn a_type_error_says_what_it_found() {
    let before = "split output is not a valid JSON array of work items";
    let found = [
        (Json::Null, "null"),
        (Json::Bool(true), "boolean `true`"),
        (Json::Bool(false), "boolean `false`"),
        (Json::PosInt(7), "integer `7`"),
        (Json::NegInt(-12), "integer `-12`"),
        (Json::Float("1.5".to_string()), "floating point `1.5`"),
    ];
    for (value, words) in found {
        assert_eq!(
            work_item_from_value(value).unwrap_err(),
            format!("{before}: invalid type: {words}, expected struct WorkItem")
        );
    }
    for (id, words) in [(Json::Array(vec![]), "sequence"), (Json::Object(vec![]), "map")] {
        assert_eq!(
            work_item_from_value(Json::Object(vec![("id".to_string(), id)])).unwrap_err(),
            format!("{before}: invalid type: {words}, expected a string")
        );
    }
}

#[test]
fn only_markup_is_dropped() {
    for (text, left) in [
        ("a < b </\u{ff5c}X\u{ff5c}>c", "a < b c"),
        ("a <b <\u{ff5c}x> c", "a <b  c"),
        ("<\u{ff5c}x>a<\u{ff5c}y>", "a"),
        ("a > b \u{ff5c} <i>c</i>", "a > b \u{ff5c} <i>c</i>"),
        ("<\u{ff5c} never closed", "<\u{ff5c} never closed"),
        ("\u{ff5c}> closed only", "\u{ff5c}> closed only"),
    ] {
        assert_eq!(strip_tool_protocol_markup(text), left);
    }
}

#[test]
fn an_id_made_from_an_id_is_that_id() {
    for text in ["How does X work?", "one two three four five six seven", "--", "A1 b2"] {
        let id = slug(text);
        assert_eq!(slug(&id), id);
        assert!(id.split('-').filter(|w| !w.is_empty()).count() <= 6);
    }
}

#[test]
fn written_items_are_read_back() {
    let text = "  [{\"id\":\"a\",\"context\":{\"q\":[1,null,\"x]\"]}},{\"id\":\"\",\"context\":null}]\n";
    let items = parse_work_items(text).unwrap();
    assert_eq!(items.len(), 2);
    assert_eq!(items[0].id, "a");
    match member(&items[0].context, "q") {
        Json::Array(values) => {
            assert!(matches!(values[0], Json::PosInt(1)));
            assert!(matches!(values[1], Json::Null));
            assert_eq!(text_of(&values[2]), "x]");
        }
        other => panic!("not an array: {other:?}"),
    }
    assert_eq!(items[1].id, "");
    assert!(matches!(items[1].context, Json::Null));
}

#[test]
fn a_string_is_written_with_its_escapes() {
    let text = "q\" b\\ \u{8}\t\n\u{c}\r \u{1}\u{1f} \u{7f}\u{e9}/";
    assert_eq!(
        scalar_text(&Json::Text(text.to_string())),
        "\"q\\\" b\\\\ \\b\\t\\n\\f\\r \\u0001\\u001f \u{7f}\u{e9}/\""
    );
}

#[test]
fn items_written_by_the_json_writer_are_read_back() {
    let mut written = Vec::new();
    for (id, context) in [("first", r#"{"q":"a [1] b","z":[-3]}"#), ("", "null"), ("x\"y", "7")] {
        let mut members = serde_json::Map::new();
        members.insert("id".to_string(), serde_json::Value::from(id));
        members.insert("context".to_string(), serde_json::from_str(context).unwrap());
        written.push(serde_json::Value::Object(members));
    }
    let text = serde_json::Value::Array(written).to_string();
    for around in ["", "\n  "] {
        let items = parse_work_items(&format!("{around}{text}{around}")).unwrap();
        let ids: Vec<&str> = items.iter().map(|item| item.id.as_str()).collect();
        assert_eq!(ids, ["first", "", "x\"y"]);
        assert_eq!(text_of(member(&items[0].context, "q")), "a [1] b");
        assert!(matches!(items[1].context, Json::Null));
        assert!(matches!(items[2].context, Json::PosInt(7)));
    }
}

#[test]
fn items_with_the_id_ahead_of_the_context_are_read_back() {
    let item = |id: &str, context: &str| format!("{{\"id\":{id:?},\"context\":{context}}}");
    let text = format!(
        "[{},{},{}]",
        item("first", r#"{"q":"a [1] b","z":[-3,{}]}"#),
        item("", "null"),
        item("third", "[true,\"x\"]"),
    );
    for around in ["", "\n\t "] {
        let items = parse_work_items(&format!("{around}{text}{around}")).unwrap();
        let ids: Vec<&str> = items.iter().map(|item| item.id.as_str()).collect();
        assert_eq!(ids, ["first", "", "third"]);
        assert_eq!(text_of(member(&items[0].context, "q")), "a [1] b");
        assert_eq!(
            format!("{:?}", member(&items[0].context, "z")),
            format!("{:?}", Json::Array(vec![Json::NegInt(-3), Json::Object(vec![])]))
        );
        assert!(matches!(items[1].context, Json::Null));
        match &items[2].context {
            Json::Array(values) => assert_eq!(values.len(), 2),
            other => panic!("not an array: {other:?}"),
        }
    }
}

#[test]
fn members_are_read_in_the_order_of_their_keys() {
    let value = parse_json(r#"{"id":1,"context":{"b":2,"a":3}}"#).unwrap();
    let keys = |value: &Json| match value {
        Json::Object(members) => members.iter().map(|(key, _)| key.clone()).collect::<Vec<_>>(),
        other => panic!("not an object: {other:?}"),
    };
    assert_eq!(keys(&value), ["context", "id"]);
    assert_eq!(keys(member(&value, "context")), ["a", "b"]);
}
