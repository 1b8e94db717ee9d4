use rayline_c82::json::{Json, JsonObject};
use rayline_c82::number::JsonNumber;
use rayline_c82::render::{ascii_json_string, python_json, python_string_coerce};
use rayline_c82::text::{
    ascii_lowercase, contains_text, decimal_text, hex_text, is_white_space, join, place, same_text,
    trim, Standing,
};

fn json(text: &str) -> Json {
    Json::parse(text).unwrap()
}

#[test]
fn numbers_keep_their_kind_and_text() {
    assert_eq!(json("7"), Json::Number(JsonNumber::Unsigned(7)));
    assert_eq!(json("-7"), Json::Number(JsonNumber::Signed(-7)));
    assert!(matches!(json("7.0"), Json::Number(JsonNumber::Float(_))));
    assert_eq!(
        json("18446744073709551615"),
        Json::Number(JsonNumber::Unsigned(u64::MAX))
    );
    for text in ["0", "-1", "18446744073709551615", "-9223372036854775808", "0.5", "1e+300", "-0.0"] {
        match json(text) {
            Json::Number(number) => {
                assert_eq!(number.to_text(), text);
                assert_eq!(number.copy(), number);
            }
            _ => panic!("not a number"),
        }
        assert_eq!(json(text).to_text(), text);
        assert_eq!(python_json(&json(text)), text);
        assert_eq!(python_string_coerce(&json(text)), text);
    }
}

#[test]
fn only_integers_from_zero_are_unsigned() {
    assert_eq!(JsonNumber::Unsigned(5).as_u64(), Some(5));
    assert_eq!(JsonNumber::Signed(5).as_u64(), Some(5));
    assert_eq!(JsonNumber::Signed(-5).as_u64(), None);
    assert_eq!(
        JsonNumber::from_number(serde_json::Number::from_f64(5.0).unwrap()).as_u64(),
        None
    );
    assert_eq!(
        JsonNumber::from_number(serde_json::Number::from(-3)),
        JsonNumber::Signed(-3)
    );
}

#[test]
fn members_stand_by_key_and_the_last_written_counts() {
    let mut object = JsonObject::new();
    object.insert("b".to_owned(), Json::unsigned(1));
    object.insert("a".to_owned(), Json::unsigned(2));
    object.insert("é".to_owned(), Json::unsigned(3));
    object.insert("b".to_owned(), Json::unsigned(4));
    assert_eq!(object.len(), 3);
    assert_eq!(object.key_at(0), "a");
    assert_eq!(object.key_at(1), "b");
    assert_eq!(object.value_at(1), &Json::unsigned(4));
    assert_eq!(object.get("b"), Some(&Json::unsigned(4)));
    assert_eq!(object.get("c"), None);
    assert_eq!(object.get("é"), Some(&Json::unsigned(3)));
    assert_eq!(object.remove("b"), Some(Json::unsigned(4)));
    assert_eq!(object.remove("b"), None);
    assert_eq!(object.get("b"), None);
    assert_eq!(object.replace_at(0, Json::Null), Json::unsigned(2));
    assert_eq!(Json::Object(object), json(r#"{"a":null,"é":3}"#));
}

#[test]
fn members_are_found_in_objects_only() {
    let value = json(r#"{"a":"x","b":1}"#);
    assert_eq!(value.get("a"), Some(&Json::text("x")));
    assert_eq!(value.get_text("a"), Some(&"x".to_owned()));
    assert_eq!(value.get_text("b"), None);
    assert_eq!(Json::text("a").get("a"), None);
}

#[test]
fn values_pass_through_serde_json_unchanged() {
    let text = r#"{"a":[null,true,-1,2,0.5,"x\n"],"b":{"c":{}}}"#;
    let value = json(text);
    assert_eq!(Json::from_value(value.to_value()), value);
    assert_eq!(value.copy(), value);
    assert_eq!(value.to_text(), text);
    assert_eq!(value.to_bytes(), text.as_bytes());
    assert_eq!(Json::parse_bytes(text.as_bytes()), Some(json(text)));
    assert_eq!(Json::parse("{"), None);
    assert_eq!(Json::parse_bytes(b"\"\xff\""), None);
    assert_eq!(
        value.to_value(),
        serde_json::from_str::<serde_json::Value>(text).unwrap()
    );
}

#[test]
fn strings_are_escaped_to_ascii() {
    assert_eq!(ascii_json_string(""), "\"\"");
    assert_eq!(
        ascii_json_string("a\"\\\u{8}\t\n\u{c}\r\u{1}\u{1f}/\u{7f}"),
        "\"a\\\"\\\\\\b\\t\\n\\f\\r\\u0001\\u001f/\u{7f}\""
    );
    assert_eq!(ascii_json_string("é\u{ffff}"), "\"\\u00e9\\uffff\"");
    assert_eq!(ascii_json_string("😀\u{10ffff}"), "\"\\ud83d\\ude00\\udbff\\udfff\"");
}

#[test]
fn escaped_strings_read_back_as_they_were() {
    for text in ["plain", "é😀\u{10ffff}\u{10000}", "\u{0}\u{1f}\"\\/\n", "\u{d7ff}\u{e000}"] {
        let rendered = ascii_json_string(text);
        assert!(rendered.is_ascii());
        assert_eq!(json(&rendered), Json::text(text));
    }
}

#[test]
fn python_rendering_spaces_its_separators() {
    assert_eq!(
        python_json(&json(r#"{"b":[1,null,true,false,{"x":"é"}],"a":{},"c":[]}"#)),
        "{\"a\": {}, \"b\": [1, null, true, false, {\"x\": \"\\u00e9\"}], \"c\": []}"
    );
}

#[test]
fn bare_texts_follow_python() {
    assert_eq!(python_string_coerce(&Json::Null), "");
    assert_eq!(python_string_coerce(&Json::Bool(true)), "True");
    assert_eq!(python_string_coerce(&Json::Bool(false)), "False");
    assert_eq!(python_string_coerce(&Json::text("é\"")), "é\"");
    assert_eq!(python_string_coerce(&json("[1, \"a\"]")), "[1,\"a\"]");
    assert_eq!(python_string_coerce(&json("{\"b\": 1, \"a\": 2}")), "{\"a\":2,\"b\":1}");
}

#[test]
fn white_space_is_what_unicode_says() {
    for code in 0..=0x10ffffu32 {
        if let Some(character) = char::from_u32(code) {
            assert_eq!(is_white_space(character), character.is_whitespace());
        }
    }
    assert_eq!(trim(" \u{3000}a b\t\n"), "a b");
    assert_eq!(trim(" \n"), "");
}

#[test]
fn texts_compare_by_scalar_value() {
    let order = |left: &str, right: &str| match place(left, right) {
        Standing::Before => -1,
        Standing::Same => 0,
        Standing::After => 1,
    };
    assert_eq!(order("", ""), 0);
    assert_eq!(order("", "a"), -1);
    assert_eq!(order("ab", "a"), 1);
    assert_eq!(order("a\u{ffff}", "a\u{10000}"), -1);
    assert_eq!(order("b", "ab"), 1);
    assert!(same_text("é", "é"));
    assert!(!same_text("é", "e"));
}

#[test]
fn small_texts() {
    assert_eq!(decimal_text(0), "0");
    assert_eq!(decimal_text(u64::MAX), "18446744073709551615");
    assert_eq!(hex_text(&vec![0, 10, 255]), "000aff");
    assert_eq!(join(&vec!["a".to_owned(), "b".to_owned(), "".to_owned()], ", "), "a, b, ");
    assert_eq!(join(&vec![], ", "), "");
    assert_eq!(ascii_lowercase("ABZ[É"), "abz[É");
    assert!(contains_text("abc", ""));
    assert!(contains_text("aabc", "abc"));
    assert!(!contains_text("ab", "abc"));
    assert!(!contains_text("acb", "ab"));
}

#[test]
fn values_read_back_from_their_text() {
    let values = [
        r#"{"a":[null,true,-1,2,"x\n\"\\\u0000é😀"],"":{"c":{}}}"#,
        "18446744073709551615",
        "-9223372036854775808",
        "\"\"",
    ];
    for text in values {
        let value = json(text);
        assert_eq!(Json::parse(&value.to_text()), Some(value.copy()));
        assert_eq!(Json::parse_bytes(&value.to_bytes()), Some(value));
    }
}

#[test]
fn nesting_has_a_limit() {
    let nested = |levels: usize| format!("{}{}", "[".repeat(levels), "]".repeat(levels));
    let deepest = json(&nested(127));
    assert_eq!(deepest.to_text(), nested(127));
    assert_eq!(Json::parse(&nested(128)), None);
    assert_eq!(Json::parse_bytes(nested(128).as_bytes()), None);
    let beyond = Json::Array(vec![deepest]);
    assert_eq!(beyond.to_text(), nested(128));
    let objects = format!("{}1{}", "{\"a\":".repeat(127), "}".repeat(127));
    assert_eq!(json(&objects).to_text(), objects);
    assert_eq!(Json::parse(&format!("[{objects}]")), None);
}

#[test]
fn different_strings_are_quoted_differently() {
    let texts = [
        "", "\"", "\\", "\\u00e9", "é", "\u{1}", "\\u0001", "u0001", "\n", "n", "\\n", "\u{10000}",
        "\\ud800\\udc00", "\u{ffff}", "\u{10000}a", "b", "\u{8}",
    ];
    for (i, left) in texts.iter().enumerate() {
        for right in &texts[i + 1..] {
            assert_ne!(ascii_json_string(left), ascii_json_string(right));
        }
    }
}

#[test]
fn compact_text_has_no_optional_white_space() {
    assert_eq!(
        json("{ \"b\" : [ 1 , -2 , null , true , false , [ ] , { } ] , \"a\\u0001é\" : \"\\u007f/\" }")
            .to_text(),
        "{\"a\\u0001é\":\"\u{7f}/\",\"b\":[1,-2,null,true,false,[],{}]}"
    );
}

#[test]
fn python_renderings_read_back() {
    let values = [
        r#"{"b":[1,-2,null,true,false,[],{}],"a":{"é😀":"\u0000\"\\"}}"#,
        "18446744073709551615",
        "-9223372036854775808",
        "\"\u{10ffff}\u{d7ff}\u{e000}\"",
        "[[[]]]",
    ];
    for text in values {
        let value = json(text);
        assert_eq!(Json::parse(&python_json(&value)), Some(value));
    }
    let deepest = format!("{}{}", "[".repeat(127), "]".repeat(127));
    assert_eq!(Json::parse(&python_json(&json(&deepest))), Some(json(&deepest)));
    for code in (0..=0x10ffffu32).step_by(17) {
        if let Some(character) = char::from_u32(code) {
            let text = format!("a{character}u{character}");
            assert_eq!(Json::parse(&ascii_json_string(&text)), Some(Json::text(&text)));
        }
    }
}
