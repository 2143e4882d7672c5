use mysql_json::extract::extract_json;
use mysql_json::path_expr::{
    PathExpression, PathExpressionFlag, PathLeg, PATH_EXPRESSION_CONTAINS_ASTERISK,
    PATH_EXPRESSION_CONTAINS_DOUBLE_ASTERISK, PATH_EXPR_ARRAY_INDEX_ASTERISK, PATH_EXPR_ASTERISK,
};
use mysql_json::unquote::{decode_escaped_unicode, unquote_string, UnquoteError};
use mysql_json::value::{get_sorted_keys, Decimal, Json, JsonObject};

fn dec(mantissa: i64, exponent: i32) -> Json {
    Json::Double(Decimal { mantissa, exponent })
}

fn expr(legs: Vec<PathLeg>, flags: PathExpressionFlag) -> PathExpression {
    PathExpression { legs, flags }
}

fn abc_object() -> JsonObject {
    let mut m = JsonObject::new();
    m.insert(String::from("a"), Json::String(String::from("a1")));
    m.insert(String::from("b"), dec(2008, -2));
    m.insert(String::from("c"), Json::Boolean(false));
    m
}

#[test]
fn test_get_sorted_keys() {
    let mut m = JsonObject::new();
    let keys = ["a", "b", "c"];
    for k in &keys {
        m.insert(String::from(*k), Json::Null);
    }
    let expected: Vec<_> = keys.iter().map(|x| String::from(*x)).collect();
    assert_eq!(get_sorted_keys(&m), expected);
}

#[test]
fn sorted_keys_ignore_insertion_order() {
    let orders = [["a", "b", "c"], ["c", "a", "b"], ["b", "c", "a"], ["c", "b", "a"]];
    for order in &orders {
        let mut m = JsonObject::new();
        for k in order {
            m.insert(String::from(*k), Json::Null);
        }
        let got = get_sorted_keys(&m);
        assert_eq!(got, vec![String::from("a"), String::from("b"), String::from("c")]);
    }
}

#[test]
fn sorted_keys_use_code_point_order() {
    let mut m = JsonObject::new();
    for k in ["b", "ab", "a", "", "B", "\u{597d}"] {
        m.insert(String::from(k), Json::Null);
    }
    let got = get_sorted_keys(&m);
    let expected: Vec<String> =
        ["", "B", "a", "ab", "b", "\u{597d}"].iter().map(|x| String::from(*x)).collect();
    assert_eq!(got, expected);
}

#[test]
fn insert_replaces_an_existing_key() {
    let mut m = JsonObject::new();
    m.insert(String::from("k"), Json::I64(1));
    m.insert(String::from("k"), Json::I64(2));
    assert_eq!(m.len(), 1);
    assert_eq!(m.value_at(0), &Json::I64(2));
    assert_eq!(m.find("k"), Some(0));
    assert_eq!(m.find("z"), None);
}

#[test]
fn test_json_extract() {
    let m = abc_object();
    let mut mm = JsonObject::new();
    mm.insert(String::from("g"), Json::Object(m.clone()));
    let mut test_cases = vec![
        // no path expression
        (Json::Null, vec![], None),
        // Index
        (
            Json::Array(vec![Json::Boolean(true), Json::I64(2017)]),
            vec![expr(vec![PathLeg::Index(0)], PathExpressionFlag::default())],
            Some(Json::Boolean(true)),
        ),
        (
            Json::Array(vec![Json::Boolean(true), Json::I64(2017)]),
            vec![expr(
                vec![PathLeg::Index(PATH_EXPR_ARRAY_INDEX_ASTERISK)],
                PATH_EXPRESSION_CONTAINS_ASTERISK,
            )],
            Some(Json::Array(vec![Json::Boolean(true), Json::I64(2017)])),
        ),
        (
            Json::Array(vec![Json::Boolean(true), Json::I64(2017)]),
            vec![expr(vec![PathLeg::Index(2)], PathExpressionFlag::default())],
            None,
        ),
        (
            dec(618, -2),
            vec![expr(vec![PathLeg::Index(0)], PathExpressionFlag::default())],
            Some(dec(618, -2)),
        ),
        // Key
        (
            Json::Object(m.clone()),
            vec![expr(vec![PathLeg::Key(String::from("c"))], PathExpressionFlag::default())],
            Some(Json::Boolean(false)),
        ),
        (
            Json::Object(m.clone()),
            vec![expr(
                vec![PathLeg::Key(String::from(PATH_EXPR_ASTERISK))],
                PATH_EXPRESSION_CONTAINS_ASTERISK,
            )],
            Some(Json::Array(vec![
                Json::String(String::from("a1")),
                dec(2008, -2),
                Json::Boolean(false),
            ])),
        ),
        (
            Json::Object(m.clone()),
            vec![expr(vec![PathLeg::Key(String::from("d"))], PathExpressionFlag::default())],
            None,
        ),
        // Double asterisks
        (
            Json::I64(21),
            vec![expr(
                vec![PathLeg::DoubleAsterisk, PathLeg::Key(String::from("c"))],
                PATH_EXPRESSION_CONTAINS_DOUBLE_ASTERISK,
            )],
            None,
        ),
        (
            Json::Object(mm),
            vec![expr(
                vec![PathLeg::DoubleAsterisk, PathLeg::Key(String::from("c"))],
                PATH_EXPRESSION_CONTAINS_DOUBLE_ASTERISK,
            )],
            Some(Json::Boolean(false)),
        ),
        (
            Json::Array(vec![Json::Object(m), Json::Boolean(true)]),
            vec![expr(
                vec![PathLeg::DoubleAsterisk, PathLeg::Key(String::from("c"))],
                PATH_EXPRESSION_CONTAINS_DOUBLE_ASTERISK,
            )],
            Some(Json::Boolean(false)),
        ),
    ];
    for (i, (j, exprs, expected)) in test_cases.drain(..).enumerate() {
        let got = j.extract(&exprs[..]);
        assert_eq!(got, expected, "#{} expect {:?}, but got {:?}", i, expected, got);
    }
}

#[test]
fn extract_with_empty_path_returns_the_value() {
    let j = Json::Array(vec![Json::I64(1), Json::Null]);
    let got = j.extract(&[expr(vec![], 0)]);
    assert_eq!(got, Some(j.clone()));
}

#[test]
fn extract_wildcard_key_keeps_sorted_order() {
    let mut m = JsonObject::new();
    m.insert(String::from("c"), Json::Boolean(false));
    m.insert(String::from("a"), Json::String(String::from("a1")));
    m.insert(String::from("b"), dec(2008, -2));
    let got = Json::Object(m).extract(&[expr(
        vec![PathLeg::Key(String::from(PATH_EXPR_ASTERISK))],
        PATH_EXPRESSION_CONTAINS_ASTERISK,
    )]);
    assert_eq!(
        got,
        Some(Json::Array(vec![
            Json::String(String::from("a1")),
            dec(2008, -2),
            Json::Boolean(false),
        ]))
    );
}

#[test]
fn extract_two_expressions_wraps_single_matches() {
    let j = Json::Array(vec![Json::I64(7), Json::I64(8)]);
    let got = j.extract(&[expr(vec![PathLeg::Index(1)], 0), expr(vec![PathLeg::Index(0)], 0)]);
    assert_eq!(got, Some(Json::Array(vec![Json::I64(8), Json::I64(7)])));
}

#[test]
fn extract_wildcard_with_one_match_is_unwrapped() {
    let j = Json::Array(vec![Json::I64(7)]);
    let got = j.extract(&[expr(
        vec![PathLeg::Index(PATH_EXPR_ARRAY_INDEX_ASTERISK)],
        PATH_EXPRESSION_CONTAINS_ASTERISK,
    )]);
    assert_eq!(got, Some(Json::I64(7)));
}

#[test]
fn extract_index_on_object_wraps_it() {
    let j = Json::Object(abc_object());
    let got = j.extract(&[expr(vec![PathLeg::Index(0), PathLeg::Key(String::from("a"))], 0)]);
    assert_eq!(got, Some(Json::String(String::from("a1"))));
    let negative = j.extract(&[expr(vec![PathLeg::Index(-2)], 0)]);
    assert_eq!(negative, None);
}

#[test]
fn extract_key_on_array_matches_nothing() {
    let j = Json::Array(vec![Json::Object(abc_object())]);
    let got = j.extract(&[expr(vec![PathLeg::Key(String::from("a"))], 0)]);
    assert_eq!(got, None);
}

#[test]
fn double_asterisk_visits_every_depth_in_order() {
    let mut inner = JsonObject::new();
    inner.insert(String::from("x"), Json::I64(2));
    let mut outer = JsonObject::new();
    outer.insert(String::from("x"), Json::I64(1));
    outer.insert(String::from("y"), Json::Array(vec![Json::Object(inner), Json::I64(3)]));
    let path = expr(
        vec![PathLeg::DoubleAsterisk, PathLeg::Key(String::from("x"))],
        PATH_EXPRESSION_CONTAINS_DOUBLE_ASTERISK,
    );
    let j = Json::Object(outer);
    let all = extract_json(j.clone(), &path);
    assert_eq!(all, vec![Json::I64(1), Json::I64(2)]);
    let got = j.extract(&[path]);
    assert_eq!(got, Some(Json::Array(vec![Json::I64(1), Json::I64(2)])));
}

#[test]
fn double_asterisk_alone_lists_every_node() {
    let j = Json::Array(vec![Json::I64(1), Json::Array(vec![Json::Null])]);
    let path = expr(vec![PathLeg::DoubleAsterisk], PATH_EXPRESSION_CONTAINS_DOUBLE_ASTERISK);
    let all = extract_json(j.clone(), &path);
    assert_eq!(
        all,
        vec![j.clone(), Json::I64(1), Json::Array(vec![Json::Null]), Json::Null]
    );
}

#[test]
fn test_decode_escaped_unicode() {
    let mut test_cases = vec![
        ("5e8a", '床'),
        ("524d", '前'),
        ("660e", '明'),
        ("6708", '月'),
        ("5149", '光'),
    ];
    for (i, (escaped, expected)) in test_cases.drain(..).enumerate() {
        let d = decode_escaped_unicode(escaped);
        assert!(d.is_ok(), "#{} expect ok but got err {:?}", i, d);
        let got = d.unwrap();
        assert_eq!(got, expected, "#{} expect {:?} but got {:?}", i, expected, got);
    }
}

#[test]
fn decode_escaped_unicode_rejects_bad_input() {
    for s in ["", "zz12", "d800", "dfff", "110000", "5e8g", "+5e8"] {
        assert_eq!(decode_escaped_unicode(s), Err(UnquoteError::InvalidUnicodeEscape), "{:?}", s);
    }
    assert_eq!(decode_escaped_unicode("0041"), Ok('A'));
    assert_eq!(decode_escaped_unicode("FFFD"), Ok('\u{fffd}'));
    assert_eq!(decode_escaped_unicode("10ffff"), Ok('\u{10ffff}'));
}

#[test]
fn test_json_unquote() {
    // test unquote json string
    let mut test_cases = vec![
        ("\\b", true, Some("\x08")),
        ("\\f", true, Some("\x0C")),
        ("\\n", true, Some("\x0A")),
        ("\\r", true, Some("\x0D")),
        ("\\t", true, Some("\x0B")),
        ("\\\\", true, Some("\x5c")),
        ("\\u597d", true, Some("好")),
        ("0\\u597d0", true, Some("0好0")),
        ("[", true, Some("[")),
        // invalid input
        ("\\", false, None),
        ("\\u59", false, None),
    ];
    for (i, (input, no_error, expected)) in test_cases.drain(..).enumerate() {
        let j = Json::String(String::from(input));
        let r = j.unquote();
        if no_error {
            assert!(r.is_ok(), "#{} expect unquote ok but got err {:?}", i, r);
            let got = r.unwrap();
            let expected = String::from(expected.unwrap());
            assert_eq!(got, expected, "#{} expect {:?} but got {:?}", i, expected, got);
        } else {
            assert!(r.is_err(), "#{} expected error but got {:?}", i, r);
        }
    }

    // test unquote other json types
    let mut test_cases = vec![
        (Json::Object(JsonObject::new()), "{}"),
        (Json::Array(vec![]), "[]"),
        (Json::I64(2017), "2017"),
        (dec(1928, -2), "19.28"),
        (Json::Boolean(true), "true"),
        (Json::Null, "null"),
    ];
    for (i, (j, expected)) in test_cases.drain(..).enumerate() {
        let expected = String::from(expected);
        let r = j.unquote();
        assert!(r.is_ok(), "#{} expect unquote ok but got err {:?}", i, r);
        let got = r.unwrap();
        assert_eq!(got, expected, "#{} expect {:?} but got {:?}", i, expected, got);
    }
}

#[test]
fn unquote_errors_name_their_kind() {
    assert_eq!(unquote_string("\\"), Err(UnquoteError::MalformedEscape));
    assert_eq!(unquote_string("ab\\"), Err(UnquoteError::MalformedEscape));
    assert_eq!(unquote_string("\\u59"), Err(UnquoteError::MalformedEscape));
    assert_eq!(unquote_string("\\uzz12"), Err(UnquoteError::InvalidUnicodeEscape));
    assert_eq!(unquote_string("\\ud800"), Err(UnquoteError::InvalidUnicodeEscape));
    // the first failure from the left wins
    assert_eq!(unquote_string("\\uzzzz\\"), Err(UnquoteError::InvalidUnicodeEscape));
}

#[test]
fn unquote_passes_other_escapes_and_text_through() {
    assert_eq!(unquote_string("\\\"q\\\""), Ok(String::from("\"q\"")));
    assert_eq!(unquote_string("\\x\\/"), Ok(String::from("x/")));
    assert_eq!(unquote_string(""), Ok(String::new()));
    assert_eq!(unquote_string("plain 好"), Ok(String::from("plain 好")));
    assert_eq!(unquote_string("\\ud83d\\ude00"), Err(UnquoteError::InvalidUnicodeEscape));
    assert_eq!(unquote_string("a\\u0041\\n"), Ok(String::from("aA\x0A")));
}

#[test]
fn text_form_of_nested_values() {
    let mut m = JsonObject::new();
    m.insert(String::from("k"), Json::Null);
    m.insert(String::from("b"), Json::Array(vec![Json::Boolean(false)]));
    let j = Json::Array(vec![
        Json::I64(-5),
        Json::String(String::from("x\"y")),
        Json::Object(m),
    ]);
    assert_eq!(j.to_text(), String::from("[-5,x\"y,{\"b\":[false],\"k\":null}]"));
    assert_eq!(j.unquote(), Ok(String::from("[-5,x\"y,{\"b\":[false],\"k\":null}]")));
}

#[test]
fn text_form_of_numbers() {
    assert_eq!(Json::I64(0).to_text(), "0");
    assert_eq!(Json::I64(i64::MIN).to_text(), "-9223372036854775808");
    assert_eq!(Json::I64(i64::MAX).to_text(), "9223372036854775807");
    assert_eq!(dec(2008, -2).to_text(), "20.08");
    assert_eq!(dec(5, -3).to_text(), "0.005");
    assert_eq!(dec(15, 2).to_text(), "1500.0");
    assert_eq!(dec(-25, -1).to_text(), "-2.5");
    assert_eq!(dec(0, 0).to_text(), "0.0");
    assert_eq!(dec(7, -1).to_text(), "0.7");
}

#[test]
fn double_text_is_the_shortest_decimal() {
    assert_eq!(dec(0, 5).to_text(), "0.0");
    assert_eq!(dec(0, -7).to_text(), "0.0");
    assert_eq!(dec(20080, -3).to_text(), "20.08");
    assert_eq!(dec(100, -2).to_text(), "1.0");
    assert_eq!(dec(-1500, 0).to_text(), "-1500.0");
    assert_eq!(dec(0, 5).unquote(), Ok(String::from("0.0")));
    assert_eq!(dec(19280, -3).unquote(), Ok(String::from("19.28")));
}

#[test]
fn doubles_compare_by_number() {
    assert_eq!(Decimal { mantissa: 2008, exponent: -2 }, Decimal { mantissa: 20080, exponent: -3 });
    assert_eq!(Decimal { mantissa: 0, exponent: 5 }, Decimal { mantissa: 0, exponent: -1 });
    assert_ne!(Decimal { mantissa: 2008, exponent: -2 }, Decimal { mantissa: 2008, exponent: -3 });
    assert_ne!(Decimal { mantissa: -5, exponent: 0 }, Decimal { mantissa: 5, exponent: 0 });
    assert_eq!(dec(20080, -3), dec(2008, -2));
    let j = Json::Array(vec![dec(6180, -3)]);
    let got = j.extract(&[expr(vec![PathLeg::Index(0)], 0)]);
    assert_eq!(got, Some(dec(618, -2)));
}
