use jqr::json_grammar::NumberScan;
use jqr::json_parser::{
    array, boolean, hash, json_value, key_value, null, number_token, number_value, parse_str,
    root, scalar_value, sp, string, Lexed, Parsed,
};
use jqr::value::JsonValue;

fn num(x: f64) -> JsonValue {
    JsonValue::Num(x.to_bits())
}

fn complete(value: JsonValue, used: usize) -> Parsed<JsonValue> {
    Parsed::Complete { value, used }
}

#[test]
fn json_parser_it_works() {
    let cases = [(
        r#" { "hi": 42 } "#.as_bytes(),
        JsonValue::Object(vec![("hi".into(), JsonValue::Num(42.0f64.to_bits()))]),
    )];

    for (input, output) in cases {
        let res = root(input);
        println!("{:?}", &res);
        // nothing of the input remains
        assert_eq!(
            res,
            Parsed::Complete {
                value: output,
                used: input.len()
            }
        );
    }
}

#[test]
fn top_level_takes_only_object_array_and_null() {
    assert_eq!(root(b"\"hi\""), Parsed::Malformed);
    assert_eq!(root(b"42 "), Parsed::Malformed);
    assert_eq!(root(b"true"), Parsed::Malformed);
    assert_eq!(root(b"false"), Parsed::Malformed);
    assert_eq!(
        root(b"[\"hi\"]"),
        complete(JsonValue::Array(vec![JsonValue::Str("hi".into())]), 6)
    );
    assert_eq!(root(b"null"), complete(JsonValue::Null, 4));
    assert_eq!(root(b" null\n"), complete(JsonValue::Null, 6));
    assert_eq!(root(b"nullx"), complete(JsonValue::Null, 4));
    assert_eq!(root(b"nul"), Parsed::Incomplete);
    assert_eq!(root(b"nut"), Parsed::Malformed);
}

#[test]
fn incomplete_and_malformed_are_told_apart() {
    assert_eq!(root(b""), Parsed::Incomplete);
    assert_eq!(root(b" \t\r\n"), Parsed::Incomplete);
    assert_eq!(root(b"{"), Parsed::Incomplete);
    assert_eq!(root(b"{\"a\""), Parsed::Incomplete);
    assert_eq!(root(b"{\"a\":"), Parsed::Incomplete);
    assert_eq!(root(b"{\"a\":1"), Parsed::Incomplete);
    assert_eq!(root(b"{\"a\":1,"), Parsed::Incomplete);
    assert_eq!(root(b"[1, 2"), Parsed::Incomplete);
    assert_eq!(root(b"[\"ab"), Parsed::Incomplete);
    assert_eq!(root(b"[\"ab\\"), Parsed::Incomplete);
    assert_eq!(root(b"[tr"), Parsed::Incomplete);
    assert_eq!(root(b"[1e"), Parsed::Incomplete);
    assert_eq!(root(b"[-"), Parsed::Incomplete);

    assert_eq!(root(b"}"), Parsed::Malformed);
    assert_eq!(root(b"[1,]"), Parsed::Malformed);
    assert_eq!(root(b"[,1]"), Parsed::Malformed);
    assert_eq!(root(b"[1 2]"), Parsed::Malformed);
    assert_eq!(root(b"{\"a\" 1}"), Parsed::Malformed);
    assert_eq!(root(b"{\"a\":1,}"), Parsed::Malformed);
    assert_eq!(root(b"{a:1}"), Parsed::Malformed);
    assert_eq!(root(b"{\"a\":}"), Parsed::Malformed);
    assert_eq!(root(b"[\"a b\"]"), Parsed::Malformed);
    assert_eq!(root(b"[\"a\\tb\"]"), Parsed::Malformed);
    assert_eq!(root(b"[1ex]"), Parsed::Malformed);
    assert_eq!(root(b"[tru3]"), Parsed::Malformed);
    assert_eq!(root(b"[nan]"), Parsed::Malformed);
    assert_eq!(root(b"[.]"), Parsed::Malformed);
}

#[test]
fn values_of_every_kind_nest_inside_containers() {
    assert_eq!(
        root(b"[null, true, false, 1.5, \"a1\", [], {}]"),
        complete(
            JsonValue::Array(vec![
                JsonValue::Null,
                JsonValue::Boolean(true),
                JsonValue::Boolean(false),
                num(1.5),
                JsonValue::Str("a1".into()),
                JsonValue::Array(vec![]),
                JsonValue::Object(vec![]),
            ]),
            38
        )
    );
    assert_eq!(
        root(b"{\"a\" : {\"b\":[1]} , \"c\":null}x"),
        complete(
            JsonValue::Object(vec![
                (
                    "a".into(),
                    JsonValue::Object(vec![("b".into(), JsonValue::Array(vec![num(1.0)]))])
                ),
                ("c".into(), JsonValue::Null),
            ]),
            28
        )
    );
}

#[test]
fn numbers_are_doubles() {
    let cases: [(&[u8], f64); 12] = [
        (b"[0]", 0.0),
        (b"[-0]", -0.0),
        (b"[42]", 42.0),
        (b"[+7]", 7.0),
        (b"[007]", 7.0),
        (b"[1.]", 1.0),
        (b"[.5]", 0.5),
        (b"[-1.25]", -1.25),
        (b"[1e3]", 1000.0),
        (b"[1.5E-2]", 0.015),
        (b"[123456789012345678901234567890]", 123456789012345678901234567890.0),
        (b"[0.1]", 0.1),
    ];
    for (input, x) in cases {
        assert_eq!(
            root(input),
            complete(JsonValue::Array(vec![num(x)]), input.len())
        );
    }
    assert_ne!(0.0f64.to_bits(), (-0.0f64).to_bits());
}

#[test]
fn string_keeps_its_escapes_as_written() {
    assert_eq!(
        root(b"[\"a\\nb\\\"c\\\\d\"]"),
        complete(
            JsonValue::Array(vec![JsonValue::Str("a\\nb\\\"c\\\\d".into())]),
            14
        )
    );
    assert_eq!(
        root(b"[\"\"]"),
        complete(JsonValue::Array(vec![JsonValue::Str("".into())]), 4)
    );
    assert_eq!(
        string(b"abc\" rest"),
        Parsed::Complete {
            value: "abc".to_string(),
            used: 4
        }
    );
    assert_eq!(string(b"abc"), Parsed::Incomplete);
    assert_eq!(string(b"a-c\""), Parsed::Malformed);
    assert_eq!(parse_str(b"\"ab\"", 1), Parsed::Complete { value: (), used: 4 });
}

#[test]
fn repeated_key_keeps_its_place_and_takes_the_last_value() {
    assert_eq!(
        root(b"{\"a\":1,\"b\":2,\"a\":3}"),
        complete(
            JsonValue::Object(vec![("a".into(), num(3.0)), ("b".into(), num(2.0))]),
            19
        )
    );
}

#[test]
fn rules_read_their_part_of_the_window() {
    assert_eq!(sp(b"  \t\r\n x", 0), 6);
    assert_eq!(sp(b"x  ", 0), 0);
    assert_eq!(sp(b"x  ", 1), 3);
    assert_eq!(null(b"null,"), Lexed::Token(4));
    assert_eq!(null(b"nu"), Lexed::Incomplete);
    assert_eq!(null(b"nope"), Lexed::NoMatch);
    assert_eq!(
        boolean(b"true]"),
        complete(JsonValue::Boolean(true), 4)
    );
    assert_eq!(
        boolean(b"false]"),
        complete(JsonValue::Boolean(false), 5)
    );
    assert_eq!(boolean(b"fals"), Parsed::Incomplete);
    assert_eq!(boolean(b"maybe"), Parsed::Malformed);
    assert_eq!(json_value(b"  12,"), complete(num(12.0), 4));
    assert_eq!(json_value(b"12"), Parsed::Incomplete);
    assert_eq!(json_value(b"x"), Parsed::Malformed);
    assert_eq!(scalar_value(b"null]"), complete(JsonValue::Null, 4));
    assert_eq!(
        array(b" 1 , 2 ] "),
        complete(JsonValue::Array(vec![num(1.0), num(2.0)]), 8)
    );
    assert_eq!(array(b" ]"), complete(JsonValue::Array(vec![]), 2));
    assert_eq!(
        hash(b"\"k\":[]}"),
        complete(
            JsonValue::Object(vec![("k".into(), JsonValue::Array(vec![]))]),
            7
        )
    );
    assert_eq!(
        key_value(b" \"k\" : true,"),
        Parsed::Complete {
            value: ("k".to_string(), JsonValue::Boolean(true)),
            used: 11
        }
    );
}

#[test]
fn number_token_follows_the_number_grammar() {
    assert_eq!(number_token(b"12,"), Lexed::Token(2));
    assert_eq!(number_token(b"-12.5e+3]"), Lexed::Token(8));
    assert_eq!(number_token(b"1.e5 "), Lexed::Token(4));
    assert_eq!(number_token(b".5}"), Lexed::Token(2));
    assert_eq!(number_token(b"1.5.2"), Lexed::Token(3));
    assert_eq!(number_token(b"12"), Lexed::Incomplete);
    assert_eq!(number_token(b""), Lexed::Incomplete);
    assert_eq!(number_token(b"+"), Lexed::Incomplete);
    assert_eq!(number_token(b"1."), Lexed::Incomplete);
    assert_eq!(number_token(b"1e"), Lexed::Incomplete);
    assert_eq!(number_token(b"1e-"), Lexed::Incomplete);
    assert_eq!(number_token(b"1e5"), Lexed::Incomplete);
    assert_eq!(number_token(b"1e,"), Lexed::Malformed);
    assert_eq!(number_token(b"1e+,"), Lexed::Malformed);
    assert_eq!(number_token(b"-x"), Lexed::NoMatch);
    assert_eq!(number_token(b".x"), Lexed::NoMatch);
    assert_eq!(number_token(b"x"), Lexed::NoMatch);
}

#[test]
fn number_value_wants_the_scan_to_stop_at_the_next_byte() {
    assert_eq!(
        number_value(NumberScan::Number {
            bits: 7.0f64.to_bits(),
            rest: 1
        }),
        Some(num(7.0))
    );
    assert_eq!(
        number_value(NumberScan::Number {
            bits: 7.0f64.to_bits(),
            rest: 0
        }),
        None
    );
    assert_eq!(
        number_value(NumberScan::Number {
            bits: 7.0f64.to_bits(),
            rest: 2
        }),
        None
    );
    assert_eq!(number_value(NumberScan::Incomplete), None);
    assert_eq!(number_value(NumberScan::Rejected), None);
    assert_eq!(number_value(NumberScan::Failed), None);
}
