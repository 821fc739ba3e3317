use jqr::jq_parser::parse_filter;
use jqr::json_parser::{root, Parsed};
use jqr::value::JsonValue;

fn decode(text: &str) -> JsonValue {
    match root(text.as_bytes()) {
        Parsed::Complete { value, used: _ } => value,
        other => panic!("no complete document: {:?}", other),
    }
}

#[test]
fn text_is_compact() {
    assert_eq!(decode(" null ").to_text(), "null");
    assert_eq!(decode("[ ]").to_text(), "[]");
    assert_eq!(decode("{ }").to_text(), "{}");
    assert_eq!(decode("[true , false]").to_text(), "[true,false]");
    assert_eq!(
        decode("{\"a\" : [1, \"x\", null, true], \"b\": {\"c\": 2.5}}").to_text(),
        "{a:[1,x,null,true],b:{c:2.5}}"
    );
    assert_eq!(decode("[[[]],[{}]]").to_text(), "[[[]],[{}]]");
    assert_eq!(JsonValue::Str("raw text".into()).to_text(), "raw text");
    assert_eq!(JsonValue::Boolean(false).to_text(), "false");
}

#[test]
fn numbers_are_shown_in_decimal() {
    let cases: [(f64, &str); 9] = [
        (0.0, "0"),
        (-0.0, "-0"),
        (42.0, "42"),
        (-1.5, "-1.5"),
        (0.1, "0.1"),
        (1e21, "1000000000000000000000"),
        (1.5e-7, "0.00000015"),
        (f64::INFINITY, "inf"),
        (f64::NAN, "NaN"),
    ];
    for (x, text) in cases {
        assert_eq!(JsonValue::Num(x.to_bits()).to_text(), text);
    }
    assert_eq!(decode("[1e2, 1.50, 007]").to_text(), "[100,1.5,7]");
}

#[test]
fn results_of_filters_are_shown() {
    let v = decode("{\"a\":[1,2,3],\"s\":[\"axb\"]}");
    let length = parse_filter(".a | length()").unwrap();
    assert_eq!(length.apply(&v).unwrap().unwrap().to_text(), "3");
    let identity = parse_filter(".").unwrap();
    assert_eq!(
        identity.apply(&v).unwrap().unwrap().to_text(),
        "{a:[1,2,3],s:[axb]}"
    );
    let split = parse_filter("split(x)").unwrap();
    assert_eq!(
        split
            .apply(&JsonValue::Str("aaxbbxcc".into()))
            .unwrap()
            .unwrap()
            .to_text(),
        "[aa,bb,cc]"
    );
}
