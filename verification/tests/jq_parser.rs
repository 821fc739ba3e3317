use jqr::jq_parser::{parse_filter, FatalTypeError, Filter, FilterParseError, Pipeline};
use jqr::json_parser::{root, Parsed};
use jqr::value::JsonValue;

fn num(x: f64) -> JsonValue {
    JsonValue::Num(x.to_bits())
}

fn decode(text: &str) -> JsonValue {
    match root(text.as_bytes()) {
        Parsed::Complete { value, used } => {
            assert_eq!(used, text.len());
            value
        }
        other => panic!("no complete document: {:?}", other),
    }
}

fn fields(names: &[&str]) -> Filter {
    Filter::FieldAccessor {
        fields: names.iter().map(|s| s.to_string()).collect(),
    }
}

fn call(name: &str, args: &[&str]) -> Filter {
    Filter::FunctionCall {
        name: name.to_string(),
        args: args.iter().map(|s| s.to_string()).collect(),
    }
}

#[test]
fn jq_parser_it_works() {
    let cases = [
        (
            " .hello.man ",
            Pipeline::new(vec![Filter::FieldAccessor {
                fields: vec!["hello".into(), "man".into()],
            }]),
        ),
        (
            ".hi",
            Pipeline::new(vec![Filter::FieldAccessor {
                fields: vec!["hi".into()],
            }]),
        ),
        (
            ".",
            Pipeline::new(vec![Filter::FieldAccessor { fields: vec![] }]),
        ),
        (
            ".a | .b",
            Pipeline::new(vec![
                Filter::FieldAccessor {
                    fields: vec!["a".into()],
                },
                Filter::FieldAccessor {
                    fields: vec!["b".into()],
                },
            ]),
        ),
        (
            "hello(42)",
            Pipeline::new(vec![Filter::FunctionCall {
                name: "hello".into(),
                args: vec!["42".into()],
            }]),
        ),
        (
            ".a | hello(42)",
            Pipeline::new(vec![
                Filter::FieldAccessor {
                    fields: vec!["a".into()],
                },
                Filter::FunctionCall {
                    name: "hello".into(),
                    args: vec!["42".into()],
                },
            ]),
        ),
        (
            ". | hello(42)",
            Pipeline::new(vec![
                Filter::FieldAccessor { fields: vec![] },
                Filter::FunctionCall {
                    name: "hello".into(),
                    args: vec!["42".into()],
                },
            ]),
        ),
    ];

    for (input, output) in cases {
        let res = parse_filter(input);

        if let Err(e) = &res {
            println!("errors:\n{:?}", e);
        }

        let filter = res.expect("no error");
        assert_eq!(filter, output.expect("a pipeline has a filter"));
    }
}

#[test]
fn pipeline_needs_a_filter() {
    assert_eq!(Pipeline::new(vec![]), None);
    let p = Pipeline::new(vec![fields(&["a"])]).unwrap();
    assert_eq!(p.filters(), &vec![fields(&["a"])]);
}

#[test]
fn filter_grammar_accepts_blanks_around_bars_and_commas() {
    let p = parse_filter("\t.a\t|  f(x , y,z)  |.").unwrap();
    assert_eq!(
        p.filters(),
        &vec![fields(&["a"]), call("f", &["x", "y", "z"]), fields(&[])]
    );
    let p = parse_filter("length()").unwrap();
    assert_eq!(p.filters(), &vec![call("length", &[])]);
}

#[test]
fn filter_grammar_reports_the_position() {
    assert_eq!(parse_filter(""), Err(FilterParseError { position: 0 }));
    assert_eq!(parse_filter("   "), Err(FilterParseError { position: 3 }));
    assert_eq!(parse_filter(".a."), Err(FilterParseError { position: 2 }));
    assert_eq!(parse_filter("..a"), Err(FilterParseError { position: 1 }));
    assert_eq!(parse_filter(".a |"), Err(FilterParseError { position: 4 }));
    assert_eq!(parse_filter("f"), Err(FilterParseError { position: 1 }));
    assert_eq!(parse_filter("f x"), Err(FilterParseError { position: 1 }));
    assert_eq!(parse_filter("f( )"), Err(FilterParseError { position: 2 }));
    assert_eq!(parse_filter("f(a )"), Err(FilterParseError { position: 3 }));
    assert_eq!(parse_filter("f(a,)"), Err(FilterParseError { position: 3 }));
    assert_eq!(parse_filter("f(a"), Err(FilterParseError { position: 3 }));
    assert_eq!(parse_filter("f(a) g(b)"), Err(FilterParseError { position: 5 }));
    assert_eq!(parse_filter(".\u{e9}"), Err(FilterParseError { position: 1 }));
    assert_eq!(parse_filter(".a\n"), Err(FilterParseError { position: 2 }));
}

#[test]
fn identity_returns_the_input() {
    let identity = parse_filter(".").unwrap();
    let inputs = [
        "null",
        "[true]",
        "[false]",
        "[42]",
        "[-1.5e3]",
        "[\"hi\"]",
        "[1,[2,[3]],{}]",
        "{\"a\":{\"b\":[1,2,3]},\"c\":null}",
        "[]",
        "{}",
    ];
    for text in inputs {
        let v = decode(text);
        assert_eq!(identity.apply(&v), Ok(Some(decode(text))));
        // what stands inside is returned unchanged too
        if let Some(first) = v.item(0) {
            assert_eq!(identity.apply(first).unwrap().as_ref(), Some(first));
        }
    }
    assert_eq!(
        identity.apply(&JsonValue::Str("x".into())),
        Ok(Some(JsonValue::Str("x".into())))
    );
    assert_eq!(identity.apply(&num(0.5)), Ok(Some(num(0.5))));
    assert_eq!(
        identity.apply(&JsonValue::Boolean(true)),
        Ok(Some(JsonValue::Boolean(true)))
    );
}

#[test]
fn field_chain_finds_nested_member_or_nothing() {
    let f = parse_filter(".a.b").unwrap();
    assert_eq!(f.apply(&decode("{\"a\":{\"b\":42}}")), Ok(Some(num(42.0))));
    assert_eq!(f.apply(&decode("{\"a\":1}")), Ok(None));
    assert_eq!(f.apply(&decode("{\"b\":1}")), Ok(None));
    assert_eq!(f.apply(&decode("[1]")), Ok(None));
    assert_eq!(f.apply(&decode("null")), Ok(None));
}

#[test]
fn length_counts_items_and_entries() {
    let f = parse_filter("length()").unwrap();
    assert_eq!(f.apply(&decode("[1,2,3]")), Ok(Some(num(3.0))));
    assert_eq!(f.apply(&decode("{\"x\":1,\"y\":2}")), Ok(Some(num(2.0))));
    assert_eq!(f.apply(&decode("[]")), Ok(Some(num(0.0))));
    assert_eq!(
        f.apply(&JsonValue::Str("hi".into())),
        Err(FatalTypeError::LengthOfNonContainer)
    );
    assert_eq!(
        f.apply(&decode("null")),
        Err(FatalTypeError::LengthOfNonContainer)
    );
    assert_eq!(f.apply(&num(1.0)), Err(FatalTypeError::LengthOfNonContainer));
}

#[test]
fn split_cuts_at_the_delimiter() {
    let f = parse_filter("split(x)").unwrap();
    assert_eq!(
        f.apply(&JsonValue::Str("aaxbbxcc".into())),
        Ok(Some(JsonValue::Array(vec![
            JsonValue::Str("aa".into()),
            JsonValue::Str("bb".into()),
            JsonValue::Str("cc".into()),
        ])))
    );
    assert_eq!(f.apply(&num(42.0)), Err(FatalTypeError::SplitOfNonString));
    assert_eq!(
        f.apply(&decode("[\"aaxbb\"]")),
        Err(FatalTypeError::SplitOfNonString)
    );
}

#[test]
fn split_without_delimiter_is_an_error() {
    let f = parse_filter("split()").unwrap();
    assert_eq!(
        f.apply(&JsonValue::Str("abc".into())),
        Err(FatalTypeError::SplitWithoutDelimiter)
    );
    assert_eq!(f.apply(&num(1.0)), Err(FatalTypeError::SplitWithoutDelimiter));
}

#[test]
fn unknown_function_is_an_error_with_its_name() {
    let f = parse_filter("hello(42)").unwrap();
    let e = f.apply(&decode("[1]")).unwrap_err();
    assert_eq!(
        e,
        FatalTypeError::UnknownFunction {
            name: "hello".into()
        }
    );
    assert_eq!(e.message(), "unknown function hello");
    assert_eq!(
        FatalTypeError::LengthOfNonContainer.message(),
        "cannot take length of non-array/object"
    );
    assert_eq!(
        FatalTypeError::SplitOfNonString.message(),
        "cannot split non-string"
    );
    assert_eq!(
        FatalTypeError::SplitWithoutDelimiter.message(),
        "cannot split without a delimiter"
    );
}

#[test]
fn pipeline_stops_at_the_first_miss() {
    let f = parse_filter(".a | length()").unwrap();
    assert_eq!(f.apply(&decode("{\"a\":[1,2]}")), Ok(Some(num(2.0))));
    // the missing member gives nothing; `length` never sees a value
    assert_eq!(f.apply(&decode("{\"b\":1}")), Ok(None));
    // a member of the wrong kind does reach it
    assert_eq!(
        f.apply(&decode("{\"a\":1}")),
        Err(FatalTypeError::LengthOfNonContainer)
    );
    let g = parse_filter("length() | .a").unwrap();
    assert_eq!(g.apply(&decode("[1]")), Ok(None));
    let h = parse_filter(".a | nope() | .b").unwrap();
    assert_eq!(h.apply(&decode("{\"b\":1}")), Ok(None));
}

#[test]
fn single_filter_apply_matches_pipeline() {
    let v = decode("{\"a\":{\"b\":[1,2]}}");
    assert_eq!(
        fields(&["a", "b"]).apply(&v),
        Ok(Some(JsonValue::Array(vec![num(1.0), num(2.0)])))
    );
    assert_eq!(fields(&[]).apply(&v), Ok(Some(decode("{\"a\":{\"b\":[1,2]}}"))));
    assert_eq!(call("length", &["ignored"]).apply(&v), Ok(Some(num(1.0))));
}

#[test]
fn written_pipelines_are_read_back() {
    let cases: Vec<(&str, Vec<Filter>)> = vec![
        (".", vec![fields(&[])]),
        (".a", vec![fields(&["a"])]),
        (".a.b2.C", vec![fields(&["a", "b2", "C"])]),
        ("f()", vec![call("f", &[])]),
        ("f(x)", vec![call("f", &["x"])]),
        ("split(a,b,c)", vec![call("split", &["a", "b", "c"])]),
        (
            ".a.b|f(x,y)|.|length()",
            vec![
                fields(&["a", "b"]),
                call("f", &["x", "y"]),
                fields(&[]),
                call("length", &[]),
            ],
        ),
    ];
    for (text, filters) in cases {
        let p = parse_filter(text).unwrap();
        assert_eq!(p.filters(), &filters);
    }
}
