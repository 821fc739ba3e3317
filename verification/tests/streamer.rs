use jqr::stream_laws::Ending;
use jqr::streamer::{decode_all, Step, Streamer, DEFAULT_BUF_SIZE};
use jqr::value::JsonValue;

fn num(x: f64) -> JsonValue {
    JsonValue::Num(x.to_bits())
}

/// Feeds `input` in chunks of at most `chunk` bytes, then the end of the
/// source, and gathers every step up to the one that ends the sequence.
fn run(input: &[u8], chunk: usize) -> Vec<Step> {
    let mut streamer = Streamer::new();
    let mut fed = 0;
    let mut steps = Vec::new();
    loop {
        match streamer.next() {
            Step::NeedInput => {
                let upto = usize::min(input.len(), fed + chunk);
                fed += streamer.consume(&input[fed..upto]);
            }
            Step::Item(v) => steps.push(Step::Item(v)),
            last => {
                steps.push(last);
                return steps;
            }
        }
    }
}

#[test]
fn it_consumes() {
    let r = r#"{"hello": 42}"#.as_bytes();
    let mut streamer = Streamer::new();
    println!("{:?}", &streamer);
    let n = streamer.consume(r);
    assert_ne!(n, 0);
}

#[test]
fn streamer_it_works() {
    let r = r#"
{"hello": 42}
{"bye": 37}
["wat", 101]
"#
    .as_bytes();
    let mut streamer = Streamer::new();
    assert_eq!(streamer.next(), Step::NeedInput);
    assert_eq!(streamer.consume(r), r.len());

    let v = match streamer.next() {
        Step::Item(v) => v,
        other => panic!("{:?}", other),
    };
    assert_eq!(v.member("hello"), Some(&JsonValue::Num(42.0f64.to_bits())));

    let v = match streamer.next() {
        Step::Item(v) => v,
        other => panic!("{:?}", other),
    };
    assert_eq!(v.member("bye"), Some(&JsonValue::Num(37.0f64.to_bits())));

    let v = match streamer.next() {
        Step::Item(v) => v,
        other => panic!("{:?}", other),
    };
    assert_eq!(v.item(0), Some(&JsonValue::Str("wat".to_string())));
    assert_eq!(v.item(1), Some(&JsonValue::Num(101.0f64.to_bits())));

    // the source is at its end: nothing more comes
    assert_eq!(streamer.next(), Step::NeedInput);
    assert_eq!(streamer.consume(&[]), 0);
    assert_eq!(streamer.next(), Step::Done);
    assert_eq!(streamer.next(), Step::Done);
}

#[test]
fn chunking_does_not_change_what_is_decoded() {
    let inputs: [&[u8]; 5] = [
        b"{\"a\": [1, 2.5e1, \"x\"]}\n[ ]\nnull\n{\"k\":{\"k\":null}}",
        b"  [1] [2]\t[3]  ",
        b"nullnull[null]null",
        b"[1,2] {\"a\":tru",
        b"[1] [2,] [3]",
    ];
    for input in inputs {
        let whole = run(input, input.len());
        for chunk in 1..=7 {
            assert_eq!(run(input, chunk), whole);
        }
    }
    assert_eq!(
        run(b"[1] [2]\t[3]  ", 1),
        vec![
            Step::Item(JsonValue::Array(vec![num(1.0)])),
            Step::Item(JsonValue::Array(vec![num(2.0)])),
            Step::Item(JsonValue::Array(vec![num(3.0)])),
            Step::Done,
        ]
    );
}

#[test]
fn each_item_is_the_document_decoded_alone() {
    let docs: [&[u8]; 4] = [b"{\"a\":1}", b"[true,false]", b"null", b"[[],{}]"];
    let mut all = Vec::new();
    for d in docs {
        all.extend_from_slice(d);
        all.push(b'\n');
    }
    let steps = run(&all, 3);
    assert_eq!(steps.len(), docs.len() + 1);
    for (i, d) in docs.iter().enumerate() {
        let alone = run(d, d.len());
        assert_eq!(alone.len(), 2);
        assert_eq!(steps[i], alone[0]);
    }
    assert_eq!(steps[docs.len()], Step::Done);
}

#[test]
fn malformed_input_ends_the_sequence_with_an_error() {
    assert_eq!(
        run(b"[1] \"hi\" [2]", 4),
        vec![Step::Item(JsonValue::Array(vec![num(1.0)])), Step::Malformed]
    );
    let mut streamer = Streamer::new();
    streamer.consume(b"]");
    assert_eq!(streamer.next(), Step::Malformed);
    // the error was the end: it is not repeated
    assert_eq!(streamer.next(), Step::Done);
    assert_eq!(streamer.next(), Step::Done);
}

#[test]
fn nothing_is_decoded_behind_a_malformed_document() {
    let mut streamer = Streamer::new();
    assert_eq!(streamer.next(), Step::NeedInput);
    let input = r#"42 {"a": 1} "#.as_bytes();
    assert_eq!(streamer.consume(input), input.len());
    assert_eq!(streamer.next(), Step::Malformed);
    // no search for the next document: `{"a": 1}` is never handed out
    assert_eq!(streamer.next(), Step::Done);
    assert_eq!(streamer.buf(), input);
    // bytes that come later change nothing
    streamer.consume(b"[1]");
    assert_eq!(streamer.next(), Step::Done);
    assert_eq!(run(input, 3), vec![Step::Malformed]);
}

#[test]
fn unfinished_document_is_dropped_at_the_end() {
    assert_eq!(
        run(b"[1] [2", 2),
        vec![Step::Item(JsonValue::Array(vec![num(1.0)])), Step::Done]
    );
    assert_eq!(run(b"", 1), vec![Step::Done]);
    assert_eq!(run(b"   ", 1), vec![Step::Done]);
}

#[test]
fn buffer_grows_by_the_default_size_and_takes_what_fits() {
    let big = vec![b' '; 250];
    let mut streamer = Streamer::new();
    assert_eq!(streamer.consume(&big), DEFAULT_BUF_SIZE);
    assert_eq!(streamer.buf().len(), 100);
    // nothing is free: the buffer grows once, by the default size
    assert_eq!(streamer.consume(&big[100..]), DEFAULT_BUF_SIZE);
    assert_eq!(streamer.consume(&big[200..]), 50);
    assert_eq!(streamer.buf(), &big[..]);
    assert_eq!(streamer.consume(b"[]"), 2);
    assert_eq!(streamer.consume(b"[]"), 2);
}

#[test]
fn nothing_is_taken_after_the_end_of_the_source() {
    let mut streamer = Streamer::new();
    assert_eq!(streamer.consume(b"[1"), 2);
    assert_eq!(streamer.consume(b""), 0);
    assert_eq!(streamer.consume(b"]"), 0);
    assert_eq!(streamer.buf(), b"[1");
    assert_eq!(streamer.next(), Step::Done);
}

#[test]
fn window_moves_as_documents_are_consumed() {
    let mut streamer = Streamer::new();
    streamer.consume(b"[1] [2]");
    assert_eq!(streamer.buf(), b"[1] [2]");
    streamer.advance_by(4);
    assert_eq!(streamer.buf(), b"[2]");
    streamer.realign_buf();
    assert_eq!(streamer.buf(), b"[2]");
    streamer.grow_buf();
    assert_eq!(streamer.buf(), b"[2]");
    assert_eq!(
        streamer.next(),
        Step::Item(JsonValue::Array(vec![num(2.0)]))
    );
    assert_eq!(streamer.buf(), b"");
    // everything was consumed: the buffer starts again
    assert_eq!(streamer.consume(&[b' '; 150]), DEFAULT_BUF_SIZE);
}

#[test]
fn decode_all_yields_what_the_loop_yields() {
    let inputs: [&[u8]; 6] = [
        b"{\"a\": [1, 2.5e1, \"x\"]}\n[ ]\nnull\n{\"k\":{\"k\":null}}",
        b"  [1] [2]\t[3]  ",
        b"",
        b"[1,2] {\"a\":tru",
        b"[1] [2,] [3]",
        b"[1]",
    ];
    for input in inputs {
        let (items, ending) = decode_all(input);
        let mut steps: Vec<Step> = items.into_iter().map(Step::Item).collect();
        steps.push(match ending {
            Ending::Drained => Step::Done,
            Ending::Failed => Step::Malformed,
        });
        for chunk in 1..=5 {
            assert_eq!(run(input, chunk), steps);
        }
    }
    let long: Vec<u8> = b"[1, 2, 3]\n".iter().cycle().take(10 * 250).cloned().collect();
    let (items, ending) = decode_all(&long);
    assert_eq!(items.len(), 250);
    assert_eq!(ending, Ending::Drained);
    assert_eq!(
        decode_all(b"[1] x"),
        (vec![JsonValue::Array(vec![num(1.0)])], Ending::Failed)
    );
}

#[test]
fn a_new_streamer_can_grow() {
    let s = Streamer::new();
    assert!(s.can_grow());
    assert_eq!(s.buf(), b"");
}
