//! End-to-end behaviour of the incremental decoder and the cluster handle.

use kubewatch::decode_all;
use kubewatch::Cluster;
use kubewatch::Decoder;
use kubewatch::Error;
use kubewatch::Framing;

#[derive(Debug, PartialEq, Eq)]
struct Point {
    x: i64,
    y: i64,
}

fn to_point(v: &serde_json::Value) -> Option<Point> {
    Some(Point { x: v.get("x")?.as_i64()?, y: v.get("y")?.as_i64()? })
}

#[test]
fn cluster() {
    let cluster = Cluster::new("http://rust-lang.org");
    assert!(cluster.is_ok());
}

#[test]
fn cluster_invalid_url() {
    let cluster = Cluster::new("123.456.789.000");
    assert!(matches!(cluster, Err(Error::InvalidUrl(_))));
}

#[test]
fn events_generator() {
    let input = r#"{"x": 1, "y": 2}{"x": 3, "y": 4}"#;
    let mut events = decode_all(input.as_bytes()).into_iter();
    let first = events.next().unwrap().unwrap();
    assert_eq!(to_point(&first).unwrap(), Point { x: 1, y: 2 });
    let second = events.next().unwrap().unwrap();
    assert_eq!(to_point(&second).unwrap(), Point { x: 3, y: 4 });
    assert!(events.next().is_none());
}

#[test]
fn two_records_then_end() {
    let input = r#"{"x":1,"y":2}{"x":3,"y":4}"#;
    let outcomes = decode_all(input.as_bytes());
    assert_eq!(outcomes.len(), 2);
    assert_eq!(to_point(outcomes[0].as_ref().unwrap()).unwrap(), Point { x: 1, y: 2 });
    assert_eq!(to_point(outcomes[1].as_ref().unwrap()).unwrap(), Point { x: 3, y: 4 });
}

#[test]
fn bad_bytes_end_the_sequence_after_one_failure() {
    // The bytes after the first value cannot start a JSON value, so no
    // later boundary is discoverable: one failed outcome, then the end.
    let input = r#"{"x":1,"y":2}not-json{"x":3,"y":4}"#;
    let outcomes = decode_all(input.as_bytes());
    assert_eq!(outcomes.len(), 2);
    assert_eq!(to_point(outcomes[0].as_ref().unwrap()).unwrap(), Point { x: 1, y: 2 });
    assert!(matches!(outcomes[1], Err(Error::DecodeFailed(_))));
}

#[test]
fn delimited_but_invalid_value_does_not_truncate() {
    // `{]` is brace-balanced, so it is delimited as one value; it fails to
    // decode, and the values after it still come through.
    let input = r#"{"x":1,"y":2} {] {"x":3,"y":4}"#;
    let outcomes = decode_all(input.as_bytes());
    assert_eq!(outcomes.len(), 3);
    assert!(outcomes[0].is_ok());
    assert!(matches!(outcomes[1], Err(Error::DecodeFailed(_))));
    assert_eq!(to_point(outcomes[2].as_ref().unwrap()).unwrap(), Point { x: 3, y: 4 });
}

#[test]
fn stream_ending_mid_value_emits_nothing_extra() {
    let input = r#"{"x":1,"y":2}{"x":3,"#;
    let outcomes = decode_all(input.as_bytes());
    assert_eq!(outcomes.len(), 1);
    assert!(outcomes[0].is_ok());
    let nothing = decode_all(br#"["unterminated"#);
    assert!(nothing.is_empty());
}

#[test]
fn whitespace_between_values_is_skipped() {
    let input = " \t{\"a\":1} \r\n [2,3]\n \"s\" true null 7 ";
    let outcomes = decode_all(input.as_bytes());
    assert_eq!(outcomes.len(), 6);
    for o in &outcomes {
        assert!(o.is_ok());
    }
    assert_eq!(outcomes[3].as_ref().unwrap(), &serde_json::Value::Bool(true));
    assert_eq!(outcomes[4].as_ref().unwrap(), &serde_json::Value::Null);
    assert_eq!(outcomes[5].as_ref().unwrap().as_i64().unwrap(), 7);
}

#[test]
fn braces_inside_strings_do_not_delimit() {
    let input = r#"{"s":"}{"}{"t":"\"}{"}"#;
    let outcomes = decode_all(input.as_bytes());
    assert_eq!(outcomes.len(), 2);
    assert_eq!(outcomes[0].as_ref().unwrap().get("s").unwrap().as_str().unwrap(), "}{");
    assert_eq!(outcomes[1].as_ref().unwrap().get("t").unwrap().as_str().unwrap(), "\"}{");
}

#[test]
fn escaped_backslash_does_not_hide_the_closing_quote() {
    let outcomes = decode_all(br#""a\\" 1"#);
    assert_eq!(outcomes.len(), 2);
    assert_eq!(outcomes[0].as_ref().unwrap().as_str().unwrap(), "a\\");
    assert_eq!(outcomes[1].as_ref().unwrap().as_i64().unwrap(), 1);
}

#[test]
fn nested_containers_are_one_value() {
    let outcomes = decode_all(br#"{"a":[{"b":[1,[2,3]]}]}[[],{}]"#);
    assert_eq!(outcomes.len(), 2);
    assert!(outcomes[0].as_ref().unwrap().get("a").is_some());
    assert!(outcomes[1].as_ref().unwrap().is_array());
}

#[test]
fn unfinished_literal_at_end_of_stream_emits_nothing() {
    let outcomes = decode_all(br#"{"a":1} nul"#);
    assert_eq!(outcomes.len(), 1);
    assert!(outcomes[0].is_ok());
}

#[test]
fn empty_input_yields_nothing() {
    assert!(decode_all(b"").is_empty());
    assert!(decode_all(b"  \n\t ").is_empty());
}

#[test]
fn chunking_does_not_change_outcomes() {
    let input = br#" {"x":1,"y":2}  [1,2,3]{"k":"v}{"} 12.5 "#;
    let all_at_once = decode_all(input);

    let mut decoder = Decoder::new();
    let mut one_by_one: Vec<Result<serde_json::Value, Error>> = Vec::new();
    for b in input.iter() {
        decoder.feed(&[*b]);
        loop {
            match decoder.next_frame(false) {
                Framing::Value(frame) => {
                    one_by_one.push(kubewatch::decode_frame(&frame));
                }
                Framing::Junk(rest) => {
                    one_by_one.push(kubewatch::decode_frame(&rest));
                }
                Framing::Pending => break,
                Framing::End => break,
            }
        }
    }
    loop {
        match decoder.next_frame(true) {
            Framing::Value(frame) => {
                one_by_one.push(kubewatch::decode_frame(&frame));
            }
            Framing::Junk(rest) => {
                one_by_one.push(kubewatch::decode_frame(&rest));
            }
            Framing::Pending => panic!("pending after end of stream"),
            Framing::End => break,
        }
    }

    assert_eq!(all_at_once.len(), one_by_one.len());
    for (a, b) in all_at_once.iter().zip(one_by_one.iter()) {
        match (a, b) {
            (Ok(va), Ok(vb)) => assert_eq!(va, vb),
            (Err(Error::DecodeFailed(_)), Err(Error::DecodeFailed(_))) => {}
            _ => panic!("outcome sequences differ"),
        }
    }
}

#[test]
fn number_at_end_waits_for_end_of_stream() {
    let mut decoder = Decoder::new();
    decoder.feed(b"12");
    assert!(matches!(decoder.next_frame(false), Framing::Pending));
    decoder.feed(b"3");
    assert!(matches!(decoder.next_frame(false), Framing::Pending));
    match decoder.next_frame(true) {
        Framing::Value(frame) => assert_eq!(frame, b"123"),
        _ => panic!("expected the number to be complete at end of stream"),
    }
    assert!(matches!(decoder.next_frame(true), Framing::End));
}

#[test]
fn watch_url_is_host_slash_name_watch_true() {
    let cluster = Cluster::new("http://localhost:8080").unwrap();
    let url = cluster.watch_url("pods").unwrap();
    assert_eq!(url, "http://localhost:8080/pods?watch=true");

    let slashed = Cluster::new("http://localhost:8080/").unwrap();
    let url = slashed.watch_url("pods").unwrap();
    assert_eq!(url, "http://localhost:8080/pods?watch=true");
}

#[test]
fn decoded_values_are_parsed_not_echoed() {
    let outcomes = decode_all(br#"{"x": 1, "y": 2}"#);
    assert_eq!(outcomes.len(), 1);
    let v = outcomes[0].as_ref().unwrap();
    assert_eq!(v.get("x").unwrap().as_i64().unwrap(), 1);
    assert_eq!(v.get("y").unwrap().as_i64().unwrap(), 2);
    assert!(v.get("z").is_none());
}
