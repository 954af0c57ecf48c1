use json_row_stream::json_row_parser::{JsonRowParser, Outcome};
use json_row_stream::json_row_stream::{
    collect_rows, FailureKind, JsonRowStream, Step, TransportFailure,
};
use json_row_stream::scanner::{ScanEvent, ScanState};

const DOC_A: &[u8] = br#"{"results":[{"a":1},{"b":2}],"meta":{"ok":true}}"#;

/// Drives a stream over `chunks` until it ends, returning what it handed out.
fn drive(mut s: JsonRowStream, chunks: &[&[u8]]) -> Vec<Result<Vec<u8>, FailureKind>> {
    let mut out = Vec::new();
    let mut next = 0;
    loop {
        match s.next_step() {
            Step::Item(v) => out.push(Ok(v)),
            Step::Failed(f) => {
                out.push(Err(f));
                break;
            }
            Step::End => break,
            Step::NeedChunk => {
                if next < chunks.len() {
                    s.push_chunk(chunks[next]);
                    next += 1;
                } else {
                    s.end_of_input();
                }
            }
        }
    }
    assert!(s.is_terminated());
    for _ in 0..3 {
        assert_eq!(s.next_step(), Step::End);
    }
    out
}

fn rows(items: &[&[u8]]) -> Vec<Result<Vec<u8>, FailureKind>> {
    items.iter().map(|v| Ok(v.to_vec())).collect()
}

#[test]
fn scenario_a_whole_document() {
    let out = drive(JsonRowStream::new(), &[DOC_A]);
    assert_eq!(out, rows(&[br#"{"a":1}"#, br#"{"b":2}"#, br#"{"ok":true}"#]));
}

#[test]
fn scenario_a_split_at_every_offset() {
    let expected = rows(&[br#"{"a":1}"#, br#"{"b":2}"#, br#"{"ok":true}"#]);
    for cut in 0..=DOC_A.len() {
        let (x, y) = DOC_A.split_at(cut);
        assert_eq!(drive(JsonRowStream::new(), &[x, y]), expected, "cut at {}", cut);
    }
}

#[test]
fn scenario_a_one_byte_at_a_time() {
    let chunks: Vec<&[u8]> = DOC_A.chunks(1).collect();
    let out = drive(JsonRowStream::new(), &chunks);
    assert_eq!(out, rows(&[br#"{"a":1}"#, br#"{"b":2}"#, br#"{"ok":true}"#]));
}

#[test]
fn scenario_b_empty_array_yields_metadata_only() {
    let out = drive(JsonRowStream::new(), &[br#"{"results":[],"meta":{}}"#]);
    assert_eq!(out, rows(&[b"{}"]));
}

#[test]
fn scenario_c_timeout_reported_once() {
    let mut s = JsonRowStream::new();
    assert_eq!(s.next_step(), Step::NeedChunk);
    s.push_chunk(br#"{"results":[{"a":1},{"b"#);
    assert_eq!(s.next_step(), Step::Item(br#"{"a":1}"#.to_vec()));
    assert_eq!(s.next_step(), Step::NeedChunk);
    let r = s.fail(TransportFailure::Timeout("deadline exceeded".to_string()));
    assert_eq!(r, Step::Failed(FailureKind::Timeout("deadline exceeded".to_string())));
    assert!(s.is_terminated());
    for _ in 0..3 {
        assert_eq!(s.next_step(), Step::End);
    }
    assert_eq!(s.fail(TransportFailure::Other("again".to_string())), Step::End);
}

#[test]
fn other_transport_failure_is_kept_apart() {
    let mut s = JsonRowStream::new();
    assert_eq!(s.next_step(), Step::NeedChunk);
    let r = s.fail(TransportFailure::Other("connection reset".to_string()));
    assert_eq!(r, Step::Failed(FailureKind::TransportOther("connection reset".to_string())));
    assert_eq!(s.next_step(), Step::End);
}

#[test]
fn scenario_d_truncated_document() {
    let out = drive(JsonRowStream::new(), &[br#"{"results":[{"a":1}"#]);
    let mut expected = rows(&[br#"{"a":1}"#]);
    expected.push(Err(FailureKind::MalformedDocument));
    assert_eq!(out, expected);
}

#[test]
fn unmatched_close_is_malformed_and_final() {
    let out = drive(JsonRowStream::new(), &[br#"{"results":[{"a":1}]}]{"results":[{"b":2}]}"#]);
    let mut expected = rows(&[br#"{"a":1}"#]);
    expected.push(Err(FailureKind::MalformedDocument));
    assert_eq!(out, expected);
}

#[test]
fn empty_body_ends_cleanly() {
    assert_eq!(drive(JsonRowStream::new(), &[]), vec![]);
    assert_eq!(drive(JsonRowStream::new(), &[b"", b""]), vec![]);
}

#[test]
fn brackets_inside_strings_and_escapes() {
    let doc: &[u8] = br#"{"results":[{"s":"a]}\"[{"},{"t":"\\"}],"meta":{}}"#;
    let expected = rows(&[br#"{"s":"a]}\"[{"}"#, br#"{"t":"\\"}"#, b"{}"]);
    for cut in 0..=doc.len() {
        let (x, y) = doc.split_at(cut);
        assert_eq!(drive(JsonRowStream::new(), &[x, y]), expected, "cut at {}", cut);
    }
}

#[test]
fn nested_rows_are_whole() {
    let doc: &[u8] = br#"{"results":[{"a":[1,{"b":[]}]},[2,3]],"meta":{"n":2}}"#;
    let out = drive(JsonRowStream::new(), &[doc]);
    assert_eq!(out, rows(&[br#"{"a":[1,{"b":[]}]}"#, b"[2,3]", br#"{"n":2}"#]));
}

#[test]
fn scalar_elements_are_not_rows() {
    let out = drive(JsonRowStream::new(), &[br#"{"results":[1,"x",{"c":3}],"meta":{}}"#]);
    assert_eq!(out, rows(&[br#"{"c":3}"#, b"{}"]));
}

#[test]
fn target_one_yields_each_member_value() {
    let out = drive(JsonRowStream::with_target(1), &[br#"[{"a":1},{"b":2}]"#]);
    assert_eq!(out, rows(&[br#"{"a":1}"#, br#"{"b":2}"#]));
}

#[test]
fn target_zero_yields_whole_documents() {
    let out = drive(JsonRowStream::with_target(0), &[br#"{"a":1} {"b":[2]}"#]);
    assert_eq!(out, rows(&[br#"{"a":1}"#, br#"{"b":[2]}"#]));
}

#[test]
fn rows_are_handed_out_before_reading_more() {
    let mut s = JsonRowStream::new();
    assert_eq!(s.next_step(), Step::NeedChunk);
    s.push_chunk(br#"{"results":[{"a":1},{"b":2},"#);
    assert_eq!(s.next_step(), Step::Item(br#"{"a":1}"#.to_vec()));
    assert_eq!(s.next_step(), Step::Item(br#"{"b":2}"#.to_vec()));
    assert_eq!(s.next_step(), Step::NeedChunk);
    s.push_chunk(br#"{"c":3}]}"#);
    assert_eq!(s.next_step(), Step::Item(br#"{"c":3}"#.to_vec()));
    assert_eq!(s.next_step(), Step::NeedChunk);
    s.end_of_input();
    assert_eq!(s.next_step(), Step::End);
    assert!(s.is_terminated());
}

#[test]
fn chunks_after_the_end_are_ignored() {
    let mut s = JsonRowStream::new();
    s.end_of_input();
    s.push_chunk(b"{");
    assert_eq!(s.next_step(), Step::End);
}

#[test]
fn collect_rows_is_independent_of_chunking() {
    let whole = collect_rows(2, &vec![DOC_A.to_vec()]);
    assert_eq!(
        whole.0,
        vec![br#"{"a":1}"#.to_vec(), br#"{"b":2}"#.to_vec(), br#"{"ok":true}"#.to_vec()]
    );
    assert_eq!(whole.1, None);
    let bytes: Vec<Vec<u8>> = DOC_A.iter().map(|b| vec![*b]).collect();
    assert_eq!(collect_rows(2, &bytes), whole);
    for cut in 0..=DOC_A.len() {
        let parts = vec![DOC_A[..cut].to_vec(), DOC_A[cut..].to_vec()];
        assert_eq!(collect_rows(2, &parts), whole);
    }
}

#[test]
fn collect_rows_reports_truncation() {
    let r = collect_rows(2, &vec![br#"{"results":[{"a":1}"#.to_vec()]);
    assert_eq!(r.0, vec![br#"{"a":1}"#.to_vec()]);
    assert_eq!(r.1, Some(FailureKind::MalformedDocument));
    let r = collect_rows(2, &vec![br#"{"results":["#.to_vec(), br#""x"#.to_vec()]);
    assert_eq!(r, (vec![], Some(FailureKind::MalformedDocument)));
}

#[test]
fn parser_keeps_only_the_unfinished_element() {
    let mut p = JsonRowParser::new(2);
    p.push(br#"{"results":[{"a":1},{"b""#);
    assert_eq!(p.parse_next(), Outcome::Value(br#"{"a":1}"#.to_vec()));
    assert_eq!(p.parse_next(), Outcome::NeedMoreInput);
    p.push(br#":2}]}"#);
    assert_eq!(p.parse_next(), Outcome::Value(br#"{"b":2}"#.to_vec()));
    assert_eq!(p.parse_next(), Outcome::NeedMoreInput);
    assert!(p.is_complete());
}

#[test]
fn parser_error_is_sticky() {
    let mut p = JsonRowParser::new(2);
    p.push(b"}{");
    assert_eq!(p.parse_next(), Outcome::MalformedDocument);
    p.push(b"}");
    assert_eq!(p.parse_next(), Outcome::MalformedDocument);
}

#[test]
fn scanner_tracks_depth_and_strings() {
    let mut s = ScanState::new();
    assert_eq!(s.advance(b'{'), ScanEvent::DepthIncreased);
    assert_eq!(s.advance(b'"'), ScanEvent::Continue);
    assert!(s.in_string);
    assert_eq!(s.advance(b'\\'), ScanEvent::Continue);
    assert!(s.escape_pending);
    assert_eq!(s.advance(b'"'), ScanEvent::Continue);
    assert!(s.in_string && !s.escape_pending);
    assert_eq!(s.advance(b']'), ScanEvent::Continue);
    assert_eq!(s.depth, 1);
    assert_eq!(s.advance(b'"'), ScanEvent::Continue);
    assert!(!s.in_string);
    assert_eq!(s.advance(b'['), ScanEvent::DepthIncreased);
    assert_eq!(s.depth, 2);
    assert_eq!(s.advance(b']'), ScanEvent::DepthDecreased);
    assert_eq!(s.advance(b'}'), ScanEvent::DepthDecreased);
    assert_eq!(s.depth, 0);
    assert_eq!(s.advance(b'}'), ScanEvent::StructuralError);
    assert_eq!(s.depth, 0);
}

#[test]
fn scanner_refuses_depth_beyond_its_counter() {
    let mut s = ScanState { depth: u64::MAX, in_string: false, escape_pending: false };
    assert_eq!(s.advance(b'['), ScanEvent::StructuralError);
    assert_eq!(s.depth, u64::MAX);
}
