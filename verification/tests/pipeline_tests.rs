use plan_canon::binsink::BenSink;
use plan_canon::pipeline::canonicalize_ben_from_csv;
use plan_canon::pipeline::canonicalize_ben_from_print;
use plan_canon::pipeline::canonicalize_jsonl_from_csv;
use plan_canon::pipeline::canonicalize_jsonl_from_print;
use plan_canon::pipeline::CanonError;

fn lines(v: &[&str]) -> Vec<Vec<u8>> {
    v.iter().map(|s| s.as_bytes().to_vec()).collect()
}

fn decode_ben(bytes: &[u8]) -> Vec<Vec<u16>> {
    let mut reader = binary_ensemble::io::reader::BenStreamReader::from_ben(bytes)
        .expect("valid ben stream")
        .silent(true);
    let mut out: Vec<Vec<u16>> = Vec::new();
    reader
        .for_each_assignment(|assignment, count| {
            for _ in 0..count {
                out.push(assignment.to_vec());
            }
            Ok(true)
        })
        .expect("decode succeeds");
    out
}

#[test]
fn transcript_example_jsonl() {
    let input = lines(&[
        "irrelevant preamble",
        "Now printing the plans:",
        "[0,0,1]",
        "[1,1,1]",
    ]);
    let mut out: Vec<u8> = Vec::new();
    let r = canonicalize_jsonl_from_print(&input, &mut out);
    assert_eq!(r, Ok(2));
    assert_eq!(
        String::from_utf8(out).unwrap(),
        "{\"assignment\":[0,0,1],\"sample\":1}\n{\"assignment\":[1,1,1],\"sample\":2}\n"
    );
}

#[test]
fn tabular_example_matches_transcript() {
    let transcript = lines(&["preamble", "Now printing the plans:", "[0,0,1]", "[1,1,1]"]);
    let tabular = lines(&["7,0,0,1", "8,1,1,1"]);
    let mut out_t: Vec<u8> = Vec::new();
    let mut out_c: Vec<u8> = Vec::new();
    assert_eq!(canonicalize_jsonl_from_print(&transcript, &mut out_t), Ok(2));
    assert_eq!(canonicalize_jsonl_from_csv(&tabular, &mut out_c), Ok(2));
    assert_eq!(out_t, out_c);
}

#[test]
fn tabular_width_drops_label() {
    let input = lines(&["12,4,5,6,7"]);
    let mut out: Vec<u8> = Vec::new();
    assert_eq!(canonicalize_jsonl_from_csv(&input, &mut out), Ok(1));
    assert_eq!(
        String::from_utf8(out).unwrap(),
        "{\"assignment\":[4,5,6,7],\"sample\":1}\n"
    );
}

#[test]
fn tabular_single_field_row_gives_empty_assignment() {
    let input = lines(&["12"]);
    let mut out: Vec<u8> = Vec::new();
    assert_eq!(canonicalize_jsonl_from_csv(&input, &mut out), Ok(1));
    assert_eq!(String::from_utf8(out).unwrap(), "{\"assignment\":[],\"sample\":1}\n");
}

#[test]
fn sentinel_absent_fails_without_output() {
    let input = lines(&["some noise", "[0,1]", "more noise"]);
    let mut out: Vec<u8> = Vec::new();
    let r = canonicalize_jsonl_from_print(&input, &mut out);
    assert_eq!(r, Err(CanonError::SentinelNotFound));
    assert!(out.is_empty());
}

#[test]
fn sentinel_absent_fails_ben_without_output() {
    let input = lines(&["no marker here"]);
    let mut sink = BenSink::new();
    let r = canonicalize_ben_from_print(&input, &mut sink);
    assert_eq!(r, Err(CanonError::SentinelNotFound));
    assert!(decode_ben(&sink.into_bytes()).is_empty());
}

#[test]
fn tabular_bad_field_keeps_earlier_records() {
    let input = lines(&["1,2,3", "1,x,3", "1,4,5"]);
    let mut out: Vec<u8> = Vec::new();
    let r = canonicalize_jsonl_from_csv(&input, &mut out);
    assert_eq!(
        r,
        Err(CanonError::BadField { sample: 2, field: b"x".to_vec() })
    );
    assert_eq!(String::from_utf8(out).unwrap(), "{\"assignment\":[2,3],\"sample\":1}\n");
}

#[test]
fn transcript_bad_line_reports_sample_and_line() {
    let input = lines(&["Now printing the plans:", "[1,2]", "not a plan"]);
    let mut out: Vec<u8> = Vec::new();
    let r = canonicalize_jsonl_from_print(&input, &mut out);
    assert_eq!(
        r,
        Err(CanonError::BadLine { sample: 2, line: b"not a plan".to_vec() })
    );
    assert_eq!(String::from_utf8(out).unwrap(), "{\"assignment\":[1,2],\"sample\":1}\n");
}

#[test]
fn encoders_number_alike() {
    let transcript = lines(&["Now printing the plans:", "[0,0,1]", "[1,1,1]", "[2,0,2]"]);
    let mut out: Vec<u8> = Vec::new();
    let mut sink = BenSink::new();
    let r_text = canonicalize_jsonl_from_print(&transcript, &mut out);
    let r_bin = canonicalize_ben_from_print(&transcript, &mut sink);
    assert_eq!(r_text, Ok(3));
    assert_eq!(r_bin, Ok(3));
    let decoded = decode_ben(&sink.into_bytes());
    assert_eq!(decoded, vec![vec![0, 0, 1], vec![1, 1, 1], vec![2, 0, 2]]);
    let text = String::from_utf8(out).unwrap();
    let samples: Vec<String> = text.lines().map(|l| l.to_string()).collect();
    assert_eq!(samples.len(), decoded.len());
    for (i, line) in samples.iter().enumerate() {
        assert!(line.ends_with(&format!("\"sample\":{}}}", i + 1)));
    }
}

#[test]
fn ben_tabular_roundtrip_through_codec() {
    let tabular = lines(&["0,5,5,0", "1,65535,0,1"]);
    let mut sink = BenSink::new();
    assert_eq!(canonicalize_ben_from_csv(&tabular, &mut sink), Ok(2));
    let bytes = sink.into_bytes();
    assert_eq!(
        decode_ben(&bytes),
        vec![vec![5, 5, 0], vec![65535, 0, 1]]
    );
}

#[test]
fn rerun_byte_identical() {
    let input = lines(&["Now printing the plans:", "[3,1,4]", "[1,5,9]"]);
    let mut out1: Vec<u8> = Vec::new();
    let mut out2: Vec<u8> = Vec::new();
    assert_eq!(canonicalize_jsonl_from_print(&input, &mut out1), Ok(2));
    assert_eq!(canonicalize_jsonl_from_print(&input, &mut out2), Ok(2));
    assert_eq!(out1, out2);
}

#[test]
fn empty_bracketed_line_gives_empty_assignment() {
    let input = lines(&["Now printing the plans:", "[]"]);
    let mut out: Vec<u8> = Vec::new();
    assert_eq!(canonicalize_jsonl_from_print(&input, &mut out), Ok(1));
    assert_eq!(String::from_utf8(out).unwrap(), "{\"assignment\":[],\"sample\":1}\n");
}

#[test]
fn whitespace_in_transcript_line_tolerated() {
    let input = lines(&["Now printing the plans:", " [ 0 , 10 , 200 ] "]);
    let mut out: Vec<u8> = Vec::new();
    assert_eq!(canonicalize_jsonl_from_print(&input, &mut out), Ok(1));
    assert_eq!(
        String::from_utf8(out).unwrap(),
        "{\"assignment\":[0,10,200],\"sample\":1}\n"
    );
}

#[test]
fn value_at_range_limit_accepted() {
    let input = lines(&["Now printing the plans:", "[65535]"]);
    let mut out: Vec<u8> = Vec::new();
    assert_eq!(canonicalize_jsonl_from_print(&input, &mut out), Ok(1));
    assert_eq!(
        String::from_utf8(out).unwrap(),
        "{\"assignment\":[65535],\"sample\":1}\n"
    );
}

#[test]
fn value_above_range_rejected() {
    let input = lines(&["Now printing the plans:", "[65536]"]);
    let mut out: Vec<u8> = Vec::new();
    let r = canonicalize_jsonl_from_print(&input, &mut out);
    assert_eq!(
        r,
        Err(CanonError::BadLine { sample: 1, line: b"[65536]".to_vec() })
    );
    assert!(out.is_empty());
}

#[test]
fn leading_zero_in_transcript_rejected() {
    let input = lines(&["Now printing the plans:", "[01]"]);
    let mut out: Vec<u8> = Vec::new();
    let r = canonicalize_jsonl_from_print(&input, &mut out);
    assert_eq!(r, Err(CanonError::BadLine { sample: 1, line: b"[01]".to_vec() }));
}

#[test]
fn tabular_field_sign_and_leading_zeros_accepted() {
    let input = lines(&["007,+1,02"]);
    let mut out: Vec<u8> = Vec::new();
    assert_eq!(canonicalize_jsonl_from_csv(&input, &mut out), Ok(1));
    assert_eq!(String::from_utf8(out).unwrap(), "{\"assignment\":[1,2],\"sample\":1}\n");
}

#[test]
fn tabular_empty_line_is_bad_field() {
    let input = lines(&[""]);
    let mut out: Vec<u8> = Vec::new();
    let r = canonicalize_jsonl_from_csv(&input, &mut out);
    assert_eq!(r, Err(CanonError::BadField { sample: 1, field: Vec::new() }));
    assert!(out.is_empty());
}

#[test]
fn tabular_bad_row_label_is_fatal() {
    let input = lines(&["rowid,1,2"]);
    let mut out: Vec<u8> = Vec::new();
    let r = canonicalize_jsonl_from_csv(&input, &mut out);
    assert_eq!(
        r,
        Err(CanonError::BadField { sample: 1, field: b"rowid".to_vec() })
    );
}

#[test]
fn second_sentinel_line_is_data() {
    let input = lines(&[
        "Now printing the plans:",
        "[1]",
        "Now printing the plans:",
    ]);
    let mut out: Vec<u8> = Vec::new();
    let r = canonicalize_jsonl_from_print(&input, &mut out);
    assert_eq!(
        r,
        Err(CanonError::BadLine { sample: 2, line: b"Now printing the plans:".to_vec() })
    );
    assert_eq!(String::from_utf8(out).unwrap(), "{\"assignment\":[1],\"sample\":1}\n");
}

#[test]
fn two_digit_sample_numbers_format_exactly() {
    let mut v: Vec<&str> = vec!["Now printing the plans:"];
    for _ in 0..12 {
        v.push("[9]");
    }
    let input = lines(&v);
    let mut out: Vec<u8> = Vec::new();
    assert_eq!(canonicalize_jsonl_from_print(&input, &mut out), Ok(12));
    let text = String::from_utf8(out).unwrap();
    let last = text.lines().last().unwrap();
    assert_eq!(last, "{\"assignment\":[9],\"sample\":12}");
}

#[test]
fn sentinel_with_no_data_succeeds_empty() {
    let input = lines(&["noise", "Now printing the plans:"]);
    let mut out: Vec<u8> = Vec::new();
    assert_eq!(canonicalize_jsonl_from_print(&input, &mut out), Ok(0));
    assert!(out.is_empty());
}

#[test]
fn ben_empty_tabular_input_succeeds_empty() {
    let input: Vec<Vec<u8>> = Vec::new();
    let mut sink = BenSink::new();
    assert_eq!(canonicalize_ben_from_csv(&input, &mut sink), Ok(0));
    assert!(decode_ben(&sink.into_bytes()).is_empty());
}
