use jetro_experimental::ndjson::{line_matches, parsed_matches, process_chunk, split_chunks};
use jetro_experimental::parse;

const LINES: &[u8] = b"{\"k\":\"a\",\"n\":1}\n{\"k\":\"b\"}\n\n{\"o\":{\"k\":\"a\"}}\nnot json\n{\"k\":\"a\"}";

#[test]
fn chunks_end_at_newlines() {
    let buf = b"aa\nbbb\ncc\n";
    let expected: Vec<&[u8]> = vec![b"aa\n", b"bbb\n", b"cc\n"];
    assert_eq!(split_chunks(buf, 6), expected);
    let two: Vec<&[u8]> = vec![b"aa\nbbb\n", b"cc\n"];
    assert_eq!(split_chunks(buf, 7), two);
    let one: Vec<&[u8]> = vec![buf];
    assert_eq!(split_chunks(buf, 10), one);
    assert_eq!(split_chunks(buf, usize::MAX), one);
    assert!(split_chunks(b"", 5).is_empty());
}

#[test]
fn a_line_longer_than_a_chunk_is_cut() {
    let expected: Vec<&[u8]> = vec![b"aaa", b"aa\n", b"b"];
    assert_eq!(split_chunks(b"aaaaa\nb", 3), expected);
}

#[test]
fn chunks_join_to_the_buffer() {
    for target in 1..LINES.len() + 2 {
        let joined: Vec<u8> = split_chunks(LINES, target).concat();
        assert_eq!(joined, LINES);
        assert!(split_chunks(LINES, target).iter().all(|c| !c.is_empty() && c.len() <= target));
    }
}

#[test]
fn lines_by_key_and_value() {
    assert!(line_matches(br#"{"k":"a"}"#, "k", b"a"));
    assert!(line_matches(br#"[{"x":{"k":12}}]"#, "k", b"12"));
    assert!(line_matches(br#"{"k":"z","l":{"k":"a"}}"#, "k", b"a"));
    assert!(line_matches(br#"{"k":[1,2]}"#, "k", b"[1,2]"));
    assert!(!line_matches(br#"{"k":"a"}"#, "k", b"b"));
    assert!(!line_matches(br#"{"l":"a"}"#, "k", b"a"));
    assert!(!line_matches(br#"{"l":"k"}"#, "k", b"k"));
    assert!(!line_matches(b"not json", "k", b"a"));
    assert!(!line_matches(b"", "k", b"a"));
}

#[test]
fn matches_in_a_parsed_document() {
    let parsed = parse(br#"{"k":true}"#.to_vec()).ok().unwrap();
    assert!(parsed_matches(&parsed, "k", b"true"));
    assert!(!parsed_matches(&parsed, "k", b"false"));
    assert!(!parsed_matches(&parsed, "none", b"true"));
}

#[test]
fn selected_lines_pass_unchanged() {
    assert_eq!(
        process_chunk(LINES, "k", b"a"),
        b"{\"k\":\"a\",\"n\":1}\n{\"o\":{\"k\":\"a\"}}\n{\"k\":\"a\"}\n".to_vec()
    );
    assert_eq!(process_chunk(LINES, "k", b"b"), b"{\"k\":\"b\"}\n".to_vec());
    assert_eq!(process_chunk(LINES, "k", b"c"), b"".to_vec());
    assert_eq!(process_chunk(b"", "k", b"a"), b"".to_vec());
}

#[test]
fn selection_by_chunks_is_selection() {
    let whole = process_chunk(LINES, "k", b"a");
    for target in 20..LINES.len() + 2 {
        let parts: Vec<Vec<u8>> =
            split_chunks(LINES, target).into_iter().map(|c| process_chunk(c, "k", b"a")).collect();
        assert_eq!(parts.concat(), whole);
    }
}
