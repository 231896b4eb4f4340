use jetro_experimental::chunked::run_chunked;
use jetro_experimental::stage1::columns_fit;
use jetro_experimental::{run, run_scalar, Kind};

#[test]
fn simple_object() {
    let s = run(br#"{"test":"a","b":[1,2,3,4]}"#).unwrap();
    assert_eq!(s.kind.first().copied(), Some(Kind::ObjOpen));
    assert_eq!(s.kind.last().copied(), Some(Kind::ObjClose));
    // depth 0 for outer, 1 inside obj, 2 inside array
    assert!(s.depth.iter().any(|&d| d == 2));
}

#[test]
fn escaped_quotes() {
    // "te\"st" should NOT terminate the string at the inner quote
    let buf = br#"{"k":"te\"st"}"#;
    let s = run(buf).unwrap();
    // 4 quotes total = 2 opening
    let q = s.kind.iter().filter(|k| **k == Kind::Quote).count();
    assert_eq!(q, 2);
}

#[test]
fn deep_nesting() {
    // A token's depth is that of its parent container: for 5 nested opens the deepest open
    // has depth 4, and the inner `1` is not a structural token.
    let buf = br#"[[[[[1]]]]]"#;
    let s = run(buf).unwrap();
    assert_eq!(s.depth.iter().copied().max(), Some(4));
}

#[test]
fn cross_chunk_string() {
    // string body crosses 64-byte boundary
    let mut buf = Vec::new();
    buf.extend_from_slice(br#"{"k":""#);
    buf.extend(std::iter::repeat(b'a').take(120));
    buf.extend_from_slice(br#""}"#);
    let s = run(&buf).unwrap();
    let q = s.kind.iter().filter(|k| **k == Kind::Quote).count();
    assert_eq!(q, 2);
}

#[test]
fn cross_chunk_backslash() {
    // odd-run of backslashes spanning boundary
    let mut buf = Vec::new();
    buf.extend_from_slice(br#"{"k":""#);
    buf.extend(std::iter::repeat(b'x').take(58));
    buf.extend_from_slice(br#"\\\""#); // \\\" -> escaped quote, NOT terminator
    buf.extend_from_slice(br#"end"}"#);
    let s = run(&buf).unwrap();
    let q = s.kind.iter().filter(|k| **k == Kind::Quote).count();
    assert_eq!(q, 2);
}

#[test]
fn scalar_matches_simd_object() {
    let buf = br#"{"a":1,"b":[true,false,null],"c":"hi"}"#;
    let a = run_scalar(buf).unwrap();
    let b = run(buf).unwrap();
    assert_eq!(a.offset, b.offset);
    assert_eq!(a.depth, b.depth);
    assert_eq!(a.kind, b.kind);
}

#[test]
fn offsets_point_at_actual_chars() {
    let buf = br#"{"x":42}"#;
    let s = run(buf).unwrap();
    for (i, &off) in s.offset.iter().enumerate() {
        let c = buf[off as usize];
        let expected = match s.kind[i] {
            Kind::ObjOpen => b'{',
            Kind::ObjClose => b'}',
            Kind::ArrOpen => b'[',
            Kind::ArrClose => b']',
            Kind::Quote => b'"',
            Kind::Colon => b':',
            Kind::Comma => b',',
            Kind::Scalar => unreachable!("stage1 emits no scalars"),
        };
        assert_eq!(c, expected, "kind mismatch at idx {}", i);
    }
}

/// The scanners agree on a document that is shifted across chunk boundaries.
fn agree(doc: &[u8]) {
    for pad in 0..130usize {
        let mut buf: Vec<u8> = vec![b' '; pad];
        buf.extend_from_slice(doc);
        let a = run_scalar(&buf);
        let b = run_chunked(&buf);
        match (a, b) {
            (Ok(x), Ok(y)) => {
                assert_eq!(x.offset, y.offset);
                assert_eq!(x.kind, y.kind);
                assert_eq!(x.depth, y.depth);
            }
            (Err(x), Err(y)) => assert_eq!(x, y),
            _ => panic!("scanners disagree at padding {}", pad),
        }
    }
}

#[test]
fn scanners_agree_on_long_documents() {
    let mut doc = Vec::new();
    doc.extend_from_slice(b"[");
    for i in 0..40 {
        if i > 0 {
            doc.push(b',');
        }
        doc.extend_from_slice(br#"{"k\"e\\y":"va\\\\lue\\\"","n":[1,-2.5,true,null]}"#);
    }
    doc.extend_from_slice(b"]");
    agree(&doc);
}

#[test]
fn scanners_agree_on_backslash_runs() {
    for n in 0..70usize {
        let mut doc = Vec::new();
        doc.extend_from_slice(b"{\"a\":\"");
        doc.extend(std::iter::repeat(b'\\').take(n));
        doc.extend_from_slice(b"\",\"b\":[{}]}");
        agree(&doc);
    }
}

#[test]
fn scanners_agree_on_stray_backslashes() {
    let mut doc = Vec::new();
    doc.extend_from_slice(br#"[\"a\",\\"b",{}]"#);
    doc.extend(std::iter::repeat(b' ').take(100));
    agree(&doc);
}

#[test]
fn opening_quotes_are_listed() {
    let mut buf = br#"{"k":"v","w":["x","y"]}"#.to_vec();
    buf.extend(std::iter::repeat(b' ').take(64));
    let s = run(&buf).unwrap();
    let quotes: Vec<u32> = (0..s.len())
        .filter(|&i| s.kind[i] == Kind::Quote)
        .map(|i| s.offset[i])
        .collect();
    assert_eq!(quotes, vec![1, 5, 9, 14, 18]);
}

#[test]
fn every_scan_error() {
    for scan in [run, run_scalar] {
        assert_eq!(scan(b"]").unwrap_err(), "underflow");
        assert_eq!(scan(b"{}}").unwrap_err(), "underflow");
        assert_eq!(scan(b"[\"a").unwrap_err(), "unterminated string");
        assert_eq!(scan(b"\"a\\").unwrap_err(), "unterminated string");
        assert_eq!(scan(b"\"a\\\"").unwrap_err(), "unterminated string");
        assert_eq!(scan(b"[[]").unwrap_err(), "unclosed container");
    }
    let mut long = vec![b' '; 100];
    long.push(b'}');
    assert_eq!(run(&long).unwrap_err(), "underflow");
    let mut open = vec![b'a'; 200];
    open[0] = b'"';
    assert_eq!(run(&open).unwrap_err(), "unterminated string");
}

#[test]
fn an_underflow_comes_before_an_open_string() {
    assert_eq!(run(b"}\"a").unwrap_err(), "underflow");
    assert_eq!(run_scalar(b"}\"a").unwrap_err(), "underflow");
}

#[test]
fn empty_input_has_no_tokens() {
    let s = run(b"").unwrap();
    assert!(s.is_empty());
    assert_eq!(s.len(), 0);
}

#[test]
fn columns_fit_up_to_the_depth_limit() {
    assert!(columns_fit(b"{\"a\":[1]}"));
    let deep = vec![b'['; 65535];
    assert!(columns_fit(&deep));
    let deeper = vec![b'['; 65536];
    assert!(!columns_fit(&deeper));
    // behind an unmatched close nothing counts
    let mut closed = vec![b']'];
    closed.extend_from_slice(&deeper);
    assert!(columns_fit(&closed));
}
