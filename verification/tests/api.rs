use jetro_experimental::api::{from_simdjson, Ancestors};
use jetro_experimental::from_tape::TapeNode;
use jetro_experimental::index::index_fits;
use jetro_experimental::{
    count_key, find_eq, find_eq_compound, from_bytes, from_bytes_with, json_number_eq,
    json_string_eq, multi_key_finder, multi_key_scan, parse, parse_i64, try_multi_key_finder,
    validate_utf8, BuildOptions, ByteSpan, Error, StructuralIndex, TokenId, TokenKind,
};

fn all_tokens(idx: &StructuralIndex) -> Vec<TokenId> {
    let mut out = Vec::new();
    let mut walk = idx.tokens();
    while let Some(t) = walk.next() {
        out.push(t);
    }
    out
}

#[test]
fn from_bytes_basic_roundtrip() {
    let buf = br#"{"a":1,"b":"hi","c":[1,2,3]}"#;
    let idx = from_bytes(buf).unwrap();
    assert!(idx.token_count() > 0);
    assert!(idx.has_keys());

    let mut keys: Vec<&str> = idx.keys_seen();
    keys.sort();
    assert_eq!(keys, vec!["a", "b", "c"]);
}

#[test]
fn keys_named_returns_token_ids() {
    let buf = br#"{"x":1,"y":2,"x":3}"#;
    let idx = from_bytes(buf).unwrap();
    let xs: Vec<TokenId> = idx.keys_named("x", None).collect();
    assert!(!xs.is_empty(), "expected at least one 'x' match");
    for t in &xs {
        assert_eq!(idx.kind(*t), TokenKind::Key);
    }
}

#[test]
fn count_key_uses_popcount() {
    let buf = br#"{"a":{"x":1},"b":{"x":2},"c":{"x":3,"y":4}}"#;
    let idx = from_bytes(buf).unwrap();
    let c = count_key(&idx, "x");
    assert_eq!(c, 3);
    let cy = count_key(&idx, "y");
    assert_eq!(cy, 1);
}

#[test]
fn key_hits_first_short_circuits() {
    let buf = br#"{"a":1,"b":2,"c":3,"d":4}"#;
    let idx = from_bytes(buf).unwrap();
    let first = idx.keys_named("c", None).first();
    assert!(first.is_some());
    assert_eq!(idx.kind(first.unwrap()), TokenKind::Key);
}

#[test]
fn find_eq_returns_enclosing_objects() {
    let buf = br#"{"a":{"x":"test"},"b":{"x":"nope"},"c":{"x":"test"}}"#;
    let idx = from_bytes(buf).unwrap();
    let hits: Vec<TokenId> = find_eq(&idx, buf, "x", b"test");
    assert_eq!(hits.len(), 2);
    for t in &hits {
        assert_eq!(idx.kind(*t), TokenKind::Object);
    }
}

#[test]
fn container_at_byte_works() {
    let buf = br#"{"a":{"x":1},"b":2}"#;
    let idx = from_bytes(buf).unwrap();
    // byte 9 lands inside "x" inside the inner object.
    let c = idx.container_at_byte(9).unwrap();
    // Should resolve to the inner object (deeper than root).
    assert_eq!(idx.kind(c), TokenKind::Object);
    assert!(idx.depth(c) >= 1);
}

#[test]
fn build_options_minimal_skips_keys() {
    let buf = br#"{"a":1}"#;
    let idx = from_bytes_with(buf, BuildOptions::minimal()).unwrap();
    assert!(!idx.has_keys());
    assert_eq!(idx.keys_named("a", None).count(), 0);
}

#[test]
fn ancestors_walks_to_root() {
    let buf = br#"{"a":{"b":{"c":42}}}"#;
    let idx = from_bytes(buf).unwrap();
    // Find the deepest scalar
    let scalar_tok = all_tokens(&idx)
        .into_iter()
        .find(|t| idx.kind(*t) == TokenKind::Scalar)
        .unwrap();
    let chain: Vec<TokenId> = idx.ancestors(scalar_tok).collect();
    assert!(!chain.is_empty());
    // Last ancestor's parent must be root (None)
    assert!(idx.parent(*chain.last().unwrap()).is_none());
}

#[test]
fn json_string_eq_handles_quotes() {
    assert!(json_string_eq(b"\"hello\"", b"hello"));
    assert!(!json_string_eq(b"\"hello\"", b"world"));
    // Escape decode now handled — `\n` decodes to newline.
    assert!(json_string_eq(b"\"he\\nllo\"", b"he\nllo"));
    // Non-string raw match.
    assert!(json_string_eq(b"42", b"42"));
    assert!(json_string_eq(b"true", b"true"));
}

#[test]
fn find_eq_compound_intersect() {
    let buf = br#"[{"k1":"a","k2":"b"},{"k1":"a","k2":"c"},{"k1":"x","k2":"b"}]"#;
    let idx = from_bytes(buf).unwrap();
    let conds: &[(&str, &[u8])] = &[("k1", b"a"), ("k2", b"b")];
    let hits: Vec<TokenId> = find_eq_compound(&idx, buf, conds);
    assert_eq!(hits.len(), 1, "exactly one obj should match both conds");
}

#[test]
fn json_string_eq_handles_simple_escapes() {
    assert!(json_string_eq(b"\"a\\nb\"", b"a\nb"));
    assert!(json_string_eq(b"\"a\\\\b\"", b"a\\b"));
    assert!(json_string_eq(b"\"a\\\"b\"", b"a\"b"));
    assert!(!json_string_eq(b"\"a\\nb\"", b"axb"));
    // \uXXXX still punted (returns false).
    assert!(!json_string_eq(b"\"\\u0041\"", b"A"));
}

/// The nearest float, which only matters where the text is no integer.
fn float(bytes: &[u8]) -> Option<f64> {
    fast_float::parse(bytes).ok()
}

fn integer(bytes: &[u8]) -> Option<i64> {
    parse_i64(bytes, float(bytes).map(|v| v as i64))
}

fn numbers_equal(a: &[u8], b: &[u8]) -> bool {
    json_number_eq(float(a).map(f64::to_bits), float(b).map(f64::to_bits))
}

#[test]
fn parse_i64_falls_back_to_f64_truncate() {
    assert_eq!(integer(b"42"), Some(42));
    assert_eq!(integer(b"-7"), Some(-7));
    assert_eq!(integer(b"3.9"), Some(3)); // truncates
}

#[test]
fn json_number_eq_compares_numerically() {
    assert!(numbers_equal(b"42", b"42"));
    assert!(numbers_equal(b"42.0", b"42")); // numeric equality, not byte
    assert!(!numbers_equal(b"42", b"43"));
    assert!(!numbers_equal(b"abc", b"42"));
}

#[test]
fn multi_key_finder_matches_top_level_keys() {
    let keys = ["type", "actor", "repo"];
    let finder = multi_key_finder(&keys);
    let bytes = br#"{"type":"PushEvent","actor":{"login":"x"},"repo":{"name":"y"}}"#;
    let hits: Vec<(usize, usize)> = multi_key_scan(&finder, bytes);
    assert_eq!(hits.len(), 3);
    // Patterns matched in input order
    let pattern_indices: Vec<usize> = hits.iter().map(|(p, _)| *p).collect();
    assert_eq!(pattern_indices, vec![0, 1, 2]);
}

#[test]
fn validate_utf8_accepts_valid_input() {
    assert!(validate_utf8(b"hello").is_ok());
    assert!(validate_utf8(b"\xff\xfe").is_err()); // invalid UTF-8
}

#[test]
fn quick_start() {
    let bytes = br#"{"a":{"x":"test"},"b":{"x":"nope"},"c":{"x":"test"}}"#;
    let idx = from_bytes(bytes).unwrap();
    for obj_tok in find_eq(&idx, bytes, "x", b"test") {
        let span = idx.byte_span(obj_tok);
        let raw = &bytes[span.start as usize..span.end as usize];
        assert_eq!(raw, br#"{"x":"test"}"#);
    }
    assert_eq!(count_key(&idx, "x"), 3);
}

#[test]
fn tokens_of_a_small_document() {
    let buf = br#"{"a":[1,"s"]}"#;
    let idx = from_bytes(buf).unwrap();
    assert!(idx.describes(buf));
    assert_eq!(idx.token_count(), 9);
    assert_eq!(idx.max_depth(), 2);
    let kinds: Vec<TokenKind> = all_tokens(&idx).into_iter().map(|t| idx.kind(t)).collect();
    assert_eq!(
        kinds,
        vec![
            TokenKind::Object,
            TokenKind::Key,
            TokenKind::Scalar,
            TokenKind::Array,
            TokenKind::Scalar,
            TokenKind::Scalar,
            TokenKind::String,
            TokenKind::ArrayEnd,
            TokenKind::ObjectEnd,
        ]
    );
    let offsets: Vec<u32> = all_tokens(&idx).into_iter().map(|t| idx.byte_offset(t)).collect();
    assert_eq!(offsets, vec![0, 1, 4, 5, 6, 7, 8, 11, 12]);
    let depths: Vec<u16> = all_tokens(&idx).into_iter().map(|t| idx.depth(t)).collect();
    assert_eq!(depths, vec![0, 1, 1, 1, 2, 2, 2, 1, 0]);
    assert_eq!(idx.close_of(TokenId(0)), Some(TokenId(8)));
    assert_eq!(idx.close_of(TokenId(3)), Some(TokenId(7)));
    assert_eq!(idx.close_of(TokenId(1)), None);
    assert_eq!(idx.parent(TokenId(0)), None);
    assert_eq!(idx.parent(TokenId(6)), Some(TokenId(3)));
    assert_eq!(idx.parent(TokenId(7)), Some(TokenId(0)));
    assert_eq!(idx.tape_index(TokenId(0)), Some(0));
    assert_eq!(idx.tape_index(TokenId(2)), None);
    assert_eq!(idx.tape_index(TokenId(6)), Some(4));
}

#[test]
fn without_the_key_layer_a_key_is_a_string() {
    let buf = br#"{"a":[1,"s"]}"#;
    let idx = from_bytes_with(buf, BuildOptions::minimal()).unwrap();
    assert_eq!(idx.kind(TokenId(1)), TokenKind::String);
    assert!(!idx.has_key("a"));
    assert_eq!(idx.keys_seen(), Vec::<&str>::new());
    assert_eq!(count_key(&idx, "a"), 0);
    assert_eq!(find_eq(&idx, buf, "a", b"1"), Vec::<TokenId>::new());
    let with = from_bytes_with(buf, BuildOptions::keys_only()).unwrap();
    assert!(with.has_keys());
    assert!(from_bytes_with(buf, BuildOptions::for_jetro_tape()).unwrap().has_keys());
}

#[test]
fn spans_and_slices() {
    let buf = br#"{"key" : "a\"b" , "n": 12.5 ,"t":[ ] }"#;
    let idx = from_bytes(buf).unwrap();
    let texts: Vec<&[u8]> = all_tokens(&idx).into_iter().map(|t| idx.slice(buf, t)).collect();
    let expected: Vec<&[u8]> = vec![
        buf, b"\"key\"", b":", br#""a\"b""#, b",", b"\"n\"", b":", b"12.5", b",", b"\"t\"", b":",
        b"[ ]", b"]", b"}",
    ];
    assert_eq!(texts, expected);
    // up to the next token where the source is not at hand
    assert_eq!(idx.byte_span(TokenId(1)), ByteSpan { start: 1, end: 7 });
    assert_eq!(idx.byte_span_in(TokenId(1), buf), ByteSpan { start: 1, end: 6 });
    assert_eq!(idx.byte_span(TokenId(7)), ByteSpan { start: 23, end: 28 });
    assert_eq!(idx.byte_span_in(TokenId(7), buf), ByteSpan { start: 23, end: 27 });
    assert_eq!(idx.byte_span(TokenId(2)), ByteSpan { start: 7, end: 8 });
    assert_eq!(idx.byte_span(TokenId(0)).slice(buf), &buf[..]);
}

#[test]
fn a_span_by_itself() {
    let s = ByteSpan { start: 3, end: 5 };
    assert_eq!(s.len(), 2);
    assert!(!s.is_empty());
    assert_eq!(s.slice(b"abcdefg"), b"de");
    assert!(ByteSpan { start: 5, end: 5 }.is_empty());
    assert!(ByteSpan { start: 5, end: 2 }.is_empty());
    assert_eq!(ByteSpan { start: 5, end: 2 }.len(), 0);
}

#[test]
fn token_ids_are_numbers() {
    assert_eq!(TokenId::from(7u32), TokenId(7));
    assert_eq!(TokenId(7).raw(), 7);
}

fn refusal(bytes: &[u8]) -> Error {
    match from_bytes(bytes) {
        Ok(_) => panic!("an index was built"),
        Err(e) => e,
    }
}

#[test]
fn every_build_error() {
    assert_eq!(refusal(b"[").message(), "parse error: unclosed container");
    assert_eq!(refusal(b"}").message(), "parse error: underflow");
    assert_eq!(refusal(b"\"").message(), "parse error: unterminated string");
    assert!(matches!(refusal(b"["), Error::Parse(_)));
}

#[test]
fn every_error_message() {
    assert_eq!(Error::Parse("x".to_string()).message(), "parse error: x");
    assert_eq!(Error::UnbalancedClose.message(), "unbalanced container close");
    assert_eq!(Error::Truncated.message(), "truncated input");
    assert_eq!(Error::InvalidUtf8.message(), "invalid UTF-8");
}

#[test]
fn an_empty_document_has_no_tokens() {
    let idx = from_bytes(b"  ").unwrap();
    assert_eq!(idx.token_count(), 0);
    assert_eq!(idx.max_depth(), 0);
    assert_eq!(idx.container_at_byte(0), None);
    assert!(all_tokens(&idx).is_empty());
}

#[test]
fn keys_by_depth() {
    let buf = br#"{"x":{"x":1,"y":2},"y":3}"#;
    let idx = from_bytes(buf).unwrap();
    assert_eq!(idx.keys_named("x", Some(1)).count(), 1);
    assert_eq!(idx.keys_named("x", Some(2)).count(), 1);
    assert_eq!(idx.keys_named("x", Some(0)).count(), 0);
    assert_eq!(idx.keys_named("x", Some(7)).count(), 0);
    assert_eq!(idx.keys_named("z", Some(1)).count(), 0);
    // a depth is chosen at the lookup, not afterwards
    assert_eq!(idx.keys_named("x", None).at_depth(1).count(), 2);
}

#[test]
fn hits_combine_as_sets() {
    let buf = br#"{"x":{"x":1,"y":2},"y":3}"#;
    let idx = from_bytes(buf).unwrap();
    let x = idx.keys_named("x", None).collect();
    let y = idx.keys_named("y", None).collect();
    let mut both: Vec<TokenId> = x.iter().chain(y.iter()).copied().collect();
    both.sort_by_key(|t| t.raw());
    assert_eq!(idx.keys_named("x", None).or(idx.keys_named("y", None)).collect(), both);
    assert_eq!(idx.keys_named("x", None).and(idx.keys_named("y", None)).count(), 0);
    assert_eq!(idx.keys_named("x", None).and(idx.keys_named("x", Some(2))).collect(), vec![x[1]]);
    assert_eq!(idx.keys_named("x", None).or(idx.keys_named("none", None)).collect(), x);
    assert_eq!(idx.keys_named("none", None).or(idx.keys_named("x", None)).collect(), x);
    assert_eq!(idx.keys_named("none", None).and(idx.keys_named("x", None)).count(), 0);
    assert_eq!(idx.keys_named("x", None).last(), Some(x[1]));
    assert_eq!(idx.keys_named("x", None).first(), Some(x[0]));
    assert_eq!(idx.keys_named("none", None).first(), None);
    assert_eq!(idx.keys_named("none", None).last(), None);
    let mut out = vec![TokenId(99)];
    idx.keys_named("x", None).collect_into(&mut out);
    assert_eq!(out, vec![TokenId(99), x[0], x[1]]);
    let mut hits = idx.keys_named("x", None);
    assert_eq!(hits.next(), Some(x[0]));
    assert_eq!(hits.next(), Some(x[1]));
    assert_eq!(hits.next(), None);
}

#[test]
fn hits_below_a_container() {
    let buf = br#"[{"x":1},{"x":2,"y":{"x":3}},{"x":4}]"#;
    let idx = from_bytes(buf).unwrap();
    let all = idx.keys_named("x", None).collect();
    let second = idx.parent(all[1]).unwrap();
    assert_eq!(idx.keys_named_in("x", second).collect(), vec![all[1], all[2]]);
    assert_eq!(idx.keys_named_in("x", second).count(), 2);
    assert_eq!(idx.keys_named_in("x", second).first(), Some(all[1]));
    assert_eq!(idx.keys_named_in("x", second).last(), Some(all[2]));
    assert_eq!(
        idx.keys_named_in("x", second).and(idx.keys_named("x", None)).collect(),
        vec![all[1], all[2]]
    );
    assert_eq!(idx.keys_named_in("z", second).count(), 0);
    let first = idx.parent(all[0]).unwrap();
    assert_eq!(idx.keys_named_in("y", first).first(), None);
    assert_eq!(idx.keys_named_in("y", first).last(), None);
    assert_eq!(idx.keys_named_in("y", first).count(), 0);
}

#[test]
fn fields_of_containers() {
    let buf = br#"{"a":{"b":"in"},"b":"out","c":[{"b":0}],"b":"again"}"#;
    let idx = from_bytes(buf).unwrap();
    let b = idx.field_of(TokenId(0), "b").unwrap();
    assert_eq!(idx.slice(buf, b), b"\"out\"");
    let a = idx.field_of(TokenId(0), "a").unwrap();
    assert_eq!(idx.slice(buf, idx.field_of(a, "b").unwrap()), b"\"in\"");
    assert_eq!(idx.field_of(a, "zzz"), None);
    let c = idx.field_of(TokenId(0), "c").unwrap();
    // no entry of the array itself is keyed
    assert_eq!(idx.field_of(c, "b"), None);
    assert_eq!(idx.field_of(b, "b"), None);
    let minimal = from_bytes_with(buf, BuildOptions::minimal()).unwrap();
    assert_eq!(minimal.field_of(TokenId(0), "b"), None);
}

#[test]
fn subtrees_reach_from_open_to_close() {
    let buf = br#"{"a":[1,2],"b":3}"#;
    let idx = from_bytes(buf).unwrap();
    let all = idx.token_count() as u64;
    assert_eq!(idx.subtree_bitmap(TokenId(0)).cardinality(), all);
    let a = idx.field_of(TokenId(0), "a").unwrap();
    let set = idx.subtree_bitmap(a);
    assert_eq!(set.cardinality(), 5);
    assert_eq!(set.minimum(), Some(a.0));
    assert_eq!(set.maximum(), Some(idx.close_of(a).unwrap().0));
    // a key, a separator, a literal and a close stand for themselves
    for t in [1u32, 2, 4, 7] {
        assert_eq!(idx.subtree_bitmap(TokenId(t)).to_vec(), vec![t]);
    }
    assert_eq!(idx.keys_named_in("a", TokenId(1)).collect(), vec![TokenId(1)]);
    assert_eq!(idx.keys_named_in("b", TokenId(1)).count(), 0);
}

#[test]
fn byte_order_can_be_asked_for() {
    let idx = from_bytes(br#"{"a":[1,2]}"#).unwrap();
    assert!(idx.in_byte_order());
    assert!(from_bytes(b"").unwrap().in_byte_order());
    // on a tape's index a container is looked up by byte behind that question
    let parsed = parse(br#"{"a":[1,2]}"#.to_vec()).ok().unwrap();
    assert!(parsed.index.in_byte_order());
    let c = parsed.index.container_at_byte(6).unwrap();
    assert_eq!(parsed.index.kind(c), TokenKind::Array);
    // positions of another document can go back and forth
    let nodes = [
        TapeNode::Array { len: 1 },
        TapeNode::Static { text: "1".to_string() },
    ];
    let astray = from_simdjson(&nodes, b"[1]", &[0, 1, 0, 2], BuildOptions::default());
    assert!(astray.ok().unwrap().in_byte_order());
    let back = from_simdjson(&nodes, b"1[]", &[1, 0, 2], BuildOptions::default());
    assert!(!back.ok().unwrap().in_byte_order());
}

#[test]
fn find_eq_by_kind_of_value() {
    let buf = br#"[{"v":"1"},{"v":1},{"v":1.0},{"v":"a\nb"},{"v":[1]},{"v":true},{"v":}]"#;
    let idx = from_bytes(buf).unwrap();
    let at = |lit: &[u8]| -> Vec<u32> {
        find_eq(&idx, buf, "v", lit).into_iter().map(|t| idx.byte_offset(t)).collect()
    };
    assert_eq!(at(b"1"), vec![1, 11]);
    assert_eq!(at(b"1.0"), vec![19]);
    assert_eq!(at(b"a\nb"), vec![29]);
    assert_eq!(at(b"[1]"), vec![42]);
    assert_eq!(at(b"true"), vec![52]);
    assert_eq!(at(b"false"), Vec::<u32>::new());
}

#[test]
fn find_eq_names_an_object_once_per_key() {
    let buf = br#"{"v":1,"v":1,"v":2}"#;
    let idx = from_bytes(buf).unwrap();
    assert_eq!(find_eq(&idx, buf, "v", b"1"), vec![TokenId(0), TokenId(0)]);
}

#[test]
fn compound_conditions() {
    let buf = br#"[{"k":1,"l":2},{"k":1},{"l":2,"m":{"k":1,"l":2}},{"k":1,"k":2,"l":2}]"#;
    let idx = from_bytes(buf).unwrap();
    let at = |conds: &[(&str, &[u8])]| -> Vec<u32> {
        find_eq_compound(&idx, buf, conds).into_iter().map(|t| idx.byte_offset(t)).collect()
    };
    assert_eq!(at(&[]), Vec::<u32>::new());
    // an object is named once for each of its keys that the first condition names
    assert_eq!(at(&[("k", b"1")]), vec![1, 15, 34, 49, 49]);
    assert_eq!(at(&[("k", b"1"), ("l", b"2")]), vec![1, 34, 49, 49]);
    assert_eq!(at(&[("k", b"1"), ("none", b"2")]), Vec::<u32>::new());
    assert_eq!(at(&[("k", b"2"), ("k", b"1")]), vec![49, 49]);
}

#[test]
fn values_of_keys() {
    let buf = br#"{"a":1,"b":{},"c":}"#;
    let idx = from_bytes(buf).unwrap();
    let value = |name: &str| idx.value_for_key(idx.keys_named(name, None).first().unwrap());
    assert_eq!(idx.slice(buf, value("a").unwrap()), b"1");
    assert_eq!(idx.slice(buf, value("b").unwrap()), b"{}");
    assert_eq!(value("c"), None);
}

#[test]
fn ancestors_one_by_one() {
    let buf = br#"[[1]]"#;
    let idx = from_bytes(buf).unwrap();
    let mut walk: Ancestors = idx.ancestors(TokenId(2));
    assert_eq!(walk.next(), Some(TokenId(1)));
    assert_eq!(walk.next(), Some(TokenId(0)));
    assert_eq!(walk.next(), None);
}

#[test]
fn describes_other_bytes() {
    let buf = br#"{"a":[1]}"#;
    let idx = from_bytes(buf).unwrap();
    assert!(idx.describes(buf));
    assert!(!idx.describes(b"{}"));
    assert!(index_fits(buf));
}

#[test]
fn string_equality_edges() {
    assert!(json_string_eq(b"\"\"", b""));
    assert!(!json_string_eq(b"\"\"", b"\"\""));
    assert!(json_string_eq(b"\"", b"\""));
    assert!(!json_string_eq(b"\"", b""));
    assert!(json_string_eq(b"", b""));
    assert!(!json_string_eq(b"\"a\"", b"ab"));
    assert!(json_string_eq(br#""\/\b\f\r\t""#, b"/\x08\x0c\r\t"));
    assert!(!json_string_eq(br#""\q""#, b"q"));
    assert!(!json_string_eq(br#""a\n""#, b"a"));
    assert!(!json_string_eq(br#""\n""#, b"\nx"));
}

#[test]
fn integers_of_every_size() {
    assert_eq!(integer(b"9223372036854775807"), Some(i64::MAX));
    assert_eq!(integer(b"-9223372036854775808"), Some(i64::MIN));
    // beyond the range the float decides, cut off at the ends
    assert_eq!(integer(b"9223372036854775808"), Some(i64::MAX));
    assert_eq!(integer(b"-9223372036854775809"), Some(i64::MIN));
    assert_eq!(integer(b"+5"), Some(5));
    assert_eq!(integer(b"007"), Some(7));
    assert_eq!(integer(b"-0"), Some(0));
    assert_eq!(integer(b"-3.9"), Some(-3));
    assert_eq!(integer(b"1e3"), Some(1000));
    assert_eq!(integer(b""), None);
    assert_eq!(integer(b"-"), None);
    assert_eq!(integer(b"x"), None);
    assert_eq!(parse_i64(b"5", Some(6)), Some(5));
    assert_eq!(parse_i64(b"5.5", Some(6)), Some(6));
    assert_eq!(parse_i64(b"5.5", None), None);
    assert_eq!(parse_i64(b"\xff", Some(6)), Some(6));
}

#[test]
fn numbers_by_value() {
    assert!(numbers_equal(b"0", b"-0.0"));
    assert!(numbers_equal(b"1e2", b"100"));
    assert!(!numbers_equal(b"nan", b"nan"));
    assert!(numbers_equal(b"inf", b"1e999"));
    assert!(!numbers_equal(b"x", b"x"));
    assert!(!json_number_eq(None, None));
    assert!(!json_number_eq(Some(1), None));
    assert!(!json_number_eq(None, Some(1)));
}

#[test]
fn finder_hits_are_whole_keys() {
    let finder = try_multi_key_finder(&["a", "ba"]).unwrap();
    let bytes = br#"{"a":1,"ba":"a","c":"ba"}"#;
    let hits = multi_key_scan(&finder, bytes);
    // a name counts in quotes and with its colon only
    assert_eq!(hits, vec![(0, 1), (1, 7)]);
    let none = multi_key_finder(&[]);
    assert_eq!(multi_key_scan(&none, bytes), Vec::<(usize, usize)>::new());
}

#[test]
fn of_equal_keys_the_first_is_reported() {
    let finder = multi_key_finder(&["b", "a", "a", "b"]);
    let bytes = br#"{"a":1,"b":2,"a":3}"#;
    assert_eq!(multi_key_scan(&finder, bytes), vec![(1, 1), (0, 7), (1, 13)]);
}

#[test]
fn of_keys_with_one_end_the_longest_is_reported() {
    // the second pattern is `"a\":"b":`, whose last bytes are the first pattern
    let bytes = br#"{"a\":"b":1,"b":2}"#;
    let finder = multi_key_finder(&["b", r#"a\":"b"#]);
    assert_eq!(multi_key_scan(&finder, bytes), vec![(1, 1), (0, 12)]);
    let finder = multi_key_finder(&[r#"a\":"b"#, "b"]);
    assert_eq!(multi_key_scan(&finder, bytes), vec![(0, 1), (1, 12)]);
}

#[test]
fn a_key_behind_the_match_in_front_counts_alone() {
    // `"a":` ends the first match, so the longer pattern that begins in it is not seen
    let bytes = br#"{"a":"b":1}"#;
    let finder = multi_key_finder(&["a", "b", r#"a":"b"#]);
    assert_eq!(multi_key_scan(&finder, bytes), vec![(0, 1), (1, 5)]);
}

#[test]
fn many_keys_are_told_apart_in_the_same_way() {
    let names: Vec<String> = (0..150).map(|i| format!("k{}", i % 120)).collect();
    let mut keys: Vec<&str> = names.iter().map(|n| n.as_str()).collect();
    keys.push(r#"x":"k7"#);
    let finder = multi_key_finder(&keys);
    let bytes = br#"{"k7":1,"x":"k7":2,"k119":3}"#;
    assert_eq!(multi_key_scan(&finder, bytes), vec![(7, 1), (150, 8), (119, 19)]);
}

#[test]
fn utf8_is_told_from_other_bytes() {
    assert!(validate_utf8("\u{20ac}".as_bytes()).is_ok());
    assert!(matches!(validate_utf8(b"abc\xff"), Err(Error::InvalidUtf8)));
    assert!(matches!(validate_utf8(b"\xe2\x82"), Err(Error::InvalidUtf8)));
    assert!(validate_utf8(b"").is_ok());
}
