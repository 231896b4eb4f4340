use jetro_experimental::api::from_simdjson;
use jetro_experimental::from_tape::{
    build_from_tape_and_structurals, holds_value, materialize_node, parse_opts, parse_with_index, TapeNode,
};
use jetro_experimental::index::build_tape_of_jetro_compat;
use jetro_experimental::{
    from_bytes, parse, BuildOptions, Kind, Role, StructIndex, TokenId, TokenKind,
};
use simd_json::{Buffers, Node};

/// The nodes of a tape.
fn nodes_of(tape: &simd_json::Tape<'_>) -> Vec<TapeNode> {
    tape.0
        .iter()
        .map(|n| match n {
            Node::Object { len, .. } => TapeNode::Object { len: *len },
            Node::Array { len, .. } => TapeNode::Array { len: *len },
            Node::String(s) => TapeNode::Text { text: s.to_string(), offset: None },
            Node::Static(v) => TapeNode::Static { text: v.to_string() },
        })
        .collect()
}

/// What the parser makes of a document.
fn tape(doc: &[u8]) -> (Vec<TapeNode>, Vec<u8>, Vec<u32>) {
    let mut owned = doc.to_vec();
    let mut buffers = Buffers::new(owned.len() + 256);
    let nodes = nodes_of(&simd_json::to_tape_with_buffers(&mut owned, &mut buffers).unwrap());
    (nodes, owned, buffers.structural_indexes().to_vec())
}

#[test]
fn smoke_simple_object() {
    let bytes = br#"{"a":1,"b":"hi","c":[1,2,3]}"#.to_vec();
    let parsed = parse_with_index(bytes).ok().unwrap();

    // Key bitmap dict has a, b, c.
    let mut keys: Vec<String> = parsed.keys.dict.iter().map(|s| s.to_string()).collect();
    keys.sort();
    assert_eq!(keys, vec!["a".to_string(), "b".to_string(), "c".to_string()]);

    // tape_of for ObjOpen[0] = 0 (root); ArrOpen for "c" should map to a tape
    // index that's an array node.
    let mut found_arr = false;
    for i in 0..parsed.index.stage1.len() {
        if parsed.index.stage1.kind[i] == Kind::ArrOpen {
            found_arr = true;
            let t = parsed.index.tape_of[i];
            assert_ne!(t, u32::MAX);
        }
    }
    assert!(found_arr);
}

#[test]
fn key_bitmap_lookup() {
    let bytes = br#"{"x":"test","y":1,"x":"again"}"#.to_vec();
    let parsed = parse_with_index(bytes).ok().unwrap();
    let xs = parsed.keys.find_key("x", None);
    assert!(!xs.is_empty(), "expected at least one match for 'x'");
    for tok in xs {
        assert_eq!(parsed.keys.role[tok as usize], Role::Key);
    }
}

#[test]
fn tape_of_aligns_with_simd_json_nodes() {
    let (nodes, bytes, structurals) = tape(br#"{"a":[1,2,{"b":"v"}],"c":true}"#);
    let (idx, _keys) = build_from_tape_and_structurals(&nodes, &bytes, &structurals).ok().unwrap();

    // Every value-bearing token (Open/String/Scalar) has a non-MAX tape_of.
    for i in 0..idx.stage1.len() {
        let needs_tape = matches!(
            idx.stage1.kind[i],
            Kind::ObjOpen | Kind::ArrOpen | Kind::Quote | Kind::Scalar
        );
        if needs_tape {
            assert_ne!(
                idx.tape_of[i],
                u32::MAX,
                "value-bearing token {} has no tape_of",
                i
            );
            assert!((idx.tape_of[i] as usize) < nodes.len());
        } else {
            assert_eq!(idx.tape_of[i], u32::MAX);
        }
    }
}

#[test]
fn close_of_pairs_with_open() {
    let bytes = br#"{"a":[1,2,3]}"#.to_vec();
    let parsed = parse_with_index(bytes).ok().unwrap();
    let s = &parsed.index.stage1;

    // Find ObjOpen and ArrOpen, ensure each has a matching close at greater idx.
    for i in 0..s.len() {
        if matches!(s.kind[i], Kind::ObjOpen | Kind::ArrOpen) {
            let close = parsed.index.close_of[i];
            assert!(close > 0, "open at {} has no close", i);
            assert!((close as usize) < s.len());
            let close_kind = s.kind[close as usize];
            let expected = match s.kind[i] {
                Kind::ObjOpen => Kind::ObjClose,
                Kind::ArrOpen => Kind::ArrClose,
                _ => unreachable!(),
            };
            assert_eq!(close_kind, expected);
        }
    }
}

#[test]
fn structural_indexes_accessor_works() {
    let mut bytes = br#"{"x":1}"#.to_vec();
    let mut buffers = Buffers::new(bytes.len() + 256);
    let _ = simd_json::to_tape_with_buffers(&mut bytes, &mut buffers).unwrap();
    let s = buffers.structural_indexes();
    assert!(!s.is_empty(), "structural_indexes should be populated");
    // First should be 0 (`{`), and indices should be ascending.
    for w in s.windows(2) {
        assert!(w[0] <= w[1]);
    }
}

#[test]
fn columns_along_the_tape() {
    let doc = br#"{"a":[1,"s"],"b":{}}"#;
    let parsed = parse_with_index(doc.to_vec()).ok().unwrap();
    let s = &parsed.index.stage1;
    assert_eq!(parsed.bytes, doc);
    assert_eq!(
        s.kind,
        vec![
            Kind::ObjOpen,
            Kind::Quote,
            Kind::ArrOpen,
            Kind::Scalar,
            Kind::Quote,
            Kind::ArrClose,
            Kind::Quote,
            Kind::ObjOpen,
            Kind::ObjClose,
            Kind::ObjClose,
        ]
    );
    assert_eq!(s.offset, vec![0, 1, 5, 6, 8, 11, 13, 17, 18, 19]);
    assert_eq!(s.depth, vec![0, 1, 1, 2, 2, 1, 1, 1, 1, 0]);
    let none = u32::MAX;
    assert_eq!(parsed.index.tape_of, vec![0, 1, 2, 3, 4, none, 5, 6, none, none]);
    assert_eq!(parsed.index.parent, vec![-1, 0, 0, 2, 2, 0, 0, 0, 0, -1]);
    assert_eq!(parsed.index.close_of, vec![9, -1, 5, -1, -1, -1, -1, 8, -1, -1]);
    assert_eq!(
        parsed.keys.role,
        vec![
            Role::Other,
            Role::Key,
            Role::Value,
            Role::Elem,
            Role::Elem,
            Role::Other,
            Role::Key,
            Role::Value,
            Role::Other,
            Role::Other,
        ]
    );
}

#[test]
fn the_tape_agrees_with_the_scanner() {
    let doc = br#"{"k":[{"a":null},{"b":"x"}, 1, "y" ,true,2],"l":{"m":[[],{},0]},"n":-1.5e3}"#;
    let parsed = parse_with_index(doc.to_vec()).ok().unwrap();
    let scanned = StructIndex::build(doc).unwrap();
    let no_separators: Vec<usize> = (0..scanned.stage1.len())
        .filter(|&i| !matches!(scanned.stage1.kind[i], Kind::Colon | Kind::Comma))
        .collect();
    let kinds: Vec<Kind> = no_separators.iter().map(|&i| scanned.stage1.kind[i]).collect();
    let offsets: Vec<u32> = no_separators.iter().map(|&i| scanned.stage1.offset[i]).collect();
    let depths: Vec<u16> = no_separators.iter().map(|&i| scanned.stage1.depth[i]).collect();
    assert_eq!(parsed.index.stage1.kind, kinds);
    assert_eq!(parsed.index.stage1.offset, offsets);
    assert_eq!(parsed.index.stage1.depth, depths);
}

#[test]
fn keys_come_decoded_from_the_tape() {
    let parsed = parse(br#"{"a\nb":"q\"r"}"#.to_vec()).ok().unwrap();
    assert!(parsed.index.has_key("a\nb"));
    let keys = parsed.index.keys_named("a\nb", None).collect();
    assert_eq!(keys, vec![TokenId(1)]);
    assert_eq!(parsed.index.kind(TokenId(2)), TokenKind::String);
    assert_eq!(parsed.index.value_for_key(TokenId(1)), Some(TokenId(2)));
}

#[test]
fn documents_that_are_one_value() {
    let parsed = parse_with_index(b"42".to_vec()).ok().unwrap();
    assert_eq!(parsed.index.stage1.kind, vec![Kind::Scalar]);
    assert_eq!(parsed.keys.role, vec![Role::Value]);
    let text = parse_with_index(b" \"x\"".to_vec()).ok().unwrap();
    assert_eq!(text.index.stage1.kind, vec![Kind::Quote]);
    assert_eq!(text.index.stage1.offset, vec![1]);
    let open = parse_with_index(b"[]".to_vec()).ok().unwrap();
    assert_eq!(open.keys.role, vec![Role::Other, Role::Other]);
}

#[test]
fn options_of_a_parse() {
    let doc = br#"{"a":1}"#;
    let with = parse(doc.to_vec()).ok().unwrap();
    assert!(with.index.has_keys());
    let without = parse_opts(doc.to_vec(), BuildOptions::minimal()).ok().unwrap();
    assert!(!without.index.has_keys());
    assert_eq!(without.index.token_count(), with.index.token_count());
}

#[test]
fn an_index_from_plain_nodes() {
    let (nodes, bytes, structurals) = tape(br#"{"a":[1,2]}"#);
    let idx = from_simdjson(&nodes, &bytes, &structurals, BuildOptions::for_jetro_tape())
        .ok()
        .unwrap();
    assert_eq!(idx.token_count(), 7);
    assert_eq!(idx.tape_index(TokenId(2)), Some(2));
    assert_eq!(idx.tape_index(TokenId(6)), None);
    assert!(idx.has_key("a"));
}

#[test]
fn refused_documents() {
    assert!(parse(b"{".to_vec()).is_err());
    assert!(parse(b"".to_vec()).is_err());
    assert!(parse_with_index(b"{\"a\":}".to_vec()).is_err());
    let e = parse(b"[1,]".to_vec()).err().unwrap();
    assert!(e.message().starts_with("parse error: "));
}

fn text(s: &str) -> TapeNode {
    TapeNode::Text { text: s.to_string(), offset: None }
}

fn number(s: &str) -> TapeNode {
    TapeNode::Static { text: s.to_string() }
}

fn failure(nodes: &[TapeNode], bytes: &[u8], structurals: &[u32]) -> String {
    build_from_tape_and_structurals(nodes, bytes, structurals).err().unwrap()
}

#[test]
fn every_tape_error() {
    let doc = br#"{"a":[1]}"#;
    let object = TapeNode::Object { len: 1 };
    let array = TapeNode::Array { len: 1 };
    assert_eq!(failure(&[object], doc, &[1]), "missing `{` in structurals");
    assert_eq!(failure(&[array], doc, &[0]), "missing `[` in structurals");
    assert_eq!(failure(&[text("a")], doc, &[0]), "missing `\"` in structurals");
    assert_eq!(failure(&[number("1")], doc, &[]), "scalar offset");
    assert_eq!(
        failure(&[TapeNode::Array { len: 0 }, number("1")], doc, &[5]),
        "unmatched close"
    );
    assert_eq!(
        failure(&[TapeNode::Array { len: 1 }, number("1")], doc, &[5, 6]),
        "trailing close not found"
    );
    // a position outside of the bytes ends a search
    assert_eq!(
        failure(&[TapeNode::Object { len: 0 }], doc, &[99, 0]),
        "missing `{` in structurals"
    );
}

#[test]
fn offsets_of_strings_move_the_cursor() {
    let doc = br#"["a","b"]"#;
    let structurals = [0u32, 1, 4, 5, 8];
    let nodes = [
        TapeNode::Array { len: 2 },
        TapeNode::Text { text: "a".to_string(), offset: Some(1) },
        TapeNode::Text { text: "b".to_string(), offset: Some(5) },
    ];
    let (idx, keys) = build_from_tape_and_structurals(&nodes, doc, &structurals).ok().unwrap();
    assert_eq!(idx.stage1.offset, vec![0, 1, 5, 8]);
    assert_eq!(keys.role, vec![Role::Other, Role::Elem, Role::Elem, Role::Other]);
}

#[test]
fn values_written_out() {
    let (nodes, _, _) = tape(br#"{"a" : [1, "s", {"b": true, "c": null}], "d": {}, "e": []}"#);
    assert_eq!(
        materialize_node(&nodes, 0),
        r#"{"a":[1,"s",{"b":true,"c":null}],"d":{},"e":[]}"#
    );
    assert_eq!(materialize_node(&nodes, 2), r#"[1,"s",{"b":true,"c":null}]"#);
    assert_eq!(materialize_node(&nodes, 3), "1");
    assert_eq!(materialize_node(&nodes, 4), r#""s""#);
    // a key that is no string
    assert_eq!(
        materialize_node(&[TapeNode::Object { len: 1 }, number("1"), number("2")], 0),
        r#"{"?":2}"#
    );
}

#[test]
fn a_tape_that_ends_too_early_holds_no_value() {
    let (nodes, _, _) = tape(br#"{"a":[1,"s"]}"#);
    assert!(holds_value(&nodes, 0));
    assert!(holds_value(&nodes, 3));
    assert!(!holds_value(&nodes, nodes.len()));
    assert!(!holds_value(&nodes[..4], 0));
    assert!(!holds_value(&nodes[..2], 0));
    assert!(holds_value(&[TapeNode::Object { len: 0 }], 0));
}

#[test]
fn tape_numbers_count_the_nodes() {
    let doc = br#"{"a":[1,{"b":"v"}],"c":true}"#;
    let (nodes, bytes, structurals) = tape(doc);
    let (idx, keys) = build_from_tape_and_structurals(&nodes, &bytes, &structurals).ok().unwrap();
    let numbers: Vec<u32> = idx.tape_of.iter().copied().filter(|&t| t != u32::MAX).collect();
    assert_eq!(numbers, (0..nodes.len() as u32).collect::<Vec<u32>>());
    // the columns of the document itself number the same tokens alike
    let scanned = StructIndex::build(doc).unwrap();
    let compat: Vec<u32> =
        build_tape_of_jetro_compat(&scanned).into_iter().filter(|&t| t != u32::MAX).collect();
    assert_eq!(compat, numbers);
    // keys lie in objects
    for t in 0..idx.stage1.len() {
        if keys.role[t] == Role::Key {
            assert_eq!(idx.stage1.kind[idx.parent[t] as usize], Kind::ObjOpen);
        }
    }
}

#[test]
fn written_values_parse_again() {
    let doc = br#"{"a":[1,"s",{"b":true}],"c":[[],[-2]]}"#;
    let (nodes, _, _) = tape(doc);
    let written = materialize_node(&nodes, 0);
    assert_eq!(written.as_bytes(), doc);
    assert_eq!(
        from_bytes(written.as_bytes()).ok().unwrap().token_count(),
        from_bytes(doc).ok().unwrap().token_count()
    );
}
