use jetro_experimental::keys::value_for_key;
use jetro_experimental::{KeyBitmaps, Kind, Role, StructIndex};

#[test]
fn classify_roles_basic() {
    let buf = br#"{"a":1,"b":"two","c":[3,4]}"#;
    let idx = StructIndex::build(buf).unwrap();
    let kb = KeyBitmaps::build(&idx, buf);
    // Roles for the three keys
    let mut keys = Vec::new();
    for (i, &r) in kb.role.iter().enumerate() {
        if r == Role::Key {
            keys.push(i);
        }
    }
    assert_eq!(keys.len(), 3);
    // dict has a, b, c (order = insertion)
    let dict_strs: Vec<&str> = kb.dict.iter().map(|s| &**s).collect();
    assert_eq!(dict_strs, vec!["a", "b", "c"]);
}

#[test]
fn find_key_returns_correct_tokens() {
    let buf = br#"{"a":1,"b":2}"#;
    let idx = StructIndex::build(buf).unwrap();
    let kb = KeyBitmaps::build(&idx, buf);
    let tok_a = kb.find_key("a", None);
    assert_eq!(tok_a.len(), 1);
    let t = tok_a[0] as usize;
    assert_eq!(idx.stage1.kind[t], Kind::Quote);
    assert_eq!(kb.role[t], Role::Key);
}

#[test]
fn key_at_depth_filters() {
    let buf = br#"{"x":{"x":42}}"#;
    let idx = StructIndex::build(buf).unwrap();
    let kb = KeyBitmaps::build(&idx, buf);
    let all = kb.find_key("x", None);
    let d1 = kb.find_key("x", Some(1));
    let d2 = kb.find_key("x", Some(2));
    assert_eq!(all.len(), 2);
    assert_eq!(d1.len(), 1);
    assert_eq!(d2.len(), 1);
    // depth 1 key precedes depth 2 key in token order
    assert!(d1[0] < d2[0]);
}

#[test]
fn key_with_same_text_as_value_not_classified_as_key() {
    // "x" appears as both key and value
    let buf = br#"{"k":"x","x":1}"#;
    let idx = StructIndex::build(buf).unwrap();
    let kb = KeyBitmaps::build(&idx, buf);
    let xs = kb.find_key("x", None);
    // only one match — the actual key, not the string value
    assert_eq!(xs.len(), 1);
    let t = xs[0] as usize;
    assert_eq!(kb.role[t], Role::Key);
    // The other "x" Quote (the string value) should be classified as Value
    let value_xs: Vec<usize> = (0..idx.stage1.len())
        .filter(|&i| idx.stage1.kind[i] == Kind::Quote && kb.role[i] == Role::Value)
        .collect();
    assert!(!value_xs.is_empty());
}

#[test]
fn value_for_key_string() {
    let buf = br#"{"k":"hit"}"#;
    let idx = StructIndex::build(buf).unwrap();
    let kb = KeyBitmaps::build(&idx, buf);
    let k = kb.find_key("k", None)[0];
    let v = value_for_key(&idx, k).unwrap();
    assert_eq!(idx.stage1.kind[v as usize], Kind::Quote);
    assert_eq!(kb.role[v as usize], Role::Value);
    // value's offset is at the opening quote of "hit"
    let off = idx.stage1.offset[v as usize] as usize;
    assert_eq!(buf[off], b'"');
    assert_eq!(&buf[off + 1..off + 4], b"hit");
}

#[test]
fn value_for_key_object() {
    let buf = br#"{"k":{"x":1}}"#;
    let idx = StructIndex::build(buf).unwrap();
    let kb = KeyBitmaps::build(&idx, buf);
    let k = kb.find_key("k", None)[0];
    let v = value_for_key(&idx, k).unwrap();
    assert_eq!(idx.stage1.kind[v as usize], Kind::ObjOpen);
}

#[test]
fn value_for_key_number() {
    let buf = br#"{"k":42}"#;
    let idx = StructIndex::build(buf).unwrap();
    let kb = KeyBitmaps::build(&idx, buf);
    let k = kb.find_key("k", None)[0];
    let v = value_for_key(&idx, k).unwrap();
    assert_eq!(idx.stage1.kind[v as usize], Kind::Scalar);
}

#[test]
fn mison_style_query_x_eq_test() {
    // Full pipeline: $..find(x == "test")
    let buf = br#"{"a":{"x":"test"},"b":{"x":"nope"},"c":{"y":"test"}}"#;
    let idx = StructIndex::build(buf).unwrap();
    let kb = KeyBitmaps::build(&idx, buf);

    let mut hits = Vec::new();
    for k_tok in kb.find_key("x", None) {
        let v = value_for_key(&idx, k_tok).unwrap();
        if idx.stage1.kind[v as usize] != Kind::Quote {
            continue;
        }
        // Compare value string body byte-for-byte
        let off = idx.stage1.offset[v as usize] as usize;
        // body between quotes; find closing quote
        let mut e = off + 1;
        while e < buf.len() && buf[e] != b'"' {
            if buf[e] == b'\\' {
                e += 2;
            } else {
                e += 1;
            }
        }
        if &buf[off + 1..e] == b"test" {
            // Walk to enclosing object container
            let parent_obj = idx.parent[k_tok as usize];
            hits.push(parent_obj as u32);
        }
    }
    assert_eq!(hits.len(), 1);
    // The one hit is the inner obj containing {"x":"test"}
    let h = hits[0] as usize;
    assert_eq!(idx.stage1.kind[h], Kind::ObjOpen);
    assert_eq!(idx.stage1.offset[h], 5); // byte offset of inner '{' for "a"
}

#[test]
fn empty_doc() {
    let buf = br#"{}"#;
    let idx = StructIndex::build(buf).unwrap();
    let kb = KeyBitmaps::build(&idx, buf);
    assert_eq!(kb.dict.len(), 0);
    assert_eq!(kb.find_key("anything", None), Vec::<u32>::new());
}

#[test]
fn escaped_key() {
    let buf = br#"{"a\nb":42}"#;
    let idx = StructIndex::build(buf).unwrap();
    let kb = KeyBitmaps::build(&idx, buf);
    // Decoded key contains a real newline
    let dict_strs: Vec<&str> = kb.dict.iter().map(|s| &**s).collect();
    assert_eq!(dict_strs, vec!["a\nb"]);
    let hits = kb.find_key("a\nb", None);
    assert_eq!(hits.len(), 1);
}

fn dict(buf: &[u8]) -> Vec<String> {
    let idx = StructIndex::build(buf).unwrap();
    KeyBitmaps::build(&idx, buf).dict
}

#[test]
fn every_escape_of_a_key() {
    assert_eq!(
        dict(br#"{"\"\\\/\b\f\n\r\t":1}"#),
        vec!["\"\\/\u{8}\u{c}\n\r\t".to_string()]
    );
    assert_eq!(dict(br#"{"\u0041\u00e9\u20AC":1}"#), vec!["A\u{e9}\u{20ac}".to_string()]);
    // a plus sign and three digits write a code too
    assert_eq!(dict(br#"{"\u+041":1}"#), vec!["A".to_string()]);
    // no code, and half of a surrogate pair, add nothing
    assert_eq!(dict(br#"{"x\uZZZZy\ud83dz":1}"#), vec!["xyz".to_string()]);
    // an unknown letter stands for itself
    assert_eq!(dict(br#"{"\q":1}"#), vec!["q".to_string()]);
}

#[test]
fn keys_in_utf8_and_not() {
    assert_eq!(dict("{\"\u{e9}\u{20ac}\":1}".as_bytes()), vec!["\u{e9}\u{20ac}".to_string()]);
    // a run of bytes that is not UTF-8 is dropped, what an escape parts from it stays
    assert_eq!(dict(b"{\"a\xff\\nb\":1}"), vec!["\nb".to_string()]);
}

#[test]
fn keys_are_interned_in_order_of_appearance() {
    let buf = br#"[{"b":1,"a":2},{"a":3,"c":4,"b":5}]"#;
    let idx = StructIndex::build(buf).unwrap();
    let kb = KeyBitmaps::build(&idx, buf);
    assert_eq!(kb.dict, vec!["b".to_string(), "a".to_string(), "c".to_string()]);
    assert_eq!(kb.find_key("a", None).len(), 2);
    for name in ["a", "b", "c"] {
        for t in kb.find_key(name, None) {
            assert_eq!(kb.dict[kb.key_id_of[t as usize] as usize], name);
        }
        assert!(kb.contains_key(name));
    }
    assert!(!kb.contains_key("d"));
    assert_eq!(kb.len(), idx.stage1.len());
}

#[test]
fn a_depth_below_all_tokens_has_no_keys() {
    let buf = br#"{"x":{"x":42}}"#;
    let idx = StructIndex::build(buf).unwrap();
    let kb = KeyBitmaps::build(&idx, buf);
    assert_eq!(kb.find_key("x", Some(0)), Vec::<u32>::new());
    assert_eq!(kb.find_key("x", Some(3)), Vec::<u32>::new());
    assert_eq!(kb.find_key("x", Some(9999)), Vec::<u32>::new());
}

#[test]
fn roles_of_every_kind() {
    let buf = br#"[{"k":"v","n":1,"o":{},"a":[]},"s",2]"#;
    let idx = StructIndex::build(buf).unwrap();
    let kb = KeyBitmaps::build(&idx, buf);
    assert_eq!(kb.role[0], Role::Other);
    assert_eq!(kb.role[1], Role::Elem);
    let at = |off: u32| idx.stage1.offset.iter().position(|&o| o == off).unwrap();
    assert_eq!(kb.role[at(2)], Role::Key);
    assert_eq!(kb.role[at(5)], Role::Other);
    assert_eq!(kb.role[at(6)], Role::Value);
    assert_eq!(kb.role[at(14)], Role::Value);
    assert_eq!(kb.role[at(20)], Role::Value);
    assert_eq!(kb.role[at(27)], Role::Value);
    assert_eq!(kb.role[at(31)], Role::Elem);
    assert_eq!(kb.role[at(35)], Role::Elem);
    let single = StructIndex::build(b"\"x\"").unwrap();
    assert_eq!(KeyBitmaps::build(&single, b"\"x\"").role[0], Role::Value);
}

#[test]
fn a_key_without_value_has_none() {
    let buf = br#"[{"k":},1]"#;
    let idx = StructIndex::build(buf).unwrap();
    let kb = KeyBitmaps::build(&idx, buf);
    let k = kb.find_key("k", None)[0];
    assert_eq!(value_for_key(&idx, k), None);
}

#[test]
fn a_clone_of_the_key_layer_answers_alike() {
    let buf = br#"[{"b":1,"a":{"b":2}},{"a":3}]"#;
    let idx = StructIndex::build(buf).unwrap();
    let kb = KeyBitmaps::build(&idx, buf);
    let same = kb.clone();
    assert_eq!(same.dict, kb.dict);
    assert_eq!(same.role, kb.role);
    assert_eq!(same.key_id_of, kb.key_id_of);
    assert_eq!(same.len(), kb.len());
    assert_eq!(same.depth_bitmaps.len(), kb.depth_bitmaps.len());
    for name in ["a", "b", "none"] {
        assert_eq!(same.contains_key(name), kb.contains_key(name));
        for depth in [None, Some(0), Some(2), Some(3), Some(9)] {
            assert_eq!(same.find_key(name, depth), kb.find_key(name, depth));
        }
    }
    assert_eq!(same.find_key("b", None).len(), 2);
}
