use jetro_experimental::from_tape::parse_with_index;
use jetro_experimental::keys::value_for_key;
use jetro_experimental::text::value_byte_slice;
use jetro_experimental::{
    find_eq, find_eq_compound, from_bytes, BuildOptions, ByteSpan, Error, KeyBitmaps, Kind,
    StructIndex, StructuralIndex, TokenId, TokenKind,
};

const DOC: &[u8] =
    br#"{"a\"b":[1,"x,y",{"k":"}"}],"k":{"k":null,"l":[[],{}]},"l":"x,y","m":-0.5e3}"#;

#[test]
fn depths_are_nestings() {
    let idx = StructIndex::build(DOC).unwrap();
    for i in 0..idx.stage1.len() {
        let nesting = idx.parent_chain_tokens(i as u32).collect().len();
        assert_eq!(idx.stage1.depth[i] as usize, nesting);
    }
}

#[test]
fn strings_end_in_front_of_the_next_token() {
    let idx = StructIndex::build(DOC).unwrap();
    for i in 0..idx.stage1.len() {
        if idx.stage1.kind[i] != Kind::Quote {
            continue;
        }
        let start = idx.stage1.offset[i] as usize;
        let text = value_byte_slice(DOC, start, Kind::Quote);
        assert!(text.len() >= 2);
        assert_eq!(text[0], b'"');
        assert_eq!(text[text.len() - 1], b'"');
        assert!(start + text.len() <= idx.stage1.offset[i + 1] as usize);
    }
    assert_eq!(value_byte_slice(DOC, 1, Kind::Quote), br#""a\"b""#);
    assert_eq!(value_byte_slice(b"[12 ,3]", 1, Kind::Scalar), b"12");
    assert_eq!(value_byte_slice(b"[12", 1, Kind::Scalar), b"12");
    assert_eq!(value_byte_slice(b"\"ab", 0, Kind::Quote), b"\"ab");
    assert_eq!(value_byte_slice(b"[12]", 1, Kind::Comma), b"");
}

#[test]
fn values_lie_beside_their_keys() {
    let idx = StructIndex::build(DOC).unwrap();
    let kb = KeyBitmaps::build(&idx, DOC);
    for name in &kb.dict {
        for k in kb.find_key(name, None) {
            let v = value_for_key(&idx, k).unwrap();
            assert_eq!(idx.parent[v as usize], idx.parent[k as usize]);
            assert_eq!(v, k + 2);
        }
    }
}

#[test]
fn bitmaps_agree_with_key_numbers() {
    let idx = StructIndex::build(DOC).unwrap();
    let kb = KeyBitmaps::build(&idx, DOC);
    for (id, name) in kb.dict.iter().enumerate() {
        let by_number: Vec<u32> =
            (0..kb.len() as u32).filter(|&t| kb.key_id_of[t as usize] == id as u32).collect();
        assert_eq!(kb.find_key(name, None), by_number);
        assert_eq!(kb.bitmaps[id].to_vec(), by_number);
        assert_eq!(kb.dict.iter().filter(|other| *other == name).count(), 1);
    }
}

#[test]
fn compound_searches_intersect() {
    let buf = br#"[{"a":1,"b":2},{"a":1,"b":3},{"b":2,"c":{"a":1,"b":2}},{"a":2,"b":2}]"#;
    let idx = from_bytes(buf).unwrap();
    let a = find_eq(&idx, buf, "a", b"1");
    let b = find_eq(&idx, buf, "b", b"2");
    let both: Vec<TokenId> = a.iter().copied().filter(|t| b.contains(t)).collect();
    let conds: &[(&str, &[u8])] = &[("a", b"1"), ("b", b"2")];
    assert_eq!(find_eq_compound(&idx, buf, conds), both);
    assert_eq!(both.len(), 2);
    for t in both {
        assert_eq!(idx.kind(t), TokenKind::Object);
    }
}

#[test]
fn coarse_spans_cover_exact_ones() {
    let idx = from_bytes(DOC).unwrap();
    for i in 0..idx.token_count() - 1 {
        let t = TokenId(i);
        let (coarse, exact) = (idx.byte_span(t), idx.byte_span_in(t, DOC));
        assert_eq!(coarse.start, exact.start);
        assert!(exact.end <= coarse.end);
    }
}

#[test]
fn subtrees_are_what_tokens_hold() {
    let idx = from_bytes(DOC).unwrap();
    for i in 0..idx.token_count() {
        let set = idx.subtree_bitmap(TokenId(i));
        for t in 0..idx.token_count() {
            let held = t == i
                || idx.ancestors(TokenId(t)).collect().contains(&TokenId(i))
                || idx.close_of(TokenId(i)) == Some(TokenId(t));
            assert_eq!(set.contains(t), held);
        }
    }
}

#[test]
fn brackets_of_a_tape_pair() {
    let parsed = parse_with_index(DOC.to_vec()).ok().unwrap();
    let kind = &parsed.index.stage1.kind;
    let mut pairs = 0;
    for i in 0..kind.len() {
        let close = parsed.index.close_of[i];
        match kind[i] {
            Kind::ObjOpen => assert_eq!(kind[close as usize], Kind::ObjClose),
            Kind::ArrOpen => assert_eq!(kind[close as usize], Kind::ArrClose),
            _ => continue,
        }
        pairs += 1;
    }
    assert_eq!(pairs, 7);
}

fn shared_between_threads<T: Send + Sync>() {}

#[test]
fn an_index_can_be_shared_between_threads() {
    shared_between_threads::<StructuralIndex>();
    shared_between_threads::<TokenId>();
    shared_between_threads::<ByteSpan>();
    shared_between_threads::<Error>();
    shared_between_threads::<BuildOptions>();
}
