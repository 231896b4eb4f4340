use jetro_experimental::index::{build_tape_of_jetro_compat, fill_scalars, index_fits};
use jetro_experimental::{parent_chain, run, token_at, Kind, StructIndex};

#[test]
fn fills_number_scalars() {
    let buf = br#"{"a":1,"b":[2,3,4]}"#;
    let mut s = run(buf).unwrap();
    let before = s.len();
    fill_scalars(&mut s, buf);
    // 4 scalars: 1, 2, 3, 4
    assert_eq!(s.len() - before, 4);
    let n_scalar = s.kind.iter().filter(|k| **k == Kind::Scalar).count();
    assert_eq!(n_scalar, 4);
}

#[test]
fn fills_keyword_scalars() {
    let buf = br#"{"a":true,"b":false,"c":null}"#;
    let mut s = run(buf).unwrap();
    fill_scalars(&mut s, buf);
    let n_scalar = s.kind.iter().filter(|k| **k == Kind::Scalar).count();
    assert_eq!(n_scalar, 3);
}

#[test]
fn parent_close_basic() {
    let buf = br#"{"a":[1,2]}"#;
    let idx = StructIndex::build(buf).unwrap();
    // Token order with scalars filled:
    //  0  {       depth 0  parent -1
    //  1  "       depth 1  parent 0
    //  2  :       depth 1  parent 0
    //  3  [       depth 1  parent 0  close_of=7
    //  4  Scalar  depth 2  parent 3
    //  5  ,       depth 2  parent 3
    //  6  Scalar  depth 2  parent 3
    //  7  ]       depth 1  parent 0
    //  8  }       depth 0  parent -1
    assert_eq!(idx.stage1.kind[0], Kind::ObjOpen);
    assert_eq!(idx.parent[0], -1);
    assert_eq!(idx.close_of[0], 8);
    assert_eq!(idx.stage1.kind[3], Kind::ArrOpen);
    assert_eq!(idx.parent[3], 0);
    assert_eq!(idx.close_of[3], 7);
    // scalars under array
    assert_eq!(idx.stage1.kind[4], Kind::Scalar);
    assert_eq!(idx.parent[4], 3);
}

#[test]
fn tape_of_monotonic() {
    let buf = br#"{"a":1,"b":[2,3]}"#;
    let idx = StructIndex::build(buf).unwrap();
    // every value-bearing token has a tape, separators don't
    let mut last: i64 = -1;
    for i in 0..idx.stage1.len() {
        let t = idx.tape_of[i];
        let needs_tape = !matches!(idx.stage1.kind[i], Kind::Colon | Kind::Comma);
        if needs_tape {
            assert_ne!(t, u32::MAX);
            assert!(t as i64 > last);
            last = t as i64;
        } else {
            assert_eq!(t, u32::MAX);
        }
    }
}

#[test]
fn container_at_byte_inside_array() {
    let buf = br#"{"a":[1,2,3]}"#;
    let idx = StructIndex::build(buf).unwrap();
    // [ at byte 5, ] at byte 11 — pos 8 is the literal '2' inside the array
    let c = idx.container_at(8).unwrap();
    assert_eq!(idx.stage1.kind[c as usize], Kind::ArrOpen);
    assert_eq!(idx.stage1.offset[c as usize], 5);
}

#[test]
fn container_at_byte_inside_string() {
    let buf = br#"{"key":"value"}"#;
    let idx = StructIndex::build(buf).unwrap();
    // 'a' inside "value" is at byte 9; outermost obj is the only container
    let c = idx.container_at(9).unwrap();
    assert_eq!(idx.stage1.kind[c as usize], Kind::ObjOpen);
}

#[test]
fn nested_innermost_wins() {
    let buf = br#"{"a":{"x":"hit"}}"#;
    // Layout (offsets):
    //  0   { (outer)
    //  1   "a"
    //  4   :
    //  5   { (inner)
    //  6   "x"
    //  9   :
    //  10  "hit"
    //  15  }
    //  16  }
    let idx = StructIndex::build(buf).unwrap();
    // pos 11 is inside "hit" — innermost should be the inner obj at byte 5
    let c = idx.container_at(11).unwrap();
    assert_eq!(idx.stage1.offset[c as usize], 5);
    assert_eq!(idx.stage1.kind[c as usize], Kind::ObjOpen);
}

#[test]
fn parent_chain_walks_to_root() {
    let buf = br#"{"a":{"b":{"c":42}}}"#;
    let idx = StructIndex::build(buf).unwrap();
    // pos of '4' in 42
    let pos = buf.iter().position(|&b| b == b'4').unwrap() as u32;
    let inner = idx.container_at(pos).unwrap();
    let chain: Vec<u32> = idx.parent_chain_tokens(inner).collect();
    // inner is the {"c":...} obj; chain is its ancestors (not itself)
    assert!(!chain.is_empty());
    for &t in &chain {
        assert!(matches!(
            idx.stage1.kind[t as usize],
            Kind::ObjOpen | Kind::ArrOpen
        ));
    }
    // last in chain must be root
    let last = *chain.last().unwrap();
    assert_eq!(idx.parent[last as usize], -1);
}

#[test]
fn value_token_at_string_body() {
    let buf = br#"{"k":"hit"}"#;
    let idx = StructIndex::build(buf).unwrap();
    // 'h' of "hit" is at byte 6; opening quote of "hit" is at 5
    let v = idx.value_token_at(6).unwrap();
    assert_eq!(idx.stage1.kind[v as usize], Kind::Quote);
    assert_eq!(idx.stage1.offset[v as usize], 5);
}

#[test]
fn value_token_at_number() {
    let buf = br#"{"k":42}"#;
    let idx = StructIndex::build(buf).unwrap();
    // 42 is at byte 5..7; pos 6 is on '2' but token_at returns the Scalar at 5
    let v = idx.value_token_at(6).unwrap();
    assert_eq!(idx.stage1.kind[v as usize], Kind::Scalar);
    assert_eq!(idx.stage1.offset[v as usize], 5);
}

#[test]
fn parents_as_tape_is_increasing_outwards() {
    let buf = br#"{"a":{"b":[1]}}"#;
    let idx = StructIndex::build(buf).unwrap();
    let pos = buf.iter().position(|&b| b == b'1').unwrap() as u32;
    let inner = idx.container_at(pos).unwrap();
    let parents = idx.parents_as_tape(inner);
    // tape indices walk outward — each parent's tape index must be lower
    // than the inner container's (since parents open before children)
    let inner_tape = idx.tape_of[inner as usize];
    for &p in &parents {
        assert!(p < inner_tape);
    }
}

#[test]
fn empty_container() {
    let buf = br#"{"a":{},"b":[]}"#;
    let idx = StructIndex::build(buf).unwrap();
    // Find the inner empty obj ({}) and array ([])
    for i in 0..idx.stage1.len() {
        let k = idx.stage1.kind[i];
        if matches!(k, Kind::ObjOpen | Kind::ArrOpen) && idx.stage1.depth[i] == 1 {
            let close = idx.close_of[i];
            assert_eq!(close as usize, i + 1);
        }
    }
}

#[test]
fn container_at_covers_both_brackets() {
    let buf = br#" {"a":[1]} "#;
    let idx = StructIndex::build(buf).unwrap();
    assert_eq!(idx.container_at(0), None);
    assert_eq!(idx.container_at(1), Some(0));
    // `[` at byte 6, `]` at byte 8, `}` at byte 9
    assert_eq!(idx.container_at(6), Some(3));
    assert_eq!(idx.container_at(8), Some(3));
    assert_eq!(idx.container_at(9), Some(0));
    assert_eq!(idx.container_at(10), None);
}

#[test]
fn container_at_after_a_nested_close() {
    let buf = br#"[[],{} ,1]"#;
    let idx = StructIndex::build(buf).unwrap();
    // byte 2 closes the inner array, byte 3 is a comma of the outer one
    assert_eq!(idx.stage1.offset[idx.container_at(2).unwrap() as usize], 1);
    assert_eq!(idx.stage1.offset[idx.container_at(3).unwrap() as usize], 0);
    assert_eq!(idx.stage1.offset[idx.container_at(5).unwrap() as usize], 4);
    assert_eq!(idx.stage1.offset[idx.container_at(6).unwrap() as usize], 0);
}

#[test]
fn value_token_at_separators_and_brackets() {
    let buf = br#"{"k":[1]}"#;
    let idx = StructIndex::build(buf).unwrap();
    assert_eq!(idx.value_token_at(0), None);
    assert_eq!(idx.value_token_at(4), None);
    assert_eq!(idx.value_token_at(5), None);
    assert_eq!(idx.value_token_at(8), None);
    assert_eq!(idx.value_token_at(1), Some(1));
    // the closing quote belongs to its string
    assert_eq!(idx.value_token_at(3), Some(1));
}

#[test]
fn token_at_is_the_last_one_that_began() {
    let s = run(br#"  {"a":1}"#).unwrap();
    assert_eq!(token_at(&s, 1), None);
    assert_eq!(token_at(&s, 2), Some(0));
    assert_eq!(token_at(&s, 4), Some(1));
    assert_eq!(token_at(&s, 400), Some(3));
}

#[test]
fn literals_take_the_depth_that_they_live_at() {
    let buf = br#"{"a": -1 ,"b":[ 2, [t]]}"#;
    let idx = StructIndex::build(buf).unwrap();
    let scalars: Vec<(u32, u16)> = (0..idx.stage1.len())
        .filter(|&i| idx.stage1.kind[i] == Kind::Scalar)
        .map(|i| (idx.stage1.offset[i], idx.stage1.depth[i]))
        .collect();
    assert_eq!(scalars, vec![(6, 1), (16, 2), (20, 3)]);
}

#[test]
fn a_literal_at_the_root_is_no_token() {
    let idx = StructIndex::build(b"42").unwrap();
    assert_eq!(idx.stage1.len(), 0);
}

#[test]
fn a_string_at_the_root_has_no_parent() {
    let idx = StructIndex::build(b"\"x\"").unwrap();
    assert_eq!(idx.stage1.len(), 1);
    assert_eq!(idx.parent[0], -1);
    assert_eq!(idx.tape(0), 0);
}

#[test]
fn build_reports_scan_errors() {
    assert_eq!(StructIndex::build(b"}").unwrap_err(), "underflow");
    assert_eq!(StructIndex::build(b"[").unwrap_err(), "unclosed container");
    assert_eq!(StructIndex::build(b"\"").unwrap_err(), "unterminated string");
}

#[test]
fn foreign_parent_columns() {
    let parent = [-1i32, 0, 0, 2];
    assert_eq!(parent_chain(&parent, 3).collect(), vec![2, 0]);
    let mut walk = parent_chain(&parent, 1);
    assert_eq!(walk.next(), Some(0));
    assert_eq!(walk.next(), None);
    assert_eq!(walk.next(), None);
}

#[test]
fn tape_without_closes() {
    let idx = StructIndex::build(br#"{"a":[1],"b":{}}"#).unwrap();
    let compat = build_tape_of_jetro_compat(&idx);
    let numbered: Vec<u32> = compat.iter().copied().filter(|&t| t != u32::MAX).collect();
    // { "a" [ 1 "b" {
    assert_eq!(numbered, vec![0, 1, 2, 3, 4, 5]);
    for i in 0..idx.stage1.len() {
        if matches!(idx.stage1.kind[i], Kind::ObjClose | Kind::ArrClose) {
            assert_eq!(compat[i], u32::MAX);
            assert_ne!(idx.tape_of[i], u32::MAX);
        }
    }
}

#[test]
fn brackets_close_by_nesting_alone() {
    let idx = StructIndex::build(b"[}").unwrap();
    assert_eq!(idx.close_of[0], 1);
    assert_eq!(idx.parent[1], -1);
}

#[test]
fn index_fits_ordinary_documents() {
    assert!(index_fits(br#"{"a":[1,2,3]}"#));
    assert!(!index_fits(&vec![b'['; 70000]));
}
