use croaring::Bitmap;
use jetro_experimental::op::CardClass;
use jetro_experimental::{
    find_eq, from_bytes, from_bytes_with, run_count, run_first, BuildOptions, Ctx, Op, OpPlan,
    StructuralIndex, TokenId,
};

#[test]
fn simple_by_key() {
    let buf = br#"{"a":1,"b":2,"c":3}"#;
    let idx = from_bytes(buf).unwrap();
    let plan = OpPlan::new().by_key("b");
    let n = run_count(&plan, &idx, buf);
    assert_eq!(n, 1);
}

#[test]
fn key_at_depth() {
    let buf = br#"{"x":1,"nested":{"x":2,"y":3}}"#;
    let idx = from_bytes(buf).unwrap();
    // Both "x" tokens at any depth.
    let n_all = run_count(&OpPlan::new().by_key("x"), &idx, buf);
    assert_eq!(n_all, 2);
    // "x" at depth 1 only.
    let n_d1 = run_count(&OpPlan::new().by_key("x").at_depth(1), &idx, buf);
    assert_eq!(n_d1, 1);
}

#[test]
fn descend_then_by_key() {
    let buf = br#"{"a":{"x":1,"y":2},"b":{"x":3,"z":4}}"#;
    let idx = from_bytes(buf).unwrap();
    // From root, all descendants having key "x".
    let plan = OpPlan::new()
        .anchor(TokenId(0)) // root obj
        .descend()
        .by_key("x");
    let n = run_count(&plan, &idx, buf);
    assert_eq!(n, 2);
}

#[test]
fn within_subtree_restricts() {
    let buf = br#"{"a":{"x":1},"b":{"x":2}}"#;
    let idx = from_bytes(buf).unwrap();
    // Find the inner obj of "a".
    let a_obj = idx.field_of(TokenId(0), "a").expect("a exists");
    // Restrict "x" search to inside the "a" subtree.
    let n = run_count(&OpPlan::new().by_key("x").within(a_obj), &idx, buf);
    assert_eq!(n, 1);
}

#[test]
fn value_eq_predicate() {
    let buf = br#"[{"k":"a","v":1},{"k":"b","v":2},{"k":"c","v":1}]"#;
    let idx = from_bytes(buf).unwrap();
    // Find Key tokens "v" whose value byte-equals 1: the key tokens themselves are compared.
    let plan = OpPlan::new().by_key("v").value_eq(b"1");
    let n = run_count(&plan, &idx, buf);
    let _ = n;

    // Proper way: anchor on each key tok, fetch value, compare.
    let mut hits = 0u64;
    for k in idx.keys_named("v", None).collect() {
        let v = idx.value_for_key(k).unwrap();
        let span = idx.byte_span_in(v, buf);
        if &buf[span.start as usize..span.end as usize] == b"1" {
            hits += 1;
        }
    }
    assert_eq!(hits, 2);
}

#[test]
fn chain_query_first() {
    // $.a..b ?.first()
    let buf = br#"{"a":{"x":{"b":"hit"},"y":{"b":"miss"}}}"#;
    let idx = from_bytes(buf).unwrap();
    let a_obj = idx.field_of(TokenId(0), "a").unwrap();
    // Descend from a, find any "b" key, take first.
    let plan = OpPlan::new().anchor(a_obj).descend().by_key("b").first();
    let first = run_first(&plan, &idx, buf).unwrap();
    // First "b" in document order is at the smaller token id.
    let span = idx.byte_span_in(idx.value_for_key(first).unwrap(), buf);
    let v = std::str::from_utf8(&buf[span.start as usize..span.end as usize]).unwrap();
    assert_eq!(v, "\"hit\"");
}

#[test]
fn at_depth_filters() {
    let buf = br#"{"a":1,"b":2}"#;
    let idx = from_bytes(buf).unwrap();
    // All tokens at depth 1: keys, colons, scalars and commas.
    let n_d1 = run_count(&OpPlan::new().at_depth(1), &idx, buf);
    // Keys at depth 1 only, by AND with a key bitmap.
    let n_keys_d1 = run_count(&OpPlan::new().by_key("a").at_depth(1), &idx, buf);
    assert!(n_d1 > n_keys_d1);
    assert_eq!(n_keys_d1, 1);
}

#[test]
fn optimize_collapses_load_all() {
    let p = OpPlan::new().all().by_key("x").optimize();
    assert!(matches!(p.ops[0], Op::LoadKey(_)));
    assert_eq!(p.ops.len(), 1);
}

#[test]
fn algebraic_compose() {
    // `LoadKey` after `LoadKey` should fold to `And`.
    let p = OpPlan::new().by_key("a").by_key("b").optimize();
    assert!(matches!(p.ops[0], Op::And(_, _)));
    assert_eq!(p.ops.len(), 1);
}

#[test]
fn deeply_nested_chain() {
    // $.store ..items ..find(in_stock)
    let buf = br#"{"store":{"sections":[{"items":[{"in_stock":true,"sku":"a"},{"in_stock":false,"sku":"b"}]},{"items":[{"in_stock":true,"sku":"c"}]}]}}"#;
    let idx = from_bytes(buf).unwrap();
    let store = idx.field_of(TokenId(0), "store").unwrap();
    let plan = OpPlan::new().anchor(store).descend().by_key("in_stock");
    let n = run_count(&plan, &idx, buf);
    assert_eq!(n, 3); // three items have in_stock key
}

#[test]
fn first_short_circuits_on_singleton() {
    let buf = br#"{"items":[{"x":1},{"x":2},{"x":3}]}"#;
    let idx = from_bytes(buf).unwrap();
    let plan = OpPlan::new().by_key("x").first();
    let r = plan.run(&idx, buf);
    assert_eq!(r.cardinality(), 1);
}

const DOC: &[u8] = br#"{"a":{"x":1,"y":"s"},"b":[2,{"x":3}],"c":"s"}"#;

fn ids(b: &Bitmap) -> Vec<u32> {
    b.to_vec()
}

fn texts(b: &Bitmap, idx: &StructuralIndex) -> Vec<String> {
    b.to_vec()
        .into_iter()
        .map(|t| String::from_utf8(idx.slice(DOC, TokenId(t)).to_vec()).unwrap())
        .collect()
}

#[test]
fn the_empty_plan_keeps_all_tokens() {
    let idx = from_bytes(DOC).unwrap();
    let n = idx.token_count();
    assert_eq!(ids(&OpPlan::new().run(&idx, DOC)), (0..n).collect::<Vec<u32>>());
    assert_eq!(ids(&OpPlan::default().all().run(&idx, DOC)), (0..n).collect::<Vec<u32>>());
    let empty = from_bytes(b"").unwrap();
    assert_eq!(run_count(&OpPlan::new().all(), &empty, b""), 0);
    assert_eq!(run_first(&OpPlan::new(), &empty, b""), None);
}

#[test]
fn transformers() {
    let idx = from_bytes(DOC).unwrap();
    let root = TokenId(0);
    let fields = OpPlan::new().anchor(root).field("a").run(&idx, DOC);
    assert_eq!(texts(&fields, &idx), vec![r#"{"x":1,"y":"s"}"#]);
    let deep = OpPlan::new().anchor(root).field("a").field("y").run(&idx, DOC);
    assert_eq!(texts(&deep, &idx), vec![r#""s""#]);
    let none = OpPlan::new().anchor(root).field("x").run(&idx, DOC);
    assert!(ids(&none).is_empty());
    let children = OpPlan::new().anchor(root).field("b").children().run(&idx, DOC);
    assert_eq!(texts(&children, &idx), vec!["2", ",", r#"{"x":3}"#, "}"]);
    let below = OpPlan::new().anchor(root).field("b").descend().by_key("x").run(&idx, DOC);
    assert_eq!(texts(&below, &idx), vec![r#""x""#]);
    assert_eq!(run_count(&OpPlan::new().anchor(root).descend(), &idx, DOC), idx.token_count() as u64);
}

#[test]
fn tokens_that_hold_nothing_descend_to_themselves() {
    let buf = br#"{"a":1,"b":2}"#;
    let idx = from_bytes(buf).unwrap();
    let ctx = Ctx { idx: &idx, bytes: buf };
    // the literal 1, the key "a", the colon, the comma and the close
    for t in [3u32, 1, 2, 4, 8] {
        let mut one = Bitmap::new();
        one.add(t);
        assert_eq!(ids(&Op::Descendants.apply(&one, &ctx)), vec![t]);
        assert_eq!(ids(&Op::LoadSubtree(TokenId(t)).apply(&one, &ctx)), vec![t]);
        assert_eq!(ids(&OpPlan::new().anchor(TokenId(t)).descend().run(&idx, buf)), vec![t]);
        assert_eq!(ids(&OpPlan::new().within(TokenId(t)).run(&idx, buf)), vec![t]);
        assert!(ids(&OpPlan::new().anchor(TokenId(t)).children().run(&idx, buf)).is_empty());
    }
    // behind a scalar no key of the rest of the document is found
    let below = OpPlan::new().anchor(TokenId(3)).descend().by_key("b");
    assert_eq!(run_count(&below, &idx, buf), 0);
    let key = OpPlan::new().anchor(TokenId(1)).descend().by_key("a");
    assert_eq!(run_first(&key, &idx, buf), Some(TokenId(1)));
    // several tokens at once
    let mut some = Bitmap::new();
    some.add(3);
    some.add(7);
    assert_eq!(ids(&Op::Descendants.apply(&some, &ctx)), vec![3, 7]);
}

#[test]
fn filters_and_reducers() {
    let idx = from_bytes(DOC).unwrap();
    let same = OpPlan::new().all().value_eq(b"s").run(&idx, DOC);
    assert_eq!(texts(&same, &idx), vec![r#""s""#, r#""s""#]);
    let xs: Vec<u32> = idx.keys_named("x", None).collect().into_iter().map(|t| t.0).collect();
    assert_eq!(ids(&OpPlan::new().by_key("x").first().run(&idx, DOC)), vec![xs[0]]);
    assert_eq!(ids(&OpPlan::new().by_key("x").last().run(&idx, DOC)), vec![xs[1]]);
    assert_eq!(ids(&OpPlan::new().by_key("x").nth(1).run(&idx, DOC)), vec![xs[1]]);
    assert_eq!(ids(&OpPlan::new().by_key("x").nth(2).run(&idx, DOC)), Vec::<u32>::new());
    assert_eq!(ids(&OpPlan::new().by_key("x").count().run(&idx, DOC)), vec![2]);
    assert_eq!(ids(&OpPlan::new().by_key("none").count().run(&idx, DOC)), vec![0]);
    assert_eq!(ids(&OpPlan::new().by_key("none").first().run(&idx, DOC)), Vec::<u32>::new());
    assert_eq!(ids(&OpPlan::new().by_key("none").last().run(&idx, DOC)), Vec::<u32>::new());
    assert_eq!(run_first(&OpPlan::new().by_key("x"), &idx, DOC), Some(TokenId(xs[0])));
    assert_eq!(run_first(&OpPlan::new().by_key("none"), &idx, DOC), None);
}

#[test]
fn combinators() {
    let idx = from_bytes(DOC).unwrap();
    let ctx = Ctx { idx: &idx, bytes: DOC };
    let all = OpPlan::new().run(&idx, DOC);
    let x = || Box::new(Op::LoadKey("x".to_string()));
    let deep = || Box::new(Op::LoadDepth(3));
    let xs = ids(&Op::LoadKey("x".to_string()).apply(&all, &ctx));
    assert_eq!(xs.len(), 2);
    assert_eq!(ids(&Op::And(x(), deep()).apply(&all, &ctx)), vec![xs[1]]);
    assert_eq!(ids(&Op::Sub(x(), deep()).apply(&all, &ctx)), vec![xs[0]]);
    let either = ids(&Op::Or(x(), deep()).apply(&all, &ctx));
    assert_eq!(either.len(), ids(&Op::LoadDepth(3).apply(&all, &ctx)).len() + 1);
    assert!(either.contains(&xs[0]));
    assert_eq!(ids(&Op::LoadOne(TokenId(3)).apply(&all, &ctx)), vec![3]);
    assert_eq!(ids(&Op::LoadSubtree(TokenId(0)).apply(&all, &ctx)), ids(&all));
}

#[test]
fn classes_of_operators() {
    assert_eq!(Op::LoadAll.card_class(), CardClass::Constant);
    assert_eq!(Op::LoadOne(TokenId(1)).card_class(), CardClass::Constant);
    assert_eq!(Op::FieldOf("a".to_string()).card_class(), CardClass::Subset);
    assert_eq!(Op::Descendants.card_class(), CardClass::Expand);
    assert_eq!(Op::First.card_class(), CardClass::Reduce(1));
    assert!(Op::Nth(3).supports_demand());
    assert!(Op::Count.supports_demand());
    assert!(!Op::AllChildren.supports_demand());
}

#[test]
fn a_loader_narrows_the_running_set() {
    let idx = from_bytes(DOC).unwrap();
    let wide = OpPlan::new().by_key("x");
    let narrow = wide.clone().within(idx.field_of(TokenId(0), "a").unwrap());
    let (w, n) = (ids(&wide.run(&idx, DOC)), ids(&narrow.run(&idx, DOC)));
    assert!(n.iter().all(|t| w.contains(t)));
    assert_eq!((w.len(), n.len()), (2, 1));
}

#[test]
fn optimizing_keeps_the_outcome() {
    let idx = from_bytes(DOC).unwrap();
    let plans = vec![
        OpPlan::new().all().by_key("x"),
        OpPlan::new().by_key("x").by_key("y"),
        OpPlan::new().by_key("x").by_key("x").at_depth(2),
        OpPlan::new().all().all().by_key("a").first(),
        OpPlan::new().within(TokenId(4)).by_key("x").by_key("x"),
        OpPlan::new().anchor(TokenId(0)).by_key("x").all().by_key("x"),
        OpPlan::new().anchor(TokenId(0)).descend().by_key("x").by_key("x").count(),
        OpPlan::new().anchor(TokenId(99999)).by_key("x").by_key("x"),
    ];
    for plan in plans {
        let before = ids(&plan.run(&idx, DOC));
        let fast = plan.optimize();
        assert_eq!(ids(&fast.run(&idx, DOC)), before);
        // nothing is left to do
        let n = fast.ops.len();
        assert_eq!(fast.optimize().ops.len(), n);
    }
}

#[test]
fn a_key_loaded_twice() {
    // in front of a plan the two loads become an intersection
    let front = OpPlan::new().by_key("x").by_key("x").optimize();
    assert_eq!(front.ops.len(), 1);
    assert!(matches!(front.ops[0], Op::And(_, _)));
    // behind other operators one of them is enough
    let behind = OpPlan::new().at_depth(2).by_key("x").by_key("x").optimize();
    assert_eq!(behind.ops.len(), 2);
    assert!(matches!(behind.ops[1], Op::LoadKey(_)));
    let differ = OpPlan::new().at_depth(2).by_key("x").by_key("y").optimize();
    assert_eq!(differ.ops.len(), 2);
    assert!(matches!(differ.ops[1], Op::And(_, _)));
    // an expansion keeps the load behind it
    let pair = OpPlan::new().anchor(TokenId(0)).descend().by_key("x").by_key("y").optimize();
    assert_eq!(pair.ops.len(), 4);
}

#[test]
fn names_that_differ_do_not_meet() {
    let idx = from_bytes(DOC).unwrap();
    assert_eq!(run_count(&OpPlan::new().by_key("x").by_key("y"), &idx, DOC), 0);
    assert_eq!(run_count(&OpPlan::new().by_key("x").by_key("x"), &idx, DOC), 2);
}

#[test]
fn a_clone_is_the_same_plan() {
    let idx = from_bytes(DOC).unwrap();
    let plan = OpPlan::new().anchor(TokenId(0)).field("a").children().value_eq(b"s");
    let same = plan.clone();
    assert_eq!(same.ops.len(), 4);
    assert_eq!(ids(&same.run(&idx, DOC)), ids(&plan.run(&idx, DOC)));
    let both = Op::And(Box::new(Op::LoadAll), Box::new(Op::LoadKey("x".to_string())));
    assert_eq!(format!("{:?}", both.clone()), format!("{:?}", both));
}

#[test]
fn a_plan_finds_what_find_eq_finds() {
    let buf = br#"[{"k":"v"},{"k":"w"},{"k":"v"}]"#;
    let idx = from_bytes(buf).unwrap();
    let mut by_plan = Vec::new();
    for t in find_eq(&idx, buf, "k", b"v") {
        let n = run_count(&OpPlan::new().anchor(t).field("k").value_eq(b"v"), &idx, buf);
        assert_eq!(n, 1);
        by_plan.push(t);
    }
    assert_eq!(by_plan.len(), 2);
}

#[test]
fn without_the_key_layer_names_match_nothing() {
    let idx = from_bytes_with(DOC, BuildOptions::minimal()).unwrap();
    assert_eq!(run_count(&OpPlan::new().by_key("x"), &idx, DOC), 0);
    assert_eq!(run_count(&OpPlan::new().anchor(TokenId(0)).field("a"), &idx, DOC), 0);
}
