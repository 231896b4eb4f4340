use jetro_experimental::streaming::{LineBuilder, LineFeed, LineParsed, LineStep};
use jetro_experimental::BuildOptions;

const NDJSON: &[u8] = b"\
{\"id\":1,\"x\":\"a\"}
{\"id\":2,\"x\":\"b\"}
{\"id\":3,\"x\":\"a\"}
";

/// The lines that could be read, up to `limit` of them.
fn lines(b: LineBuilder<'_>, limit: usize) -> Vec<LineParsed> {
    let mut walk = b.into_iter();
    let mut out = Vec::new();
    let mut seen = 0;
    while seen < limit {
        match walk.next() {
            Some(Ok(p)) => out.push(p),
            Some(Err(_)) => {}
            None => break,
        }
        seen += 1;
    }
    out
}

#[test]
fn line_builder_iterates_each_line() {
    let mut b = LineBuilder::new(NDJSON);
    let p1 = b.next_line().unwrap_or(None).unwrap();
    assert!(p1.index.has_key("id"));
    assert!(p1.index.has_key("x"));
    let p2 = b.next_line().unwrap_or(None).unwrap();
    assert!(p2.index.has_key("x"));
    let p3 = b.next_line().unwrap_or(None).unwrap();
    assert!(p3.index.has_key("x"));
    // EOF
    assert!(matches!(b.next_line(), Ok(None)));
}

#[test]
fn line_iter_collects_all() {
    let b = LineBuilder::new(NDJSON);
    assert_eq!(lines(b, usize::MAX).len(), 3);
}

#[test]
fn skips_blank_lines() {
    let buf: &[u8] = b"\
{\"a\":1}


{\"b\":2}
";
    let b = LineBuilder::new(buf);
    assert_eq!(lines(b, usize::MAX).len(), 2);
}

#[test]
fn short_circuits_via_take() {
    let b = LineBuilder::new(NDJSON);
    // Stop after 2 lines.
    assert_eq!(lines(b, 2).len(), 2);
}

#[test]
fn cross_line_filter_active_only() {
    let buf: &[u8] = b"\
{\"id\":1,\"active\":true}
{\"id\":2,\"active\":false}
{\"id\":3,\"active\":true}
";
    let b = LineBuilder::new(buf);
    let n_active = lines(b, usize::MAX)
        .into_iter()
        .filter(|p| {
            let mut hit = false;
            for tok in p.index.keys_named("active", None).collect() {
                if let Some(v_tok) = p.index.value_for_key(tok) {
                    let span = p.index.byte_span_in(v_tok, &p.bytes);
                    let v = &p.bytes[span.start as usize..span.end as usize];
                    if v == b"true" {
                        hit = true;
                        break;
                    }
                }
            }
            hit
        })
        .count();
    assert_eq!(n_active, 2);
}

#[test]
fn build_options_propagates() {
    let mut b = LineBuilder::with_options(NDJSON, BuildOptions::minimal());
    let p = b.next_line().unwrap_or(None).unwrap();
    // minimal disables key bitmaps
    assert!(!p.index.has_keys());
}

#[test]
fn a_last_line_without_its_end() {
    let found = lines(LineBuilder::new(b"{\"a\":1}\r\n{\"b\":2}"), usize::MAX);
    assert_eq!(found.len(), 2);
    assert_eq!(found[0].bytes, b"{\"a\":1}");
    assert_eq!(found[1].bytes, b"{\"b\":2}");
}

#[test]
fn a_refused_line_is_reported_in_its_place() {
    let mut b = LineBuilder::new(b"{\"a\":1}\n{oops\n{\"b\":2}\n");
    assert!(matches!(b.next_line(), Ok(Some(_))));
    let e = b.next_line().err().unwrap();
    assert!(e.message().starts_with("parse error: "));
    assert!(matches!(b.next_line(), Ok(Some(_))));
    assert!(matches!(b.next_line(), Ok(None)));
    assert!(matches!(b.next_line(), Ok(None)));
}

#[test]
fn a_walk_ends_behind_the_first_error() {
    let mut walk = LineBuilder::new(b"{\"a\":1}\n{oops\n{\"b\":2}\n").into_iter();
    assert!(matches!(walk.next(), Some(Ok(_))));
    assert!(matches!(walk.next(), Some(Err(_))));
    assert!(walk.next().is_none());
}

#[test]
fn lines_fed_one_by_one() {
    let mut feed = LineFeed::with_options(BuildOptions::default());
    assert!(!feed.is_done());
    match feed.feed(b"{\"a\":1}\n".to_vec()) {
        Ok(LineStep::Line(p)) => assert!(p.index.has_key("a")),
        _ => panic!("a line was expected"),
    }
    assert!(matches!(feed.feed(b"\n".to_vec()), Ok(LineStep::Skip)));
    assert!(matches!(feed.feed(b"\r\n".to_vec()), Ok(LineStep::Skip)));
    assert!(feed.feed(b"{".to_vec()).is_err());
    assert!(!feed.is_done());
    // nothing read is the end
    assert!(matches!(feed.feed(Vec::new()), Ok(LineStep::End)));
    assert!(feed.is_done());
    assert!(matches!(feed.feed(b"{}".to_vec()), Ok(LineStep::End)));
    let mut stopped = LineFeed::with_options(BuildOptions::default());
    stopped.stop();
    assert!(stopped.is_done());
}
