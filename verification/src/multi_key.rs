//! Raw scans for several keys at once, for bytes that have no index yet.

use aho_corasick::AhoCorasick;
use vstd::prelude::*;
use vstd::utf8::encode_utf8;

verus! {

/// `aho_corasick::AhoCorasick`, an automaton that searches for several patterns at once.
#[verifier::external_type_specification]
#[verifier::external_body]
pub struct ExAhoCorasick(aho_corasick::AhoCorasick);

/// The patterns that an automaton holds, in the order in which it numbers them. `None` for
/// one that was not built with the builder's defaults: standard match semantics, unanchored,
/// case-sensitive.
pub uninterp spec fn finder_patterns(f: AhoCorasick) -> Option<Seq<Seq<char>>>;

/// `AhoCorasickBuilder::build` accepts the patterns; it refuses what exceeds the numbering of
/// its states and patterns.
pub uninterp spec fn finder_builds(patterns: Seq<Seq<char>>) -> bool;

/// The texts of a row of strings.
pub open spec fn texts(s: Seq<String>) -> Seq<Seq<char>> {
    s.map_values(|t: String| t@)
}

/// The pattern of a key: the quoted name and a colon.
pub open spec fn key_pattern(name: Seq<char>) -> Seq<char> {
    "\""@ + name + "\":"@
}

/// The patterns of a row of keys.
pub open spec fn key_patterns(keys: Seq<&str>) -> Seq<Seq<char>> {
    keys.map_values(|k: &str| key_pattern(k@))
}

/// Pattern `p` stands in the bytes at `at`.
pub open spec fn stands_at(patterns: Seq<Seq<char>>, bytes: Seq<u8>, p: int, at: int) -> bool {
    let pattern = encode_utf8(patterns[p]);
    &&& 0 <= p < patterns.len()
    &&& 0 <= at
    &&& at + pattern.len() <= bytes.len()
    &&& bytes.subrange(at, at + pattern.len()) == pattern
}

/// One past the match with pattern `p` at `at`.
pub open spec fn match_end(patterns: Seq<Seq<char>>, p: int, at: int) -> int {
    at + encode_utf8(patterns[p]).len()
}

/// Where the search for match `k` starts: behind the match in front.
pub open spec fn search_start(
    patterns: Seq<Seq<char>>,
    matches: Seq<(usize, usize)>,
    k: int,
) -> int {
    if k <= 0 {
        0
    } else {
        match_end(patterns, matches[k - 1].0 as int, matches[k - 1].1 as int)
    }
}

/// A search that starts at `start` reports the match of pattern `p` at `at` and no other: none
/// that begins at `start` or behind it ends sooner, of those with the same end this one begins
/// first, and of equal patterns it is the one that was given first.
pub open spec fn seen_first(
    patterns: Seq<Seq<char>>,
    bytes: Seq<u8>,
    start: int,
    p: int,
    at: int,
) -> bool {
    &&& stands_at(patterns, bytes, p, at)
    &&& start <= at
    &&& forall|q: int, b: int| #[trigger]
        stands_at(patterns, bytes, q, b) && start <= b ==> {
            ||| match_end(patterns, p, at) < match_end(patterns, q, b)
            ||| match_end(patterns, p, at) == match_end(patterns, q, b) && at < b
            ||| match_end(patterns, p, at) == match_end(patterns, q, b) && at == b && p <= q
        }
}

/// `matches` lists what a search sees: each match is the one that is seen first behind the
/// match in front. Behind the last one there is none.
pub open spec fn matches_as_seen(
    patterns: Seq<Seq<char>>,
    bytes: Seq<u8>,
    matches: Seq<(usize, usize)>,
) -> bool {
    &&& forall|k: int|
        0 <= k < matches.len() ==> {
            let (p, at) = #[trigger] matches[k];
            seen_first(
                patterns,
                bytes,
                search_start(patterns, matches, k),
                p as int,
                at as int,
            )
        }
    &&& forall|q: int, b: int| #[trigger]
        stands_at(patterns, bytes, q, b) ==> b < search_start(
            patterns,
            matches,
            matches.len() as int,
        )
}

/// `AhoCorasickBuilder::build`, with the builder's defaults and case sensitivity spelled out,
/// builds an automaton over the patterns or refuses them.
#[verifier::external_body]
fn build_finder(patterns: &Vec<String>) -> (r: Option<AhoCorasick>)
    ensures
        match r {
            Some(f) => finder_builds(texts(patterns@)) && finder_patterns(f) == Some(
                texts(patterns@),
            ),
            None => !finder_builds(texts(patterns@)),
        },
{
    aho_corasick::AhoCorasickBuilder::new().ascii_case_insensitive(false).build(patterns).ok()
}

/// `AhoCorasick::find_iter` reports non-overlapping matches as they are seen, each by the
/// number of its pattern and its start. The automaton reports the first match of the state it
/// is in: a state lists its own patterns in the order in which they were given, and behind
/// them those of its failure links, which are shorter. So of several patterns that begin behind
/// the match in front and end at the same byte the longest is reported, and of equal ones the
/// first.
#[verifier::external_body]
fn find_all(finder: &AhoCorasick, bytes: &[u8]) -> (r: Vec<(usize, usize)>)
    requires
        finder_patterns(*finder) is Some,
        forall|p: int|
            0 <= p < (finder_patterns(*finder)->0).len() ==> (
            #[trigger] (finder_patterns(*finder)->0)[p]).len() > 0,
    ensures
        matches_as_seen(finder_patterns(*finder)->0, bytes@, r@),
{
    finder.find_iter(bytes).map(|m| (m.pattern().as_usize(), m.start())).collect()
}

/// The patterns of a row of keys.
fn build_patterns(keys: &[&str]) -> (r: Vec<String>)
    ensures
        texts(r@) == key_patterns(keys@),
{
    let mut out: Vec<String> = Vec::with_capacity(keys.len());
    let mut i: usize = 0;
    while i < keys.len()
        invariant
            i <= keys@.len(),
            texts(out@) == key_patterns(keys@).take(i as int),
        decreases keys@.len() - i,
    {
        let ghost front = out@;
        let mut pattern: String = "\"".to_owned();
        pattern.append(keys[i]);
        pattern.append("\":");
        out.push(pattern);
        i = i + 1;
        assert(texts(out@) =~= texts(front).push(key_pattern(keys@[i - 1]@)));
        assert(texts(out@) =~= key_patterns(keys@).take(i as int));
    }
    assert(key_patterns(keys@).take(i as int) =~= key_patterns(keys@));
    out
}

/// An automaton that finds each key as its quoted name with a colon behind it.
pub fn multi_key_finder(keys: &[&str]) -> (r: AhoCorasick)
    requires
        finder_builds(key_patterns(keys@)),
    ensures
        finder_patterns(r) == Some(key_patterns(keys@)),
{
    let patterns = build_patterns(keys);
    match build_finder(&patterns) {
        Some(f) => f,
        None => {
            assert(false);
            vstd::pervasive::unreached()
        },
    }
}

/// The automaton of [`multi_key_finder`]; `None` where the keys are too many or too long for
/// one.
pub fn try_multi_key_finder(keys: &[&str]) -> (r: Option<AhoCorasick>)
    ensures
        match r {
            Some(f) => finder_builds(key_patterns(keys@)) && finder_patterns(f) == Some(
                key_patterns(keys@),
            ),
            None => !finder_builds(key_patterns(keys@)),
        },
{
    let patterns = build_patterns(keys);
    match build_finder(&patterns) {
        Some(_) => Some(multi_key_finder(keys)),
        None => None,
    }
}

/// Every match of a key pattern in the bytes: the number of the key and where the match
/// begins.
pub fn multi_key_scan(finder: &AhoCorasick, bytes: &[u8]) -> (r: Vec<(usize, usize)>)
    requires
        exists|keys: Seq<&str>| finder_patterns(*finder) == Some(#[trigger] key_patterns(keys)),
    ensures
        matches_as_seen(finder_patterns(*finder)->0, bytes@, r@),
{
    proof {
        let keys = choose|keys: Seq<&str>|
            finder_patterns(*finder) == Some(#[trigger] key_patterns(keys));
        reveal_strlit("\"");
        assert forall|p: int| 0 <= p < (finder_patterns(*finder)->0).len() implies (
        #[trigger] (finder_patterns(*finder)->0)[p]).len() > 0 by {
            assert(key_patterns(keys)[p] == key_pattern(keys[p]@));
        }
    }
    find_all(finder, bytes)
}

} // verus!
