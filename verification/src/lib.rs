//! Structural index over JSON bytes: token columns, key bitmaps and queries on them.
//!
//! A scan turns a document into columns (offset, kind and depth of every structural
//! character). Beside them stand the tree columns (container and close of every token) and a
//! key layer (for every key, a bitmap of the tokens that spell it). Queries work on these
//! alone and look at values byte by byte; no value tree is built.

pub mod api;
pub mod ascii;
pub mod chunked;
pub mod from_tape;
pub mod hits;
pub mod index;
pub mod keys;
pub mod laws;
pub mod lex;
pub mod multi_key;
pub mod ndjson;
pub mod numbers;
pub mod op;
pub mod roaring;
pub mod stage1;
pub mod streaming;
pub mod text;
pub mod tree;
pub mod walk;

pub use api::{
    count_key, find_eq, find_eq_compound, from_bytes, from_bytes_with, json_number_eq,
    json_string_eq, multi_key_finder, multi_key_scan, parse_i64, try_multi_key_finder,
    validate_utf8, BuildOptions, ByteSpan, Error, KeyHits, StructuralIndex, TokenId, TokenKind,
    Tokens,
};
pub use from_tape::parse;
pub use index::{parent_chain, token_at, StructIndex};
pub use keys::{KeyBitmaps, Role};
pub use op::{run_count, run_first, Ctx, Op, OpPlan};
pub use stage1::{run, run_scalar, Kind, Stage1};
