# jetro_experimental

A structural index over JSON bytes, for queries such as `$..find(key == literal)` that need no
value tree. The library is verified with Verus: every function states what it returns, and the
proofs stand beside the code.

## What it builds

1. **Token columns**: byte offset, kind and depth of every bracket, colon, comma, opening quote
   and literal. A bit-parallel scanner works on 64 bytes at a time; a byte-wise one yields the
   same columns.
2. **Tree columns**: the container and the close of every token.
3. **Key layer**: the distinct keys with a Roaring bitmap of the tokens that spell each, and one
   bitmap per depth.

```rust
use jetro_experimental::{count_key, find_eq, from_bytes};

let bytes = br#"{"a":{"x":"test"},"b":{"x":"nope"},"c":{"x":"test"}}"#;
let idx = from_bytes(bytes).unwrap();
for obj in find_eq(&idx, bytes, "x", b"test") {
    let span = idx.byte_span(obj);
    println!("{}", std::str::from_utf8(span.slice(bytes)).unwrap());
}
assert_eq!(count_key(&idx, "x"), 3);
```

## Layout

| module      | holds                                                              |
|-------------|--------------------------------------------------------------------|
| `lex`       | which bytes begin tokens, as a specification                       |
| `stage1`    | the byte-wise scanner                                              |
| `chunked`   | the bit-parallel scanner                                           |
| `tree`      | what a row of brackets nests, and the builder of the tree columns  |
| `index`     | literals, tree columns, tape numbers, lookups by byte position     |
| `keys`      | roles, key names, key bitmaps, values of keys                      |
| `text`      | string bodies, ends of values, comparison with literals            |
| `api`       | the index that callers hold, spans, searches                       |
| `hits`      | sets of key tokens                                                 |
| `op`        | plans of operators over token sets, and their rewriting            |
| `walk`      | the walk over a parser's tape, as a specification                  |
| `from_tape` | an index along the tape of simd-json                               |
| `streaming` | one index per line                                                 |
| `ndjson`    | lines selected by the value of a key                               |
| `numbers`   | integers, and equality of numbers by value                         |
| `multi_key` | raw scans for several keys                                         |
| `roaring`   | what is relied on of `croaring`                                    |
| `laws`      | what holds of an index, or of a scan, as a whole                   |

Documents of up to `i32::MAX` bytes and 65535 levels can be indexed; `index::index_fits` tells.

`app/` is a command line around the library: `demo`, `bridge` and `ndjson-select`.
