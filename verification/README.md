# simdxml

A verified XML parser and XPath 1.0 evaluator over flat arrays.

XML bytes are parsed into a structural index: arrays with one entry per tag
(place, type, name, depth, parent) and the ranges of the text between tags. No
tree is built. XPath expressions are evaluated against those arrays.

Every function under `src/` is verified with Verus against a contract that says
what it returns. The modules named `laws`, `..._laws` and `equivalence` state what
holds across functions.

## Layout

| Path | What it holds |
|------|---------------|
| `src/index/` | markup scanning, the index, its lookup tables, attributes, entities, query-driven parsing |
| `src/simd/` | classification of structural characters in blocks of 64 bytes |
| `src/parallel/` | parsing in chunks and merging them |
| `src/bloom/` | filters of tag names |
| `src/xpath/` | expressions: grammar, parser, meaning, evaluation, static analysis |
| `src/batch/` | one expression, many documents |
| `src/persist/` | the `.sxi` format |
| `src/report/` | what the command-line tool prints |
| `app/` | the command-line tool `sxq`: arguments, files, threads, floating-point numbers |
| `tests/` | tests of the library |

## Numbers

XPath numbers are floating-point numbers, and the library holds none. A query
takes a function that answers arithmetic requests (`xpath::numbers::NumberOp`);
`app/arithmetic.rs` answers them with `f64`.

```rust
let index = simdxml::parse(b"<library><book><title>Rust</title></book></library>").unwrap();
let titles = index.xpath_text("//title", &arithmetic).unwrap();
assert_eq!(titles, vec!["Rust"]);
```

## What is trusted

The contracts of a few functions outside the library are believed, not proved:
`memchr::memchr`, `memchr::memmem::Finder::find_iter`, `xxhash_rust::xxh3::xxh3_64`,
`std::str::from_utf8`, `char::from_u32`, `char::is_alphanumeric`,
`char::is_alphabetic` and `String::push`. Each is declared next to its first use.
