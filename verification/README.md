# lib: a verified tokenizer and parser for a small subset of C

The library turns C source text into tokens and tokens into syntax trees of
function definitions. Every function is verified with Verus against a
mathematical model of what it computes.

Layout of `src/`:

- `text.rs`: chars of the source text, their UTF-8 widths and byte offsets,
  and the two character classes the tokenizer asks about: Unicode
  `White_Space`, written out and verified, and `Alphabetic`, asked of
  `char::is_alphabetic`.
- `token.rs`: token kinds, the tokenizer (`tokenize`, `try_tokenize`), its
  model `spec_tokenize`, and lemmas about the tokens it makes.
- `grammar.rs`: the grammar as spec functions on token kinds
  (`spec_primary` ... `spec_parse`), with lemmas on how far each rule reads
  and on parsing joined token sequences.
- `parse.rs`: syntax tree types and the recursive-descent parser (`parse`,
  `try_parse`), each parsing function proved equal to its grammar rule.

`tokenize` and `parse` require input they accept; `try_tokenize` and
`try_parse` take any input and return `None` exactly where it is refused.
