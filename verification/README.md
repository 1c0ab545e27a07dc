# ptero

Text steganography: bits are hidden in the whitespace and the line layout of a cover
text, and read back from the stego text. The library is written in Verus; its
functions carry contracts that Verus proves.

## Layout

- `src/` — the verified library.
  - `binary`, `byte_stream`, `chars`, `text`, `words`: bits, bytes, characters and
    words of texts.
  - `context`, `encoder`, `decoder`, `method`: the line-by-line methods (Line
    Extension, Random Whitespace, Trailing Whitespace, Trailing Unicode) and the
    complex methods that chain them (Extended Line, ELUV). `method::complex::roundtrip`
    holds the law that decoding gives back what encoding hid.
  - `ptero_common`, `ptero_text`: the pivot-based Extended Line method with its
    observers of progress. `ptero_text::extended_line_method::roundtrip` holds the law
    that revealing gives back what concealing hid.
  - `observer`: callbacks registered under names.
  - `cli`: what the command-line subcommands compute (capacity, encoding, decoding).
- `tests/` — tests of the library.
- `app/` — the command-line program: argument handling, files, progress bars and
  logging around the library.

## Trusted code

Calls into `rand`, `unicode-segmentation` and a few parts of std stand behind
`#[verifier::external_body]` wrappers and declared types, each with a doc comment
saying what its contract claims. Grapheme segmentation is named
(`extended_graphemes`) rather than restated.
