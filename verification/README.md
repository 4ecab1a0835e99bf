# peisar

A Markdown toolchain whose logic is verified with Verus: it parses
Markdown (with GFM extensions and Kramdown block attributes) into an AST in
which every node carries its source span, lets visitors edit that AST, and
renders it to HTML. YAML front matter is split off and handed to
`serde_yaml`.

## Layout

- `src/` — the verified library.
  - `text.rs` — characters, UTF-8 lengths, whitespace and string helpers.
  - `tokens/` — the AST node types, spans, Kramdown attributes.
  - `parsers/lines.rs`, `parsers/atters.rs`, `parsers/table.rs` — line
    classifiers, attribute blocks, GFM tables.
  - `parsers/inline.rs` — the inline parser, specified by `scan`.
  - `parsers/block.rs` — the block parser, one result predicate per block
    kind, combined by `block_result`.
  - `parsers/mod.rs` — `Document`, `md_to_ast` and `parsed_document`, which
    states what a parse returns at every nesting depth.
  - `parsers/visitor.rs` — the visitor traversal. Each traversal returns,
    as a ghost value, the visits it made (what each visit was handed, what
    it left and the control it answered); `walk_blocks` and its siblings
    state how those answers determine the resulting tree, and the laws
    state what keeping, removing, replacing, inserting and filtering do.
    What a user's visitor answers is its own code and is not specified.
  - `html/` — the HTML renderer, specified by `document_html`.
  - `frontmatter.rs` — front matter splitting; the YAML call is a trusted
    wrapper.
  - `processor.rs` — `PeisarAst`: a document, its front matter value and its
    visitors.
- `tests/` — tests of the library, including the examples of its laws.
- `app/` — the command-line program, file system and logging helpers, and
  the serde copies of the AST types.

## What is trusted

`serde_yaml::from_str`, the `Display` text of its errors,
`serde_json::to_string` and `char::to_lowercase` (each result is taken to
be a function of the argument alone and named; of `char::to_lowercase`
only the ASCII part is stated), and `String::push`. The rest of `src/` is verified against these contracts;
the visitor traversal is verified relative to the answers of the
`AstVisitor` it is given, whose implementations are not checked.
