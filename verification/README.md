# yami

A minimal YAML parser whose abstract syntax tree borrows every scalar from the
input text (`Yaml<'a>` holds `&'a str` slices), with every parsing function
proved against a model of the grammar.

## Layout

- `src/text.rs`: characters of a `str`, Unicode whitespace, trimming, UTF-8 widths.
- `src/scanner.rs`: the scanning rules (`scan`) and the `Scanner` that applies them:
  lines, indentation, comments, tabs refused in indentation.
- `src/parser/flow.rs`: flow collections (`[...]`, `{...}`) as spec functions over
  the characters of the flow text, and the `FlowCursor` parsers proved against them.
- `src/parser/mod.rs`, `sequence.rs`, `mapping.rs`: the block grammar
  (`node_at`, `sequence_items`, `mapping_entries`, ...) over the scanned lines,
  the block parsers proved against it, and `parse`, proved to give
  `parse_document` of its input.
- `src/ast.rs`: the tree, its model (`Node`), navigation (`get`, indexing),
  conversions (`to_bool`, `to_i64`) and the display form.
- `src/error.rs`: error kinds, positions and their messages.
- `src/laws.rs`: properties of the parser as a whole: determinism, distinct
  keys in every mapping, tabs refused, what each scanned line is, exact
  source positions for every error, and every scalar being a piece of the input.
- `app/lib.rs`: the error types with `thiserror` derives, and `to_f64`
  (floating point stays outside the verified library).
