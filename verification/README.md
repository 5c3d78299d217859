# groupnest

A Wadler-style pretty printer. Documents are trees of text, break points,
groups, nesting and annotations; a layout engine decides, group by group,
whether a group fits on the current line, and turns the document into a
stream of render events that renderers consume.

Layout:

- `src/` is the library, verified with Verus: the document model
  (`document.rs`) and its handles (`handle/`: boxed, `Arc`-shared and
  arena-allocated documents), newline recognition (`lines.rs`), the layout
  engine (`layout.rs`), render events and the plaintext renderer
  (`renderer.rs`), terminal colors (`termcolor_renderer.rs`), the
  properties proved of layouts (`properties.rs`) and what converting a
  document between handles gives (`rebuild.rs`).
- `tests/` exercises the library on concrete documents.
- `app/` holds what talks to the outside world: error types with `Display`,
  serde forms of documents and render events, and renderers that write to `std::io`
  streams and color terminals.
