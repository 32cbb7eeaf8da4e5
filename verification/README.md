# leafedit

A command line PDF editor. A page is first *patched*: its objects are
renumbered into a fixed layout (catalog 2, page tree 3, page 4, page content
5, edit stream 6, resources 7, fonts 8, embedded fonts 10 to 18), its fonts
renamed so that `F1` and `F2` are the two embedded fonts, and the
transformations of its content undone. Edits (text, lines, colours, grids)
are then appended to the edit stream as one saved-and-restored block each,
and the last one can be undone. Patched documents can be merged.

## Layout

- `src/` is the verified library (Verus). Each public function states what it
  returns or changes in its `ensures`, over the models in `object.rs`
  (`ObjectView`, `DictView`) and `document.rs` (`objects_view`,
  `resolve_view`).
  - `content`, `writer`, `drawer`, `painter`, `grids`, `apply`, `undo`: the
    operations of an edit and the undo rule.
  - `object`, `document`, `map`, `traverse`: the object model, lookups, the
    renumbering map and the passes over all objects.
  - `analyze`, `modify`, `patch`, `constants`: patching; `transform`: which
    `cm` operations of a page's content multiply into the matrix it leaves in
    force (saved and restored with `q` and `Q`).
  - `merger`, `display`: merging and page sizes.
  - `bridge`: the trusted items over `lopdf` (conversions, content parsing and
    writing, page tree, pruning, renumbering) and `chrono`.
- `app/` is the command line program: argument parsing (`clap`), files,
  `ron` parsing of operations, and the floating-point parts (multiplying out and
  inverting the matrices that `transform` lists, page sizes as numbers).
- `tests/` runs the library on concrete documents.
