# jless

The data model and algorithms of a terminal JSON viewer, verified with Verus.

- `src/jsontokenizer.rs`, `src/jsonparser.rs`: a tokenizer and a parser that
  flatten JSON text into rows (one per value, plus one per closing bracket)
  and a single-line pretty-printed copy of the text.
- `src/flatjson.rs`: navigation over the rows (visible rows, items,
  ancestors), collapsing and expanding, paths to nodes, pretty printing and
  S-expression output.
- `src/wellformed.rs`: the invariant the parser keeps, from which every
  successful parse is shown to yield a well-formed document.
- `src/jsonstringunescaper.rs`: unescaping of JSON strings.
- `src/search.rs`: turning search input into a regular expression, finding
  and cycling through matches, and splitting ranges into highlighted parts.
- `src/rendering.rs`: styled text and the compositor that lays text out in
  lines of a fixed width by grapheme clusters and display columns.
- `src/jnode.rs`: a tree of JSON values kept as indexed nodes, a focus path
  into it and the moves of the focus (up, down, left, right, inlining).
- `src/render.rs`, `src/linetext.rs`: the lines of that tree as shown, moving
  from line to line, keeping the focus on screen, and the styled pieces each
  line shows.
- `src/document.rs`: what a viewer needs of a document laid out in screen
  lines, with the parts every document shares.
- `src/document_viewer.rs`: the viewer over such a document: the actions
  (cursor moves, expanding and collapsing, scrolling, paging, jumps,
  focusing the top or bottom or a line, placing the focused element, moving
  to search matches), keeping the focus on screen within the scrolloff while
  moving the viewport as little as it can, starting searches, and drawing
  the viewport with line numbers and highlighted matches.
- `src/keymap.rs`: the key map, as a step from the input state and one
  terminal event to the next state and what the program is to do (count
  prefixes and the `z` commands included).
- `src/input.rs`: the buffer that terminal input is read into.
- `src/clip.rs`, `src/clipboard.rs`, `src/bsonparser.rs`, `src/options.rs` and a few small
  modules: copying through a shell command, BSON input, options, and the
  enums the viewer's screens use.

Every function in `src/` has a contract proved by Verus; calls into
`regex`, `unicode-segmentation`, `unicode-width`, `bson` and `serde_json`
go through small trusted wrappers whose contracts are stated in their doc
comments. `app/main.rs` is the command-line front end: it reads the input,
parses it with the library and prints it pretty-printed, or in line mode
one screen of the tree view (`app/treeview.rs`). `tests/` holds the
test suite.

Not here: the interactive program (the terminal loop, the status bar and
the line printer rest on terminal modules that are not part of this
project), and resizing the viewer to new dimensions, which keeps the focus
at the same fraction of the screen by floating-point arithmetic. Taking in
more data (`append_document_data`, `document_eof`) lays the viewer out again
on a screen of the same size, which needs none of that, and is here.
