# hulunote_app

The outline editor of a note-taking application. The logic of the editor is a verified
library; the browser is around it.

- `src/text.rs`, `src/strset.rs`, `src/decimal.rs`, `src/models.rs`: texts counted in
  UTF-16 and UTF-8 units, ordered sets of strings, numbers, and the rows and notes.
- `src/drafts/`: local changes of a note, the queue in which they wait to be sent, the
  index of notes with changes, snapshots, and what is stored after each change.
- `src/editor/`: editing a text, markup and links, laying a text out in rows, reading the
  caret from a tree of elements and putting it back, the tree of rows and moves in it, the
  session that ties an open row to the outline, loading a note, and the menu of titles.
- `tests/`: the library on concrete values.
- `app/`: the browser. Events, storage, the server, and everything in floating point.

Order numbers of rows are floating point. The library works on their ranks and tells by
an `OrderRule` which number to make; `app/order.rs` makes it. Widths of characters are
floating point too: the library is told whether a row overflows, and cuts it.
