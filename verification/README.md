# mydoo_viewer

The verified core of a small document viewer for Markdown, HTML, text,
DOCX, HWP and HWPX files.

- `src/hwp.rs` reads the text of HWP 5.0 files: the `FileHeader`
  compression flag, the record stream of each `BodyText/Section` stream and
  the UTF-16LE text of its `PARA_TEXT` records.
- `src/hwpx.rs` reads the text of HWPX (OWPML) sections from the events of
  an XML reader: the text inside `t` elements, a line break per `p`.
- `src/viewer.rs` holds the viewer's rules: file kinds by extension,
  decoding of plain-text files, the sidebar listing and its order, the
  HTML shown for converted documents, and the start-up path.
- `src/order.rs` and `src/text.rs` are the ordering and character helpers
  they share; `src/std_text.rs` states the contracts of the standard-library
  functions that verified code calls directly.
- `app/` is the desktop shell (Tauri commands, file system, archives,
  dialogs, the converter process).

The tests in `tests/` run the library on concrete documents.
