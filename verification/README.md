# generate_receipt

Thermal receipt generation from JSON data and a small template ("skin")
language, rendered to raw ESC/POS bytes. The library under `src/` is verified
with Verus; `app/` is the command-line front end (argument parsing, file and
network I/O, JSON loading, price aggregates in floating point, image loading).

- `src/skin/` — skin source to lines (`lexer`) and to a tree of nodes (`parser`).
- `src/document/` — a JSON value model (`json`) and the evaluation of a skin
  against data into a flat document of styled elements (`evaluate`).
- `src/render/` — ESC/POS stream rendering (`escpos`) and QR codes drawn as
  raster images (`qr`, calling the `qrcode` crate).
- `src/text.rs` — character-level string operations with their specifications.

Every public function states its result exactly over spec functions; the
`lemma_*` proof functions state properties of the library as a whole.
