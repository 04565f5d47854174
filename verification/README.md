# pdf-wm-remover

Removes text watermarks from PDF documents at the level of content streams: the text blocks
(`BT` ... `ET`) that contain one of the given keywords are taken out of the pages and of the forms
that they draw. Body text and graphics are not touched, and the encryption of the document is
dropped. An analysis lists the texts that repeat across pages, as candidates for watermarks.

The library is written in Verus: what its functions return and change is stated in contracts and
proved.

- `src/` is the library. PDF objects are those of the `lopdf` crate; `src/pdf.rs` and
  `src/value.rs` say what is believed of that crate, `src/text.rs` what is believed of the standard
  library. All else is proved. The `*_laws.rs` files, `src/frame.rs` and `src/clean.rs` hold what
  is proved of several functions together: which text is gone after a removal, and what stays.
- `tests/` runs the library with the real crates.
- `app/` is the program around it: a command line, and a window when it is started under the name
  `pdf-wm-remover-gui`.

```
pdf-wm-remover analyze input.pdf
pdf-wm-remover remove input.pdf -o output.pdf -k "C2 - Confidential" -k "exclusive use of"
```
