# pdf2fountain

Converts screenplay PDFs into [Fountain](https://fountain.io) markup.

The conversion logic is a Verus library whose functions carry contracts proved by Verus:

- `src/text.rs` — character and string primitives over `Seq<char>`.
- `src/geom.rs` — positioned text runs (in hundredths of a point), merging runs into lines,
  CMap parsing and the decoding of PDF text strings in a font (`FontInfo`: its ToUnicode
  bytes and its encoding name).
- `src/calibrate.rs` — the column margins of a script, learned from a histogram of line
  positions; title-page detection.
- `src/fsm.rs` — the screenplay reader: line classification and the page-by-page state machine.
- `src/fountain.rs` — rendering of the screenplay elements as Fountain.
- `src/convert.rs` — the whole conversion from pages to a document, and page ranges.

`app/` holds the command-line program and the PDF reading with `lopdf`: it loads the document,
reads each font's ToUnicode stream and encoding and each text operator's operands into the
library's types, and tracks the page geometry (transformation matrices, page boxes), which is
floating-point and stays outside the verified library.
