# pdf_indexer

Table-of-contents outlines for PDF files, verified with Verus.

The library reads an outline from a specification, from the table of contents
that a PDF prints itself, or from an editing session. It maps the logical page
numbers of the outline to physical pages and writes the outline into the
document as bookmark objects.

- `src/` is the library. Every function in it is verified against its contract;
  `std_text.rs`, `lopdf_items.rs` and the wrappers in `files.rs` hold the
  contracts of outside functions, which are trusted.
- The modules whose names end in `_laws` state what holds of the library as a
  whole: that an outline which was put into a document shows the entries that
  lead to a page, that nesting keeps every line of a table of contents, that
  known pages are found, that a saved selection is loaded again.
- `tests/` runs the library on concrete values.
- `app/` is the program around it: the command line, the files, `pdftotext`
  (from poppler-utils) and the graphical editor.

## Numbers

Page numbers and counts are computed in 32 bits, and in the size of a pointer,
as an optimised build computes them: sums that do not fit wrap around. A PDF
page of 0 lies outside every document, so an entry that leads to it is skipped.

An outline cannot be put into a document whose page tree has a cycle, nor when
the object numbers run out. `try_inject_outline` tests this first.
