# sghtmltopdf core

The verified core of an HTML-to-PDF renderer, written in Verus.

`src/` is the library; every function in it carries a contract that Verus
proves:

- `html`, `style`: the document tree and the computed-style values that the
  rest reads.
- `layout::box_tree`: the layout box tree of a document (anonymous block
  boxes, inline spans, tables, `display: none`, images); `layout::table`
  places table cells on the column grid (`rowspan`/`colspan`);
  `layout::inline` turns spans into styled characters, words and forced
  breaks; `layout::white_space`, `layout::block`, `layout::geometry` hold the
  white-space classes, fragmentation hints and fragment positions.
- `pdf`: object numbering, the streamed writer's offsets and its
  cross-reference table and trailer, finding the objects of a converted SVG,
  SVG sniffing, stream compression, dates and document metadata.
- `sink`: where the bytes go (memory, standard output, parts of a multipart
  upload).
- `img`, `text`: image attributes and lookups, character and number helpers.

`app/` holds what cannot be verified: file output, the rendering thread,
SVG conversion with `svg2pdf`, the serialisation of streamed objects with
`pdf_writer`, and the floating-point geometry (page sizes, box rectangles,
float placement, output scaling).

The renderer itself is not part of this crate, neither in `src/` nor in
`app/`: laying out boxes (blocks, inline lines, tables, floats, margins),
paginating them, drawing them into page content, resolving collapsed
table borders, the CSS cascade, and selecting, subsetting and embedding
fonts. All of it computes in floating point around the layout and font
libraries, which this crate does not depend on. So there is no path here
from an HTML document to a PDF file: what the crate offers is the
verified data model and the PDF plumbing around such a renderer, whose
integer parts (the box tree, the table grid, the pieces of a box split
across pages, the splitting of text into words) stand in `src/`.

In particular, `app/streaming.rs` writes pages whose font resources name
each font's `Type0` object by the number the writer reserved for it, but
writes no font objects: whoever drives the writer must write each font's
six objects under those numbers before finishing the file, or the PDF
refers to objects it does not contain.

`tests/` runs the library on concrete documents and bytes.
