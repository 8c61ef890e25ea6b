# Markdown preview service

An HTTP service that renders Markdown into a card-styled PNG image.

`src/` is the verified library:

- `markdown` — the Markdown parse (a trusted call into `pulldown-cmark`)
  and the document of a text;
- `ast` — the document tree and the builder that folds Markdown events into
  it, specified event by event (`step_v`) and as a whole (`document_v`);
- `text` — styled runs, their splitting into lines and byte-range slicing;
- `code` — code lines, highlighted tokens, and the token bookkeeping of
  wrapped code lines; `syntax` highlights with `syntect`'s built-in sets;
- `svg_builder` — the layout decisions that need no measuring: runs of a
  paragraph, visible content, formula break points, table cells, list
  markers, and the `<tspan>` markup of text and code lines;
- `math` — reading the inner markup and the `viewBox` of a MathJax SVG;
- `util`, `strings` — escaping for SVG and string helpers.

`app/` is the service around it: the HTTP server, font shaping and
measuring, MathJax rendering, the pixel layout of the SVG and its
rasterisation.
