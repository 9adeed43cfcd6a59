# stele

The verified core of the stele rich-text layout pipeline, written in Verus.

The library (`src/`) holds the parts of layout that decide rather than measure:

- `line_break`, `line_breaker`: Unicode break opportunities keyed by byte boundary, and
  greedy line breaking over prepared inline items. The caller answers whether a pending
  line fits; the breaker is proved to keep every content item in order, to end a line at
  every mandatory break, and to break only at mandatory breaks when everything fits.
- `staging`, `text`: staging of span text and inline atoms with their byte boundaries,
  caret stops of text inputs, and single-line normalization of input text.
- `tree`: validation of the semantic block tree (root kind, duplicate anchor keys,
  overlay targets), node ids in document order, and the index of flow anchors.
- `runs`: grouping of a line's items into text and atom runs.
- `zorder`, `bridge`: stacking of laid-out subtrees (lowest and highest drawn z-order,
  raising overlays above their anchors) and the order in which blocks are drawn.
- `paint`, `solve`, `font`, `document`: background and decoration rectangles, path
  verb checks, child width modes, font fallback reporting, and block documents.

`app/` is a terminal front end: it reads text from standard input and wraps it to a
column width through the library. It also holds the floating-point document model and
style validation that the library does not take.

`tests/` exercises the library from outside.
