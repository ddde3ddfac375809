# mfc_cli

Scanner for handwritten font templates: a printed A4 page with a grid of
character cells is photographed, straightened, and each cell is read,
judged (which of its two cells to adopt) and vectorized into glyph paths.

## Layout

- `src/` — the library, written and proved with Verus. Every integer step of
  the scan lives here with its contract: page layout arithmetic, binarization
  (global, Sauvola, CLAHE), morphology and filters, connected components and
  the cell quality filter, check-mark reading and the adoption rules, contour
  tracing (with the area and winding of the traced loops), Douglas-Peucker
  simplification and run-length rectangles, ink blobs and the grey
  histogram for corner markers (union-find) and the page's orientation,
  decoding the uploaded photo (through `image`), QR generation (through
  `qrcode`) and the outcome of QR reading, the page label it carries
  (through `serde_json`), page corrections and the raster shapes of the
  template, check-column marks included.
- `tests/` — tests run against the compiled library.
- `app/` — the command-line program: argument parsing, image files, the QR
  grid search (rqrr may stop on an assertion on some images, which no
  verified function may do), the floating-point geometry (perspective and
  lens correction, marker scoring, Bezier rounding of contours,
  millimetre-to-pixel placement) and the orchestration of a scan.
