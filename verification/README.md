# exam_paper_detector

Finds the question regions on a scanned exam page: binarises the page, groups
ink into text blocks, splits the page into columns, locates question numbers
(from OCR text matched against configurable patterns, and from the geometry
of the left margin), and cuts the page into one region per question, with a
paragraph fallback when no number is found.

The library in `src/` is written in Verus: every function carries a contract
and is proved against it. Pixels and coordinates are integers; confidences,
ratios and factors are integers in millionths.

Limits the library works within, so that every computation is proved free of
overflow:

- Rectangles lie in the square `[-2^30, 2^30]²` (`geometry::COORD_LIMIT`) with
  non-negative sizes.
- Images are at most `2^20` pixels on each side (`bitmap::MAX_DIM`).
- Centres are rounded down to whole pixels, distances are floored square
  roots, and the intersection over union is floored in millionths.

`app/` refuses larger images with an error and keeps layout regions inside
these limits.

- `bitmap`, `preprocessing`: grey images, Otsu / local-mean / fixed binarisation,
  integral images, projection variance.
- `components`, `union_find`, `block_detection`: connected components, noise
  filtering, line grouping, merging into blocks, column detection.
- `pattern_match`, `question_locator`, `line_analysis`, `anchor_inference`,
  `anchor_fusion`: question-number patterns (through the `regex` crate),
  OCR anchors, geometric anchors, fusion and sequence validation.
- `segmentation`, `detector`: question regions, confidences, the page result.
- `layout_detector`, `ocr`, `projection`: layout-region classes and block
  classification, the built-in OCR engine, projections of text maps.
- `laws`: properties that span several functions.

`app/` holds what the library cannot: image files, the ONNX layout model,
floating-point image operations, JSON, and the process-wide detector behind
the host API.
