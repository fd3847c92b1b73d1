# vdb — Visual Debug Bridge

Cross-platform semantic UI comparison and validation: element trees captured
on Android, iOS and in Figma are matched, compared, aggregated across
platforms, and checked against screenshots and accessibility dumps.

## Layout

- `src/` — the library, verified with Verus. Every public function states its
  result exactly over spec functions; the laws of the library are public
  proof functions (`law_*`).
  - `schema` — the capture model (decimals as whole millionths).
  - `matching`, `matching_laws` — the three-pass element matching.
  - `diff`, `diff_laws`, `tolerance` — diagnostics of a comparison and the
    manifest tolerances.
  - `element_matrix`, `names` — the cross-platform drift grid.
  - `regions`, `validate_content`, `validate_text`, `tolerances_infer`,
    `matrix` — region discovery, accessibility-dump and OCR checks,
    tolerance inference, the test-run matrix.
  - `render`, `svg`, `overlay` — what a reconstruction draws, path
    commands, box placement.
  - `pixels`, `validate_v2` — pictures as canvases: fills, strokes, colour
    tests, difference pictures, bounds and fingerprint validation.
  - `text`, `numfmt` — character sequences and number text.
- `tests/` — tests of the library on concrete values.
- `app/` — the `vdb` command line: argument parsing, files and pictures,
  fonts, floating-point colour science and rasterising.
