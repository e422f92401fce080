# glyph_ocr

Recognition of glyph bitmaps by their ray profiles, written in Verus.

A glyph is a bitmap with eight ray profiles: for every row the distance from the left
edge, the right edge and the centre column (both ways) to the nearest set pixel, and for
every column the same from the top, the bottom and the centre row. Reference glyphs are
the averages of labelled samples, grouped by size. A glyph is recognised as the stored
glyph of its size whose profiles differ least from its own; a run of touching glyphs is
read by trying, from the left, every stored glyph that may start it.

## Layout

- `src/glyph_rays.rs`: the profiles of a bitmap, decoding glyph files, cropping a part of
  a glyph, averaging samples, the overlay picture.
- `src/glyph.rs`: a reference glyph.
- `src/glyph_dataset.rs`: the reference glyphs by size, the texts that may appear in runs
  of touching glyphs, adding the samples of one glyph, finding the glyphs that may start
  a run.
- `src/glyph_recognizer.rs`: the integer parts of the difference of two glyphs, the
  recognition paths of a run as trees (the `trees` crate), choosing the cheapest path,
  recognising a glyph, the greedy reading of a run.
- `src/sample_names.rs`: the names of sample directories and run files.
- `src/laws.rs`: properties that relate several of the above.
- `app/`: the program around the library: reading the sample tree from disk, the
  floating-point difference score, printing, and the recognition of every sample in
  parallel (`rayon`).

Every function under `src/` is verified against its contract; the difference score that
`app/` computes from the library's integer parts is handed to the library as a function,
which the contracts speak of as a deterministic scorer.
