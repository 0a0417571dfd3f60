# span_merger

Byte-pair merging of a text (by characters) or of a run of bytes (by bytes) into morphemes:
the input is cut into spans, and round after round the most frequent pair of adjacent
spans is merged into one. Morphemes listed as "single" (a separator, a space...) are never
merged with a neighbour once the pair table has been rebuilt after listing them.

Layout:

- `src/` — the verified library (Verus):
  - `byte_str.rs`: `ByteStr`, a borrowed run of bytes, and how it is shown;
  - `span.rs`: `Span`, `InputKind`, and the facts about a row of spans that tiles the input;
  - `table.rs`: the table of candidate pairs (`MorphenePairs`, `MorphenePairEntry`);
  - `merge.rs`: what a merge does to a row of spans, and the pair-table invariants;
  - `span_merger.rs`: `SpanMerger` (cutting, pairing, choosing and merging);
  - `counting.rs`: counting the morphemes;
  - `char_count.rs`: counting the characters of a text, most frequent first;
  - `report.rs`: the written report of a tokenization;
  - `colored.rs`: showing the morphemes with terminal colours (`hexga_ansi_color`);
  - `sub_slice.rs`: every proper part of a slice or of a string;
  - `language_analysis.rs`: training data types.
- `tests/` — tests run against the compiled library.
- `app/` — the command-line program: reading a corpus, printing and saving the results, and
  the types that hold floating-point coefficients.
