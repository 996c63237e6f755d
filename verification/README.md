# slow_align

Word alignment of parallel sentences.

- `src/` is the library, verified with Verus: tokenisation of sentence pairs into
  vocabulary ids (`reader`, `vocab`, `text`), hard alignments as sets of links and
  their combination (`alignment`, `optimizer`), the counts behind the alignment
  error rate (`evaluator`), gold-file and parameter parsing (`reader`, `cli`),
  Levenshtein distance (`levenshtein`) and matrix helpers (`utils`).
- `app/` is the command-line program around it: file reading and writing, the
  floating-point soft alignments (IBM Model 1, diagonal, Levenshtein similarity,
  dictionaries), threshold extraction, grid search and the option parser.
- `tests/` exercises the library.
