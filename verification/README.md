# prompto

The verified core of a codebase indexer. Source files are parsed with
tree-sitter; the symbols and imports read from the syntax tree, the index built
from them, keyword search (exact, stemmed and partial name matches, one result
per location, strongest first), file-path search, query classification, text
normalization and the on-disk cache bookkeeping are written in Verus and proved
against their contracts.

- `src/` is the library. Each public function states its result in its
  `ensures`, except `clock::unix_time_secs`, whose result is the system clock's
  reading; the laws that relate several functions are public proof functions
  (`lemma_*`).
- `app/` is a command-line program around the library: directory walks, file
  and network I/O, the full-text index (tantivy), embeddings (candle) and the
  floating-point ranking that combines the three searches.
- `tests/` runs the library on concrete inputs.
