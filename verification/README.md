# searchfs

A small full-text search engine whose core is verified with Verus.

- `src/` is the library. Every function in it carries a contract that Verus
  proves: tokenizing, the document table and inverted index, the varint and
  gap coding of posting lists, the segment layout (term dictionary, postings
  file, counts, document lengths) and reading it back, the skip-pointer
  cursor, query planning and matching, merging segments, the in-memory file
  store and the shell's command parsing. The proof functions named `lemma_*`
  state the library's laws (round trips of every encoding, what a read gives
  back of a write, where merged documents end up, that new segment ids are
  fresh).
- `app/` is the command-line program: argument parsing, files on disk,
  bincode records, scoring (tf-idf and BM25 are floating point), ranking and
  the interactive loop.
- `tests/` runs the library on concrete values.
