# tf_idf

A small full-text search tool: it indexes the text files of a folder by
tf-idf and finds the file that best matches a keyword. Text is cut into
terms by a dictionary-driven segmenter that handles Chinese and other
scripts without spaces.

The library in `src/` is verified with Verus:

- `lexer` — character classes and the segmenter. `tokenize` picks, by
  dynamic programming, a segmentation of the highest total dictionary
  weight; the laws in this module show that no allowed segmentation weighs
  more, that the terms put together give back the text, and that the split
  points are the ordered byte offsets where the second and later terms start.
- `trie` — a sixteen-way trie over the nibbles of byte strings, used as the
  dictionary and as a map from strings to indices. Every node leads to a
  stored key, so a path finds a node exactly when it starts some key.
- `spacing` — how a space added at either end of a text moves its split
  points.
- `map` — a small map interface with three implementations: a fixed table
  of slots, a sorted vector searched by bisection, and `std`'s `HashMap`.
- `small_str` — strings of at most `N` bytes.
- `data` — the integer parts of indexing and search: how often each term of
  a document occurs, the occurrences of each term across documents, and the
  substrings of a keyword that are looked up.

`app/` holds the command-line program: file and directory I/O, parallel
reading with rayon, the on-disk index (rkyv, memory-mapped with memmap2),
and the floating-point weights (term frequencies, idf, search scores).
The dictionary is read at start-up from `dict.txt`, or from the file that
`TF_IDF_DICT` names: one `word weight` pair per line. The program stops if
it cannot be read.
