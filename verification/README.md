# kenlmrs

Pieces of an n-gram language model library (ARPA reading, vocabularies, bit-packed tries,
hashing, the counting and sorting streams of model estimation, the n-gram filter), written in
Verus: each function states its behaviour in `requires` / `ensures` and Verus proves it.

## Layout

- `src/`: the verified library.
  - `hash.rs`, `bit_packing.rs`: MurmurHash64A and bit-level reads and writes, with the law
    that a field reads back what was written.
  - `text.rs`, `utils/pieces/`: text helpers, string pieces, tokenizers, and `FilePiece`, a
    reader over the bytes of a file (lines, delimited tokens, numbers).
  - `arpa_reader.rs`: the frame of ARPA files (`\data\` counts, section headers, `\end\`)
    and the separators of n-gram lines.
  - `vocabulary.rs`: the probing (hash table) and sorted vocabularies, with laws on looking
    words up after adding them.
  - `trie.rs`, `trie_format.rs`, `bhiksha.rs`, `ngram/`, `quantize.rs`: bit-packed trie
    layers, the binary format of a trie's tables (with the law that it reads back what was
    written), pointer compression, binary header fields.
  - `trie_build.rs`: laying a trie out from the n-grams of an ARPA file: each order sorted
    with its words read last word first, the unigram records and the pointers from each
    n-gram to its successors in the next order.
  - `search.rs`, `model.rs`: the hashed search of probing models and the scoring of words in
    states over it; weights are held as the bit patterns of their IEEE singles, and the
    backoffs to add are handed back rather than summed.
  - `stream/`: blocks and chains of records, in-memory sorting, and the sorted runs and
    merges of an external sort.
  - `builder/`: n-gram counting of a corpus and the integer parts of the estimation pipeline
    (continuation counts, count marks).
  - `filter.rs`: the n-gram filter's decisions.
  - `sorting.rs`: the byte order of records and the trusted calls to std's sort.
- `tests/`: tests of the library on concrete values.
- `app/`: what stays outside the verified library: opening files (memory maps, gzip),
  floating-point values and their sums, standard error, temporary files and threads, and
  loading an ARPA file into the probing model.
