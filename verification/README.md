# chewing

The core of an intelligent phonetic (Zhuyin/Bopomofo) input method, written
in Verus: every function under `src/` carries a contract that Verus proves.

- `src/zhuyin.rs`, `src/model.rs`: packed syllables and word identifiers.
- `src/bare.rs`: the binary record encoding of the data files.
- `src/dictionary/`: the string table with its perfect hash, the DER trie
  dictionary, phrases, and the merge of the dictionaries' answers.
- `src/lm/`: the static dictionary trie and the bigram language model in
  compressed sparse row form.
- `src/user/`: the user's phrases, the word frequency list and the file
  format of the learned history.
- `src/conversion/`: the composition buffer, the spans of the word lattice,
  reading a decoded path back, laying out the output intervals, and the
  intervals of the simple engine.
- `src/editor.rs`: editor options, phrase selection, learning phrases and
  committing the front of a long buffer.
- `app/`: file and environment handling, and the parts whose numbers are
  floating point (the learned history's weights, the word lattice's
  candidates and the k-best search).
