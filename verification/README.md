# fuzzies

Fuzzy search over a dictionary of words stored as a finite state transducer (`fst`), with typos
measured by Levenshtein automata (`levenshtein_automata`), verified with Verus.

- `src/` is the verified library:
  - `search.rs`: `SearchBuilder` and `execute`, whose contract says exactly which keys come back
    (the `limit` best matches by distance, then by key, in that order; the query itself first
    when the dictionary holds it), with laws about the order, the count, the limit, the
    matches and their Levenshtein distances;
  - `topk.rs`: the selection of the best `limit` candidates, its specification (`is_top_k`,
    `top_k`) and laws (uniqueness, existence, count, prefix);
  - `dictionary.rs`: `Dictionary` (a memory-mapped transducer, read only where a builder wrote
    it), `DictionaryBuilder` (building from the lines of a word list) and the laws of building
    (a line is refused exactly at an inversion);
  - `sort.rs`: a verified merge sort of word lists by the byte order of their lines without
    surrounding white space, and of the whole lines among equal ones, which makes them ready for
    building;
  - `edit.rs` and `text.rs`: the Levenshtein distance, and white space and trimming;
  - `order.rs`: the byte order of keys and of scored matches;
  - `backend.rs`: the trusted contracts of the calls into `fst`, `levenshtein_automata`,
    `memmap2` and std.
- `app/` holds the file side (opening, sorting and building dictionary files), parallel batch
  searches with `rayon`, the `fst::Automaton` adapter for a `DFA`, and the command that compiles
  `dict.txt` into `dict.fst`.
- `tests/` runs the library on concrete dictionaries.
