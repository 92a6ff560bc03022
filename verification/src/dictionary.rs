//! The dictionary: a set of keys stored as a finite state transducer, how it is built from a
//! word list, and how it is searched.
use vstd::prelude::*;
use vstd::utf8::encode_utf8;
use crate::backend::{
    LevenshteinQuery, MatchStream, accepts, builder_keys, fst_builder_insert,
    fst_builder_into_bytes, fst_builder_memory, fst_bytes_of, fst_search, fst_set_new, is_built_fst,
    mmap_anon, mmap_bytes, mmap_make_read_only, mmap_write,
    set_bytes, set_keys, stream_on_built_fst, stream_rest,
};
use crate::text::{has_printable_ends, law_trim_keeps_printable_ends, trim, trimmed};
use crate::error::DictionaryError;
use crate::order::{bytes_lt, lemma_bytes_lt_total, lemma_bytes_lt_transitive, strictly_ascending};
use crate::search::{SearchBuilder, SearchResult, search_outcome, within_distance};

verus! {

/// The key that a line of a word list stands for: the line without its surrounding white space,
/// in UTF-8.
pub open spec fn line_key(line: Seq<char>) -> Seq<u8> {
    encode_utf8(trimmed(line))
}

/// Law: a line that begins and ends with a printable ASCII character other than the space (a
/// letter, a digit or a punctuation mark) is its own key: its UTF-8 bytes as they stand.
pub proof fn law_printable_line_is_its_own_key(line: Seq<char>)
    requires
        line.len() > 0,
        has_printable_ends(line),
    ensures
        trimmed(line).len() > 0,
        line_key(line) == encode_utf8(line),
{
    law_trim_keeps_printable_ends(line);
}

/// The keys of a dictionary being built after one more line: a blank line adds nothing, a key
/// equal to the last one adds nothing, a key that precedes the last one is refused (`None`), and
/// any other key is added at the end.
pub open spec fn keys_after_line(keys: Seq<Seq<u8>>, line: Seq<char>) -> Option<Seq<Seq<u8>>> {
    let key = line_key(line);
    if trimmed(line).len() == 0 {
        Some(keys)
    } else if keys.len() > 0 && bytes_lt(key, keys.last()) {
        None
    } else if keys.len() > 0 && keys.last() == key {
        Some(keys)
    } else {
        Some(keys.push(key))
    }
}

/// The keys that building from `lines` in order yields, or `None` when a line is refused.
pub open spec fn keys_from_lines(lines: Seq<Seq<char>>) -> Option<Seq<Seq<u8>>>
    decreases lines.len(),
{
    if lines.len() == 0 {
        Some(Seq::empty())
    } else {
        match keys_from_lines(lines.drop_last()) {
            Some(keys) => keys_after_line(keys, lines.last()),
            None => None,
        }
    }
}

/// `x` is the key of some non-blank line of `lines`.
pub open spec fn is_line_key(lines: Seq<Seq<char>>, x: Seq<u8>) -> bool {
    exists|i: int| 0 <= i < lines.len() && trimmed(lines[i]).len() > 0 && #[trigger] line_key(lines[i]) == x
}

/// One more line keeps the keys in strictly ascending order.
pub proof fn lemma_keys_after_line_ascending(keys: Seq<Seq<u8>>, line: Seq<char>)
    requires
        strictly_ascending(keys),
    ensures
        keys_after_line(keys, line) matches Some(next) ==> strictly_ascending(next),
{
    let key = line_key(line);
    if trimmed(line).len() > 0 && !(keys.len() > 0 && bytes_lt(key, keys.last())) && !(keys.len() > 0
        && keys.last() == key) {
        let next = keys.push(key);
        assert forall|i: int, j: int| 0 <= i < j < next.len() implies bytes_lt(
            #[trigger] next[i],
            #[trigger] next[j],
        ) by {
            if j == keys.len() {
                let last = keys.last();
                lemma_bytes_lt_total(key, last);
                if i < keys.len() - 1 {
                    assert(bytes_lt(keys[i], last));
                    lemma_bytes_lt_transitive(keys[i], last, key);
                }
            } else {
                assert(next[i] == keys[i] && next[j] == keys[j]);
            }
        }
    }
}

/// Law: building from the lines of a word list, when no line is refused, yields keys in strictly
/// ascending byte order, and exactly the keys of the non-blank lines.
pub proof fn law_built_keys(lines: Seq<Seq<char>>)
    ensures
        keys_from_lines(lines) matches Some(keys) ==> strictly_ascending(keys) && forall|x: Seq<u8>|
            #[trigger] keys.contains(x) <==> is_line_key(lines, x),
    decreases lines.len(),
{
    if lines.len() > 0 {
        let init = lines.drop_last();
        let line = lines.last();
        law_built_keys(init);
        if let Some(prev) = keys_from_lines(init) {
            lemma_keys_after_line_ascending(prev, line);
            if let Some(keys) = keys_after_line(prev, line) {
                let key = line_key(line);
                assert forall|x: Seq<u8>| #[trigger] keys.contains(x) <==> is_line_key(lines, x) by {
                    // The key of a line of `lines` is that of a line of `init`, or that of the last.
                    if is_line_key(lines, x) {
                        let i = choose|i: int|
                            0 <= i < lines.len() && trimmed(lines[i]).len() > 0 && #[trigger] line_key(lines[i]) == x;
                        if i < init.len() {
                            assert(init[i] == lines[i]);
                            assert(is_line_key(init, x));
                        }
                    }
                    if is_line_key(init, x) {
                        let i = choose|i: int|
                            0 <= i < init.len() && trimmed(init[i]).len() > 0 && #[trigger] line_key(init[i]) == x;
                        assert(lines[i] == init[i]);
                        assert(is_line_key(lines, x));
                    }
                    if trimmed(line).len() > 0 && x == key {
                        assert(lines[lines.len() - 1] == line);
                        assert(is_line_key(lines, x));
                    }
                    if trimmed(line).len() > 0 {
                        if prev.len() > 0 && prev.last() == key {
                            assert(prev[prev.len() - 1] == key);
                        } else {
                            assert(keys == prev.push(key));
                            if prev.contains(x) {
                                let j = choose|j: int| 0 <= j < prev.len() && prev[j] == x;
                                assert(keys[j] == x);
                            }
                            if x == key {
                                assert(keys[prev.len() as int] == key);
                            }
                            if keys.contains(x) {
                                let j = choose|j: int| 0 <= j < keys.len() && keys[j] == x;
                                if j < prev.len() {
                                    assert(prev[j] == x);
                                }
                            }
                        }
                    }
                }
            }
        }
    }
}

/// The keys of the non-blank lines never go down: no non-blank line's key precedes that of an
/// earlier non-blank line.
pub open spec fn keys_in_order(lines: Seq<Seq<char>>) -> bool {
    forall|i: int, j: int|
        0 <= i < j < lines.len() && trimmed(lines[i]).len() > 0 && trimmed(lines[j]).len() > 0 ==> !bytes_lt(
            #[trigger] line_key(lines[j]),
            #[trigger] line_key(lines[i]),
        )
}

/// Law: building from the lines of a word list refuses a line exactly when the list has an
/// inversion, a non-blank line whose key precedes that of an earlier one; lines whose keys never
/// go down are all accepted.
pub proof fn law_build_refuses_exactly_inversions(lines: Seq<Seq<char>>)
    ensures
        keys_from_lines(lines) is Some <==> keys_in_order(lines),
    decreases lines.len(),
{
    if lines.len() > 0 {
        let init = lines.drop_last();
        let line = lines.last();
        let n = lines.len() - 1;
        law_build_refuses_exactly_inversions(init);
        law_built_keys(init);
        assert forall|i: int| 0 <= i < n implies #[trigger] lines[i] == init[i] by {}
        match keys_from_lines(init) {
            None => {
                assert(!keys_in_order(init));
                let (i, j) = choose|i: int, j: int|
                    0 <= i < j < init.len() && trimmed(init[i]).len() > 0 && trimmed(init[j]).len() > 0
                        && bytes_lt(#[trigger] line_key(init[j]), #[trigger] line_key(init[i]));
                assert(lines[i] == init[i] && lines[j] == init[j]);
                assert(!keys_in_order(lines));
            },
            Some(prev) => {
                let key = line_key(line);
                if trimmed(line).len() == 0 {
                    assert forall|i: int, j: int|
                        0 <= i < j < lines.len() && trimmed(lines[i]).len() > 0 && trimmed(lines[j]).len()
                            > 0 implies !bytes_lt(
                        #[trigger] line_key(lines[j]),
                        #[trigger] line_key(lines[i]),
                    ) by {
                        assert(j < n);
                        assert(lines[i] == init[i] && lines[j] == init[j]);
                    }
                } else if prev.len() > 0 && bytes_lt(key, prev.last()) {
                    let last = prev.last();
                    assert(prev[prev.len() - 1] == last);
                    assert(prev.contains(last));
                    assert(is_line_key(init, last));
                    let i = choose|i: int|
                        0 <= i < init.len() && trimmed(init[i]).len() > 0 && #[trigger] line_key(init[i]) == last;
                    assert(lines[i] == init[i]);
                    assert(lines[n] == line);
                    assert(bytes_lt(line_key(lines[n]), line_key(lines[i])));
                    assert(!keys_in_order(lines));
                } else {
                    assert forall|i: int, j: int|
                        0 <= i < j < lines.len() && trimmed(lines[i]).len() > 0 && trimmed(lines[j]).len()
                            > 0 implies !bytes_lt(
                        #[trigger] line_key(lines[j]),
                        #[trigger] line_key(lines[i]),
                    ) by {
                        if j < n {
                            assert(lines[i] == init[i] && lines[j] == init[j]);
                        } else {
                            assert(lines[i] == init[i]);
                            assert(lines[j] == line);
                            let ki = line_key(init[i]);
                            assert(is_line_key(init, ki));
                            assert(prev.contains(ki));
                            let m = choose|m: int| 0 <= m < prev.len() && prev[m] == ki;
                            let last = prev.last();
                            assert(prev[prev.len() - 1] == last);
                            if bytes_lt(key, ki) {
                                if m < prev.len() - 1 {
                                    assert(bytes_lt(prev[m], prev[prev.len() - 1]));
                                    lemma_bytes_lt_transitive(key, ki, last);
                                }
                            }
                        }
                    }
                }
            },
        }
    }
}

/// A dictionary of keys (byte strings, normally UTF-8 words) that can be searched with typos.
pub struct Dictionary {
    map: fst::Set<memmap2::Mmap>,
}

impl View for Dictionary {
    /// The keys, in the order in which the dictionary holds them.
    type V = Seq<Seq<u8>>;

    closed spec fn view(&self) -> Seq<Seq<u8>> {
        set_keys(self.map)
    }
}

impl Dictionary {
    /// The dictionary reads a transducer that a builder wrote.
    #[verifier::type_invariant]
    spec fn reads_built_fst(self) -> bool {
        is_built_fst(set_bytes(self.map))
    }

    /// Opens a dictionary from a memory map of a transducer that a builder wrote (the bytes that
    /// `DictionaryBuilder::finish` returns, written to a file and mapped): `fst` reads only such
    /// bytes safely and leaves guaranteeing it to its caller. The dictionary holds exactly the
    /// keys written, and reads them from the map without copying it.
    pub fn from_map(map: memmap2::Mmap) -> (r: Result<Dictionary, DictionaryError>)
        requires
            is_built_fst(mmap_bytes(map)),
        ensures
            r is Ok,
            forall|keys: Seq<Seq<u8>>|
                strictly_ascending(keys) && mmap_bytes(map) == #[trigger] fst_bytes_of(keys) ==> (r matches Ok(
                    d,
                ) && d@ == keys),
    {
        let ghost written = mmap_bytes(map);
        let ghost keys = choose|keys: Seq<Seq<u8>>|
            strictly_ascending(keys) && written == #[trigger] fst_bytes_of(keys);
        match fst_set_new(map) {
            Ok(map) => Ok(Dictionary { map }),
            Err(e) => {
                assert(written == fst_bytes_of(keys));
                Err(DictionaryError::Fst(e))
            },
        }
    }

    /// Opens a dictionary from the bytes of a transducer that a builder wrote, copied into an
    /// anonymous memory map. Mapping the memory can fail, with `DictionaryError::Io`; otherwise the
    /// dictionary holds exactly the keys written.
    pub fn from_bytes(bytes: Vec<u8>) -> (r: Result<Dictionary, DictionaryError>)
        requires
            is_built_fst(bytes@),
        ensures
            r matches Err(e) ==> e is Io,
            forall|keys: Seq<Seq<u8>>|
                strictly_ascending(keys) && bytes@ == #[trigger] fst_bytes_of(keys) ==> (r matches Ok(d)
                    ==> d@ == keys),
    {
        let mut writable = match mmap_anon(bytes.len()) {
            Ok(m) => m,
            Err(e) => return Err(DictionaryError::Io(e)),
        };
        mmap_write(&mut writable, bytes.as_slice());
        let map = match mmap_make_read_only(writable) {
            Ok(m) => m,
            Err(e) => return Err(DictionaryError::Io(e)),
        };
        Dictionary::from_map(map)
    }

    /// The stream of the keys that the automaton of `q` accepts, in the dictionary's order.
    pub(crate) fn matches<'a>(&'a self, q: &'a LevenshteinQuery) -> (s: MatchStream<'a>)
        ensures
            stream_rest(s) == self@.filter(|key: Seq<u8>| accepts(q@, key)),
            stream_on_built_fst(s),
    {
        proof {
            use_type_invariant(self);
        }
        fst_search(&self.map, q)
    }

    /// Starts a search for `query` with the default settings: at most 5 results, distance 1,
    /// no transpositions.
    pub fn search<'a>(&'a self, query: &str) -> (b: SearchBuilder<'a>)
        ensures
            b.dictionary() == self,
            b.query() == query@,
            b.max_results() == 5,
            b.max_distance() == 1,
            !b.with_transposition(),
    {
        SearchBuilder::new(self, query)
    }

    /// Runs a search with the default settings for each query, in order: the `i`-th outcome is
    /// that of `self.search(queries[i]).execute()`.
    pub fn batch_search(&self, queries: &[&str]) -> (r: Vec<Result<Vec<SearchResult>, DictionaryError>>)
        ensures
            r@.len() == queries@.len(),
            forall|i: int|
                0 <= i < queries@.len() ==> search_outcome(
                    self@,
                    (queries@[i]@, 1u8, false),
                    5,
                    #[trigger] r@[i],
                ) && within_distance(r@[i], 1),
    {
        let mut r: Vec<Result<Vec<SearchResult>, DictionaryError>> = Vec::new();
        for i in 0..queries.len()
            invariant
                r@.len() == i,
                forall|j: int|
                    0 <= j < i ==> search_outcome(self@, (queries@[j]@, 1u8, false), 5, #[trigger] r@[j])
                        && within_distance(r@[j], 1),
        {
            let outcome = self.search(queries[i]).execute();
            r.push(outcome);
        }
        r
    }
}

/// Builds a dictionary from the lines of a word list given in byte order.
pub struct DictionaryBuilder {
    builder: fst::SetBuilder<Vec<u8>>,
}

impl View for DictionaryBuilder {
    /// The keys added so far, in order.
    type V = Seq<Seq<u8>>;

    closed spec fn view(&self) -> Seq<Seq<u8>> {
        builder_keys(self.builder)
    }
}

impl DictionaryBuilder {
    /// A builder holding no key.
    pub fn new() -> (b: DictionaryBuilder)
        ensures
            b@ == Seq::<Seq<u8>>::empty(),
    {
        DictionaryBuilder { builder: fst_builder_memory() }
    }

    /// Adds the key of one line: the line without surrounding white space, unless that is empty.
    /// A key that precedes the last key added is refused with `DictionaryError::Fst`, and the
    /// builder is left as it was; a repeated key is added once.
    pub fn insert_line(&mut self, line: &str) -> (r: Result<(), DictionaryError>)
        ensures
            strictly_ascending(old(self)@) ==> strictly_ascending(final(self)@),
            keys_after_line(old(self)@, line@) is None ==> (r matches Err(e) && e is Fst)
                && final(self)@ == old(self)@,
            keys_after_line(old(self)@, line@) matches Some(keys) ==> r is Ok && final(self)@
                == keys,
            r is Ok && line@.len() > 0 && has_printable_ends(line@) ==> final(self)@.len() > 0
                && final(self)@.last() == encode_utf8(line@),
    {
        proof {
            law_trim_keeps_printable_ends(line@);
        }
        let key = trim(line);
        if key.is_empty() {
            return Ok(());
        }
        let bytes = key.as_bytes();
        proof {
            assert(trimmed(line@).len() > 0);
            assert(bytes@ == line_key(line@));
        }
        let ghost keys = self@;
        match fst_builder_insert(&mut self.builder, bytes) {
            Ok(()) => {
                proof {
                    if strictly_ascending(keys) {
                        lemma_keys_after_line_ascending(keys, line@);
                    }
                }
                Ok(())
            },
            Err(e) => Err(DictionaryError::Fst(e)),
        }
    }

    /// Finishes the transducer and returns its bytes, those written for the keys added (in strictly
    /// ascending order): `Dictionary::from_map` opens a memory map of them (and
    /// `Dictionary::from_bytes` a copy of them) into a dictionary holding exactly those keys.
    pub fn finish(self) -> (bytes: Vec<u8>)
        ensures
            bytes@ == fst_bytes_of(self@),
            strictly_ascending(self@),
            is_built_fst(bytes@),
    {
        match fst_builder_into_bytes(self.builder) {
            Ok(bytes) => bytes,
            Err(_) => vstd::pervasive::unreached(),
        }
    }

    /// Finishes the transducer and opens it in memory: a dictionary holding exactly the keys
    /// added, or `DictionaryError::Io` where the memory cannot be mapped.
    pub fn into_dictionary(self) -> (r: Result<Dictionary, DictionaryError>)
        ensures
            r matches Ok(d) ==> d@ == self@ && strictly_ascending(d@),
            r matches Err(e) ==> e is Io,
    {
        let bytes = self.finish();
        Dictionary::from_bytes(bytes)
    }
}

} // verus!
