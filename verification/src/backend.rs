//! What the library takes from outside code: the `fst` set and its builder, the Levenshtein
//! automata of `levenshtein_automata`, the memory maps of `memmap2`, and a few std functions that
//! vstd leaves unspecified.
//! Each item here is trusted: its contract is believed, not proved.
use vstd::prelude::*;
use vstd::utf8::{decode_utf8, encode_utf8, valid_utf8};
use fst::{IntoStreamer, Streamer};
use levenshtein_automata::{Distance, LevenshteinAutomatonBuilder, DFA};
use crate::edit::levenshtein;
use crate::order::{bytes_lt, strictly_ascending};

verus! {

/// `fst::Set`, an immutable ordered set of byte strings stored as a finite state transducer.
#[verifier::external_type_specification]
#[verifier::external_body]
#[verifier::reject_recursive_types(D)]
pub struct ExSet<D>(fst::Set<D>);

/// `fst::SetBuilder`, which writes a set's transducer from keys given in order.
#[verifier::external_type_specification]
#[verifier::external_body]
#[verifier::reject_recursive_types(W)]
pub struct ExSetBuilder<W>(fst::SetBuilder<W>);

/// `memmap2::Mmap`, a read-only memory map.
#[verifier::external_type_specification]
#[verifier::external_body]
pub struct ExMmap(memmap2::Mmap);

/// `memmap2::MmapMut`, a writable memory map.
#[verifier::external_type_specification]
#[verifier::external_body]
pub struct ExMmapMut(memmap2::MmapMut);

/// `fst::Error`, the error of the `fst` crate.
#[verifier::external_type_specification]
#[verifier::external_body]
pub struct ExFstError(fst::Error);

/// A stream of the keys of an `fst` set that a Levenshtein automaton accepts: an
/// `fst::set::Stream` searching the set with the automaton, kept opaque.
#[verifier::external_body]
pub struct MatchStream<'a> {
    stream: fst::set::Stream<'a, &'a DFA>,
}

/// `levenshtein_automata::LevenshteinAutomatonBuilder`, which builds Levenshtein automata for a
/// maximum distance.
#[verifier::external_type_specification]
#[verifier::external_body]
pub struct ExLevenshteinAutomatonBuilder(LevenshteinAutomatonBuilder);

/// `levenshtein_automata::DFA`, an automaton that computes the Levenshtein distance of its input
/// to a fixed query, up to a maximum distance.
#[verifier::external_type_specification]
#[verifier::external_body]
pub struct ExDfa(DFA);

/// `std::io::Error`.
#[verifier::external_type_specification]
#[verifier::external_body]
pub struct ExIoError(std::io::Error);

/// `std::string::FromUtf8Error`, the error of `String::from_utf8`.
#[verifier::external_type_specification]
#[verifier::external_body]
pub struct ExFromUtf8Error(std::string::FromUtf8Error);

/// The bytes that a read-only memory map holds (those of the file or memory it maps, which the
/// mapping's owner keeps unchanged while it is mapped).
pub uninterp spec fn mmap_bytes(map: memmap2::Mmap) -> Seq<u8>;

/// The bytes that a writable memory map holds.
pub uninterp spec fn mmap_mut_bytes(map: memmap2::MmapMut) -> Seq<u8>;

/// The keys of an `fst` set, in the order in which the set streams them.
pub uninterp spec fn set_keys(set: fst::Set<memmap2::Mmap>) -> Seq<Seq<u8>>;

/// The keys inserted so far into an in-memory `fst` set builder, in insertion order.
pub uninterp spec fn builder_keys(builder: fst::SetBuilder<Vec<u8>>) -> Seq<Seq<u8>>;

/// The bytes that an `fst` set reads its transducer from.
pub uninterp spec fn set_bytes(set: fst::Set<memmap2::Mmap>) -> Seq<u8>;

/// The bytes that an in-memory `fst` set builder writes for `keys`, the keys it accepted, in
/// strictly ascending order.
pub uninterp spec fn fst_bytes_of(keys: Seq<Seq<u8>>) -> Seq<u8>;

/// `bytes` are a transducer that an `fst` set builder wrote: the only bytes that `fst` reads
/// without the risk of a panic (its documentation leaves guaranteeing that to the caller).
pub open spec fn is_built_fst(bytes: Seq<u8>) -> bool {
    exists|keys: Seq<Seq<u8>>| strictly_ascending(keys) && bytes == #[trigger] fst_bytes_of(keys)
}

/// What a Levenshtein automaton built for `query`, with maximum distance `max_distance` and
/// transpositions counted as one edit or not, reports after reading `key`: `Some(d)` for an exact
/// distance `d`, `None` when the distance exceeds the maximum.
pub uninterp spec fn levenshtein_distance(
    query: Seq<char>,
    max_distance: u8,
    transposition: bool,
    key: Seq<u8>,
) -> Option<u8>;

/// The keys that a search stream has yet to yield, in order.
pub uninterp spec fn stream_rest(stream: MatchStream<'_>) -> Seq<Seq<u8>>;

/// The stream searches a set whose transducer a builder wrote.
pub uninterp spec fn stream_on_built_fst(stream: MatchStream<'_>) -> bool;

/// A factory of Levenshtein automata together with its settings.
pub struct LevenshteinFactory {
    builder: LevenshteinAutomatonBuilder,
    max_distance: u8,
    transposition: bool,
}

impl View for LevenshteinFactory {
    /// The maximum distance, and whether a transposition counts as one edit.
    type V = (u8, bool);

    closed spec fn view(&self) -> (u8, bool) {
        (self.max_distance, self.transposition)
    }
}

/// A Levenshtein automaton together with what it was built from.
pub struct LevenshteinQuery {
    dfa: DFA,
    query: Ghost<Seq<char>>,
    max_distance: u8,
    transposition: bool,
}

impl View for LevenshteinQuery {
    /// The query, the maximum distance, and whether a transposition counts as one edit.
    type V = (Seq<char>, u8, bool);

    closed spec fn view(&self) -> (Seq<char>, u8, bool) {
        (self.query@, self.max_distance, self.transposition)
    }
}

/// What the automaton of `q` (query, maximum distance, transposition) computes, as the crate's
/// documentation and tests give it: distance 0 for the query's own UTF-8 bytes and for no other
/// key; and, where a transposition does not count as one edit, the Levenshtein distance from the
/// query to each valid UTF-8 key when that is at most the maximum distance, and none beyond.
pub open spec fn computes_levenshtein(q: (Seq<char>, u8, bool)) -> bool {
    &&& forall|key: Seq<u8>|
        (#[trigger] levenshtein_distance(q.0, q.1, q.2, key) == Some(0u8)) <==> key == encode_utf8(q.0)
    &&& !q.2 ==> forall|key: Seq<u8>|
        valid_utf8(key) ==> #[trigger] levenshtein_distance(q.0, q.1, q.2, key) == (if levenshtein(
            q.0,
            decode_utf8(key),
        ) <= q.1 {
            Some(levenshtein(q.0, decode_utf8(key)) as u8)
        } else {
            None
        })
}

/// Whether the automaton of `q` accepts `key`, that is, finds it within the maximum distance.
pub open spec fn accepts(q: (Seq<char>, u8, bool), key: Seq<u8>) -> bool {
    levenshtein_distance(q.0, q.1, q.2, key) is Some
}

/// `LevenshteinAutomatonBuilder::new(max_distance, transposition)`. The contract records the
/// settings; the crate documents building as reasonable up to a maximum distance of 5.
#[verifier::external_body]
pub(crate) fn levenshtein_factory(max_distance: u8, transposition: bool) -> (f: LevenshteinFactory)
    requires
        max_distance <= 5,
    ensures
        f@ == (max_distance, transposition),
{
    LevenshteinFactory {
        builder: LevenshteinAutomatonBuilder::new(max_distance, transposition),
        max_distance,
        transposition,
    }
}

/// `LevenshteinAutomatonBuilder::build_dfa(query)`. The contract records what the automaton was
/// built from; what it reports for a key is named by `levenshtein_distance` (see
/// `levenshtein_eval`), and `computes_levenshtein` states what that is: for every key whether its
/// distance is 0, and without transpositions the distance to each valid UTF-8 key. Not stated:
/// the distance that counts a transposition as one edit.
#[verifier::external_body]
pub(crate) fn levenshtein_automaton(f: &LevenshteinFactory, query: &str) -> (q: LevenshteinQuery)
    ensures
        q@ == (query@, f@.0, f@.1),
        computes_levenshtein(q@),
{
    LevenshteinQuery {
        dfa: f.builder.build_dfa(query),
        query: Ghost(query@),
        max_distance: f.max_distance,
        transposition: f.transposition,
    }
}

/// Runs `DFA::eval` on `key`: `Distance::Exact(d)` becomes `Some(d)`, `Distance::AtLeast(_)`
/// becomes `None`. The result is named by `levenshtein_distance`; the source shows that an exact
/// distance never exceeds the maximum distance.
#[verifier::external_body]
pub(crate) fn levenshtein_eval(q: &LevenshteinQuery, key: &[u8]) -> (r: Option<u8>)
    ensures
        r == levenshtein_distance(q@.0, q@.1, q@.2, key@),
        r matches Some(d) ==> d <= q@.1,
{
    match q.dfa.eval(key) {
        Distance::Exact(d) => Some(d),
        Distance::AtLeast(_) => None,
    }
}

/// `fst::Set::new` on a memory map: the set reads the map's bytes, and bytes that a builder wrote
/// for some keys are accepted, the set then holding exactly those keys. Not stated: whether other
/// bytes are accepted (`fst` only checks their header and length).
#[verifier::external_body]
pub(crate) fn fst_set_new(map: memmap2::Mmap) -> (r: Result<fst::Set<memmap2::Mmap>, fst::Error>)
    ensures
        r matches Ok(set) ==> set_bytes(set) == mmap_bytes(map),
        forall|keys: Seq<Seq<u8>>|
            strictly_ascending(keys) && mmap_bytes(map) == #[trigger] fst_bytes_of(keys) ==> r is Ok
                && set_keys(r->Ok_0) == keys,
{
    fst::Set::new(map)
}

/// `MmapMut::map_anon(len)`: a writable anonymous memory map of `len` bytes. The system call can
/// fail (for want of memory, say), and then the error is returned.
#[verifier::external_body]
pub(crate) fn mmap_anon(len: usize) -> (r: Result<memmap2::MmapMut, std::io::Error>)
    ensures
        r matches Ok(map) ==> mmap_mut_bytes(map).len() == len,
{
    memmap2::MmapMut::map_anon(len)
}

/// `<[u8]>::copy_from_slice` on the bytes of a writable memory map: the map then holds `bytes`,
/// which have its length.
#[verifier::external_body]
pub(crate) fn mmap_write(map: &mut memmap2::MmapMut, bytes: &[u8])
    requires
        mmap_mut_bytes(*old(map)).len() == bytes@.len(),
    ensures
        mmap_mut_bytes(*final(map)) == bytes@,
{
    map.copy_from_slice(bytes)
}

/// `MmapMut::make_read_only`: the same bytes, mapped read-only. The system call can fail, and then
/// the error is returned.
#[verifier::external_body]
pub(crate) fn mmap_make_read_only(map: memmap2::MmapMut) -> (r: Result<memmap2::Mmap, std::io::Error>)
    ensures
        r matches Ok(read_only) ==> mmap_bytes(read_only) == mmap_mut_bytes(map),
{
    map.make_read_only()
}

/// `fst::SetBuilder::memory`: a builder that writes into a `Vec<u8>`, holding no key yet.
#[verifier::external_body]
pub(crate) fn fst_builder_memory() -> (b: fst::SetBuilder<Vec<u8>>)
    ensures
        builder_keys(b) == Seq::<Seq<u8>>::empty(),
{
    fst::SetBuilder::memory()
}

/// `fst::SetBuilder::insert`: a key that precedes the last key inserted is refused and the builder
/// is left as it was; a key equal to the last one is accepted and not added again; any other key
/// is added. (Writing into a `Vec<u8>` cannot fail.)
#[verifier::external_body]
pub(crate) fn fst_builder_insert(b: &mut fst::SetBuilder<Vec<u8>>, key: &[u8]) -> (r: Result<(), fst::Error>)
    ensures
        r is Err <==> (builder_keys(*old(b)).len() > 0 && bytes_lt(key@, builder_keys(*old(b)).last())),
        r is Err ==> builder_keys(*final(b)) == builder_keys(*old(b)),
        r is Ok ==> builder_keys(*final(b)) == (if builder_keys(*old(b)).len() > 0
            && builder_keys(*old(b)).last() == key@ {
            builder_keys(*old(b))
        } else {
            builder_keys(*old(b)).push(key@)
        }),
{
    b.insert(key)
}

/// `fst::SetBuilder::into_inner` on an in-memory builder: finishes the transducer and returns its
/// bytes, those that a builder writes for the keys it accepted (which a builder only accepts in
/// strictly ascending order). Writing into and flushing a `Vec<u8>` cannot fail.
#[verifier::external_body]
pub(crate) fn fst_builder_into_bytes(b: fst::SetBuilder<Vec<u8>>) -> (r: Result<Vec<u8>, fst::Error>)
    ensures
        r is Ok,
        r matches Ok(bytes) ==> bytes@ == fst_bytes_of(builder_keys(b)) && strictly_ascending(
            builder_keys(b),
        ),
{
    b.into_inner()
}

/// `fst::Set::search` with the automaton of `q`, turned into a stream: it yields, in the set's
/// order, the keys of the set that the automaton accepts. Reading a transducer is safe only where
/// a builder wrote it.
#[verifier::external_body]
pub(crate) fn fst_search<'a>(set: &'a fst::Set<memmap2::Mmap>, q: &'a LevenshteinQuery) -> (s: MatchStream<'a>)
    requires
        is_built_fst(set_bytes(*set)),
    ensures
        stream_rest(s) == set_keys(*set).filter(|key: Seq<u8>| accepts(q@, key)),
        stream_on_built_fst(s),
{
    MatchStream { stream: set.search(&q.dfa).into_stream() }
}

/// `Streamer::next` on a search stream of a set that a builder wrote, with the key copied out:
/// the first key still to come, or `None` when there is none.
#[verifier::external_body]
pub(crate) fn fst_stream_next(s: &mut MatchStream<'_>) -> (r: Option<Vec<u8>>)
    requires
        stream_on_built_fst(*old(s)),
    ensures
        stream_on_built_fst(*final(s)),
        stream_rest(*old(s)).len() == 0 ==> r is None,
        stream_rest(*old(s)).len() > 0 ==> (r matches Some(key) && key@ == stream_rest(*old(s))[0]
            && stream_rest(*final(s)) == stream_rest(*old(s)).drop_first()),
{
    s.stream.next().map(|key| key.to_vec())
}

/// `String::from_utf8`: succeeds exactly on valid UTF-8, with the characters it encodes.
#[verifier::external_body]
pub(crate) fn string_from_utf8(bytes: Vec<u8>) -> (r: Result<String, std::string::FromUtf8Error>)
    ensures
        r is Ok <==> valid_utf8(bytes@),
        r matches Ok(s) ==> s@ == decode_utf8(bytes@),
{
    String::from_utf8(bytes)
}

} // verus!
