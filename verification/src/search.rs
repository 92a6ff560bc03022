//! Fuzzy search: the query builder, its settings, and what a search returns.
use vstd::prelude::*;
use vstd::utf8::{decode_utf8, encode_utf8, valid_utf8};
use crate::backend::{
    accepts, computes_levenshtein, fst_stream_next, levenshtein_automaton, levenshtein_distance,
    levenshtein_eval, levenshtein_factory, stream_on_built_fst, stream_rest,
};
use crate::edit::levenshtein;
use crate::dictionary::Dictionary;
use crate::error::DictionaryError;
use crate::order::{Scored, bytes_lt, scored_lt};
use crate::topk::{
    BestMatches, is_top_k, law_top_k_len, law_top_k_prefix, law_top_k_unique, lemma_top_k, top_k,
};

verus! {

/// A matched key.
#[derive(Debug, Clone, PartialEq, Eq)]
pub struct SearchResult {
    /// True if the Levenshtein distance is 0.
    pub is_exact: bool,
    /// The matched key.
    pub key: String,
    /// The Levenshtein distance to the query.
    pub distance: u8,
}

/// The distance that a search gives a key: the automaton's exact distance, or the maximum
/// distance where the automaton reports none.
pub open spec fn match_distance(q: (Seq<char>, u8, bool), key: Seq<u8>) -> u8 {
    match levenshtein_distance(q.0, q.1, q.2, key) {
        Some(d) => d,
        None => q.1,
    }
}

/// The candidates of a search for `q` among `keys`: the keys that the automaton accepts, in
/// order, each scored by its distance.
pub open spec fn candidates(keys: Seq<Seq<u8>>, q: (Seq<char>, u8, bool)) -> Seq<Scored> {
    keys.filter(|key: Seq<u8>| accepts(q, key)).map_values(|key: Seq<u8>| (match_distance(q, key), key))
}

/// The matches that a search keeps: the `limit` best candidates, by distance and then by key.
pub open spec fn best_matches(keys: Seq<Seq<u8>>, q: (Seq<char>, u8, bool), limit: usize) -> Seq<Scored> {
    top_k(candidates(keys, q), limit as nat)
}

/// `r` reports the scored match `m`.
pub open spec fn reports(r: SearchResult, m: Scored) -> bool {
    &&& r.distance == m.0
    &&& r.is_exact == (m.0 == 0)
    &&& r.key@ == decode_utf8(m.1)
}

/// `out` reports the scored matches `best` in order; or, exactly when one of them is not valid
/// UTF-8, it is a `DictionaryError::Utf8`.
pub open spec fn reports_all(best: Seq<Scored>, out: Result<Vec<SearchResult>, DictionaryError>) -> bool {
    &&& (out is Ok <==> forall|i: int| 0 <= i < best.len() ==> valid_utf8(#[trigger] best[i].1))
    &&& (out matches Ok(v) ==> v@.len() == best.len() && forall|i: int|
        0 <= i < best.len() ==> reports(#[trigger] v@[i], best[i]))
    &&& (out matches Err(e) ==> e is Utf8)
}

/// What a search for `q` (query, maximum distance, transposition) among `keys` with at most
/// `limit` results returns: its best matches in order, each reported; or, exactly when one of
/// them is not valid UTF-8, a `DictionaryError::Utf8`.
pub open spec fn search_outcome(
    keys: Seq<Seq<u8>>,
    q: (Seq<char>, u8, bool),
    limit: usize,
    out: Result<Vec<SearchResult>, DictionaryError>,
) -> bool {
    reports_all(best_matches(keys, q, limit), out)
}

/// Every result of a successful search lies within `max_distance`.
pub open spec fn within_distance(out: Result<Vec<SearchResult>, DictionaryError>, max_distance: u8) -> bool {
    out matches Ok(v) ==> forall|i: int| 0 <= i < v@.len() ==> #[trigger] v@[i].distance <= max_distance
}

/// Law: the results of a search come in ascending order of distance, and of key (in byte order)
/// among equal distances.
pub proof fn law_results_sorted(
    keys: Seq<Seq<u8>>,
    q: (Seq<char>, u8, bool),
    limit: usize,
    v: Vec<SearchResult>,
)
    requires
        search_outcome(keys, q, limit, Ok(v)),
    ensures
        forall|i: int, j: int|
            0 <= i < j < v@.len() ==> (#[trigger] v@[i]).distance < (#[trigger] v@[j]).distance || (
            v@[i].distance == v@[j].distance && bytes_lt(encode_utf8(v@[i].key@), encode_utf8(v@[j].key@))),
{
    broadcast use vstd::utf8::decode_utf8_encode_utf8;

    let best = best_matches(keys, q, limit);
    lemma_top_k(candidates(keys, q), limit as nat);
    assert forall|i: int, j: int| 0 <= i < j < v@.len() implies (#[trigger] v@[i]).distance < (
    #[trigger] v@[j]).distance || (v@[i].distance == v@[j].distance && bytes_lt(
        encode_utf8(v@[i].key@),
        encode_utf8(v@[j].key@),
    )) by {
        assert(reports(v@[i], best[i]) && reports(v@[j], best[j]));
        assert(valid_utf8(best[i].1) && valid_utf8(best[j].1));
        assert(scored_lt(best[i], best[j]));
    }
}

/// Law: every result of a search is a key of the dictionary that the automaton accepts, reported
/// with the distance that the automaton gives it.
pub proof fn law_results_are_matches(
    keys: Seq<Seq<u8>>,
    q: (Seq<char>, u8, bool),
    limit: usize,
    v: Vec<SearchResult>,
)
    requires
        search_outcome(keys, q, limit, Ok(v)),
    ensures
        forall|i: int|
            0 <= i < v@.len() ==> keys.contains(encode_utf8((#[trigger] v@[i]).key@)) && accepts(
                q,
                encode_utf8(v@[i].key@),
            ) && v@[i].distance == match_distance(q, encode_utf8(v@[i].key@)) && v@[i].is_exact == (
            v@[i].distance == 0),
{
    broadcast use vstd::utf8::decode_utf8_encode_utf8;

    let best = best_matches(keys, q, limit);
    let cands = candidates(keys, q);
    let pred = |key: Seq<u8>| accepts(q, key);
    let accepted = keys.filter(pred);
    lemma_top_k(cands, limit as nat);
    assert forall|i: int| 0 <= i < v@.len() implies keys.contains(encode_utf8((#[trigger] v@[i]).key@))
        && accepts(q, encode_utf8(v@[i].key@)) && v@[i].distance == match_distance(
        q,
        encode_utf8(v@[i].key@),
    ) && v@[i].is_exact == (v@[i].distance == 0) by {
        assert(reports(v@[i], best[i]));
        assert(valid_utf8(best[i].1));
        assert(cands.contains(best[i]));
        let j = choose|j: int| 0 <= j < cands.len() && cands[j] == best[i];
        let key = accepted[j];
        assert(cands[j] == (match_distance(q, key), key));
        keys.lemma_filter_pred(pred, j);
        assert(accepted.contains(key));
        keys.lemma_filter_contains_rev(pred, key);
    }
}

/// Law: a search returns `limit` results, or as many as there are different matches when there
/// are fewer.
pub proof fn law_result_count(
    keys: Seq<Seq<u8>>,
    q: (Seq<char>, u8, bool),
    limit: usize,
    v: Vec<SearchResult>,
)
    requires
        search_outcome(keys, q, limit, Ok(v)),
    ensures
        v@.len() == (if limit <= candidates(keys, q).to_set().len() {
            limit as nat
        } else {
            candidates(keys, q).to_set().len()
        }),
{
    law_top_k_len(candidates(keys, q), limit as nat);
}

/// Law: with a lower limit, a search returns the first results of the same search with a higher
/// limit.
pub proof fn law_limit_prefix(
    keys: Seq<Seq<u8>>,
    q: (Seq<char>, u8, bool),
    small: usize,
    large: usize,
    a: Vec<SearchResult>,
    b: Vec<SearchResult>,
)
    requires
        small <= large,
        search_outcome(keys, q, small, Ok(a)),
        search_outcome(keys, q, large, Ok(b)),
    ensures
        a@.len() <= b@.len(),
        forall|i: int|
            0 <= i < a@.len() ==> (#[trigger] a@[i]).distance == b@[i].distance && a@[i].is_exact
                == b@[i].is_exact && a@[i].key@ == b@[i].key@,
{
    law_top_k_prefix(candidates(keys, q), small as nat, large as nat);
    let sb = best_matches(keys, q, small);
    let lb = best_matches(keys, q, large);
    assert forall|i: int| 0 <= i < a@.len() implies (#[trigger] a@[i]).distance == b@[i].distance
        && a@[i].is_exact == b@[i].is_exact && a@[i].key@ == b@[i].key@ by {
        assert(sb[i] == lb[i]);
        assert(reports(a@[i], sb[i]) && reports(b@[i], lb[i]));
    }
}

/// Law: when the dictionary holds the query itself (in UTF-8) and the limit is not 0, the first
/// result is an exact match.
pub proof fn law_exact_match_first(
    keys: Seq<Seq<u8>>,
    q: (Seq<char>, u8, bool),
    limit: usize,
    v: Vec<SearchResult>,
)
    requires
        keys.contains(encode_utf8(q.0)),
        computes_levenshtein(q),
        limit > 0,
        search_outcome(keys, q, limit, Ok(v)),
    ensures
        v@.len() > 0,
        v@[0].distance == 0,
        v@[0].is_exact,
{
    let qk = encode_utf8(q.0);
    assert(levenshtein_distance(q.0, q.1, q.2, qk) == Some(0u8));
    let cands = candidates(keys, q);
    let best = best_matches(keys, q, limit);
    let pred = |key: Seq<u8>| accepts(q, key);
    let accepted = keys.filter(pred);
    lemma_top_k(cands, limit as nat);
    let k = choose|k: int| 0 <= k < keys.len() && keys[k] == qk;
    keys.lemma_filter_contains(pred, k);
    let j = choose|j: int| 0 <= j < accepted.len() && accepted[j] == qk;
    let c0: Scored = (0u8, qk);
    assert(cands[j] == c0);
    assert(cands.contains(c0));
    if best.contains(c0) {
        let i = choose|i: int| 0 <= i < best.len() && best[i] == c0;
        if i > 0 {
            assert(scored_lt(best[0], best[i]));
        }
    } else {
        assert(scored_lt(best[0], c0));
    }
    assert(reports(v@[0], best[0]));
}

/// Law: a result is exact, at distance 0, exactly when its key is the query itself.
pub proof fn law_exact_results_are_the_query(
    keys: Seq<Seq<u8>>,
    q: (Seq<char>, u8, bool),
    limit: usize,
    v: Vec<SearchResult>,
)
    requires
        computes_levenshtein(q),
        search_outcome(keys, q, limit, Ok(v)),
    ensures
        forall|i: int|
            0 <= i < v@.len() ==> ((#[trigger] v@[i]).is_exact <==> v@[i].key@ == q.0) && (v@[i].is_exact
                <==> v@[i].distance == 0),
{
    broadcast use vstd::utf8::encode_utf8_decode_utf8;

    law_results_are_matches(keys, q, limit, v);
    assert forall|i: int| 0 <= i < v@.len() implies ((#[trigger] v@[i]).is_exact <==> v@[i].key@
        == q.0) && (v@[i].is_exact <==> v@[i].distance == 0) by {
        let e = encode_utf8(v@[i].key@);
        assert(levenshtein_distance(q.0, q.1, q.2, e) == Some(v@[i].distance));
        if v@[i].key@ != q.0 {
            assert(decode_utf8(e) != decode_utf8(encode_utf8(q.0)));
        }
    }
}

/// Law: where a transposition does not count as one edit, each result is reported with the
/// Levenshtein distance from the query to its key, which is at most the maximum distance.
pub proof fn law_result_distances_are_levenshtein(
    keys: Seq<Seq<u8>>,
    q: (Seq<char>, u8, bool),
    limit: usize,
    v: Vec<SearchResult>,
)
    requires
        !q.2,
        computes_levenshtein(q),
        search_outcome(keys, q, limit, Ok(v)),
    ensures
        forall|i: int|
            0 <= i < v@.len() ==> (#[trigger] v@[i]).distance == levenshtein(q.0, v@[i].key@)
                && levenshtein(q.0, v@[i].key@) <= q.1,
{
    broadcast use vstd::utf8::encode_utf8_decode_utf8, vstd::utf8::encode_utf8_valid_utf8;

    law_results_are_matches(keys, q, limit, v);
    assert forall|i: int| 0 <= i < v@.len() implies (#[trigger] v@[i]).distance == levenshtein(
        q.0,
        v@[i].key@,
    ) && levenshtein(q.0, v@[i].key@) <= q.1 by {
        let e = encode_utf8(v@[i].key@);
        assert(valid_utf8(e));
        assert(levenshtein_distance(q.0, q.1, q.2, e) == Some(v@[i].distance));
    }
}

/// Law: where a transposition does not count as one edit, every valid UTF-8 key of the dictionary
/// within the maximum distance of the query is a candidate, scored by its Levenshtein distance.
pub proof fn law_keys_within_distance_are_candidates(
    keys: Seq<Seq<u8>>,
    q: (Seq<char>, u8, bool),
    key: Seq<u8>,
)
    requires
        !q.2,
        computes_levenshtein(q),
        keys.contains(key),
        valid_utf8(key),
        levenshtein(q.0, decode_utf8(key)) <= q.1,
    ensures
        candidates(keys, q).contains((levenshtein(q.0, decode_utf8(key)) as u8, key)),
{
    let pred = |k: Seq<u8>| accepts(q, k);
    let accepted = keys.filter(pred);
    let cands = candidates(keys, q);
    assert(levenshtein_distance(q.0, q.1, q.2, key) == Some(levenshtein(q.0, decode_utf8(key)) as u8));
    let k = choose|k: int| 0 <= k < keys.len() && keys[k] == key;
    keys.lemma_filter_contains(pred, k);
    let j = choose|j: int| 0 <= j < accepted.len() && accepted[j] == key;
    assert(cands[j] == (levenshtein(q.0, decode_utf8(key)) as u8, key));
}

/// A search to run on a dictionary, with its settings.
pub struct SearchBuilder<'a> {
    dictionary: &'a Dictionary,
    query: String,
    limit: usize,
    distance: u8,
    transposition: bool,
}

impl<'a> SearchBuilder<'a> {
    /// The maximum distance is at most 2.
    #[verifier::type_invariant]
    spec fn distance_capped(self) -> bool {
        self.distance <= 2
    }

    /// The dictionary searched.
    pub closed spec fn dictionary(self) -> &'a Dictionary {
        self.dictionary
    }

    /// The query.
    pub closed spec fn query(self) -> Seq<char> {
        self.query@
    }

    /// The maximum number of results.
    pub closed spec fn max_results(self) -> usize {
        self.limit
    }

    /// The maximum Levenshtein distance.
    pub closed spec fn max_distance(self) -> u8 {
        self.distance
    }

    /// Whether swapping two adjacent characters counts as one edit.
    pub closed spec fn with_transposition(self) -> bool {
        self.transposition
    }

    /// Starts a search with the default settings: `limit = 5`, `distance = 1`,
    /// `transposition = false`.
    pub fn new(dictionary: &'a Dictionary, query: &str) -> (b: Self)
        ensures
            b.dictionary() == dictionary,
            b.query() == query@,
            b.max_results() == 5,
            b.max_distance() == 1,
            !b.with_transposition(),
    {
        SearchBuilder { dictionary, query: query.to_owned(), limit: 5, distance: 1, transposition: false }
    }

    /// Sets the maximum number of results.
    pub fn limit(self, limit: usize) -> (b: Self)
        ensures
            b.dictionary() == self.dictionary(),
            b.query() == self.query(),
            b.max_results() == limit,
            b.max_distance() == self.max_distance(),
            b.with_transposition() == self.with_transposition(),
    {
        proof {
            use_type_invariant(&self);
        }
        SearchBuilder { limit, ..self }
    }

    /// Sets the maximum Levenshtein distance, capped at 2.
    pub fn distance(self, distance: u8) -> (b: Self)
        ensures
            b.dictionary() == self.dictionary(),
            b.query() == self.query(),
            b.max_results() == self.max_results(),
            b.max_distance() == (if distance <= 2 { distance } else { 2 }),
            b.with_transposition() == self.with_transposition(),
    {
        let distance = if distance <= 2 { distance } else { 2 };
        SearchBuilder { distance, ..self }
    }

    /// Sets whether swapping two adjacent characters (as in "teh" for "the") counts as one edit.
    pub fn transposition(self, transposition: bool) -> (b: Self)
        ensures
            b.dictionary() == self.dictionary(),
            b.query() == self.query(),
            b.max_results() == self.max_results(),
            b.max_distance() == self.max_distance(),
            b.with_transposition() == transposition,
    {
        proof {
            use_type_invariant(&self);
        }
        SearchBuilder { transposition, ..self }
    }

    /// Runs the search: the keys of the dictionary within the maximum distance of the query,
    /// the best `limit` of them by distance and then by key, in that order. The query itself, when
    /// the dictionary holds it, comes first at distance 0.
    pub fn execute(self) -> (r: Result<Vec<SearchResult>, DictionaryError>)
        ensures
            search_outcome(
                self.dictionary()@,
                (self.query(), self.max_distance(), self.with_transposition()),
                self.max_results(),
                r,
            ),
            within_distance(r, self.max_distance()),
            self.max_distance() <= 2,
            computes_levenshtein((self.query(), self.max_distance(), self.with_transposition())),
            r matches Ok(v) ==> (self.max_results() > 0 && self.dictionary()@.contains(
                encode_utf8(self.query()),
            ) ==> v@.len() > 0 && v@[0].distance == 0 && v@[0].is_exact),
    {
        proof {
            use_type_invariant(&self);
        }
        let factory = levenshtein_factory(self.distance, self.transposition);
        let q = levenshtein_automaton(&factory, self.query.as_str());
        let ghost qv = q@;
        let ghost accepted = self.dictionary@.filter(|key: Seq<u8>| accepts(qv, key));
        let ghost cands = candidates(self.dictionary@, qv);
        let ghost limit = self.limit as nat;
        assert(cands =~= accepted.map_values(|key: Seq<u8>| (match_distance(qv, key), key)));
        let mut best = BestMatches::new(self.limit);
        let mut stream = self.dictionary.matches(&q);
        let ghost mut seen: int = 0;
        assert(cands.take(0) =~= Seq::<Scored>::empty());
        loop
            invariant_except_break
                stream_rest(stream) == accepted.skip(seen),
                stream_on_built_fst(stream),
            invariant
                q@ == qv,
                qv == (self.query@, self.distance, self.transposition),
                cands.len() == accepted.len(),
                forall|i: int| 0 <= i < accepted.len() ==> #[trigger] cands[i] == (match_distance(qv, accepted[i]), accepted[i]),
                0 <= seen <= accepted.len(),
                best.limit() == limit,
                is_top_k(best@, cands.take(seen), limit),
                forall|i: int| 0 <= i < seen ==> (#[trigger] cands[i]).0 <= qv.1,
            ensures
                is_top_k(best@, cands, limit),
                forall|i: int| 0 <= i < cands.len() ==> (#[trigger] cands[i]).0 <= qv.1,
            decreases accepted.len() - seen,
        {
            match fst_stream_next(&mut stream) {
                Some(key) => {
                    assert(key@ == accepted[seen]);
                    let distance = match levenshtein_eval(&q, key.as_slice()) {
                        Some(d) => d,
                        None => self.distance,
                    };
                    let ghost c: Scored = (distance, key@);
                    proof {
                        assert(cands.take(seen).push(c) =~= cands.take(seen + 1));
                        assert(accepted.skip(seen).drop_first() =~= accepted.skip(seen + 1));
                    }
                    best.offer(distance, key);
                    proof {
                        assert(is_top_k(best@, cands.take(seen).push(c), limit));
                        seen = seen + 1;
                    }
                },
                None => {
                    assert(cands.take(seen) =~= cands);
                    break;
                },
            }
        }
        proof {
            lemma_top_k(cands, limit);
            law_top_k_unique(best@, top_k(cands, limit), cands, limit);
        }
        let ghost bestv = best@;
        assert forall|i: int| 0 <= i < bestv.len() implies (#[trigger] bestv[i]).0 <= self.distance by {
            assert(cands.contains(bestv[i]));
        }
        let r = best.into_results();
        proof {
            if r is Ok && self.limit > 0 && self.dictionary@.contains(encode_utf8(self.query@)) {
                law_exact_match_first(self.dictionary@, qv, self.limit, r->Ok_0);
            }
        }
        r
    }
}

} // verus!
