//! Keeping the best `limit` scored matches of a stream of candidates.
use vstd::prelude::*;
use vstd::utf8::valid_utf8;
use crate::backend::string_from_utf8;
use crate::error::DictionaryError;
use crate::search::{SearchResult, reports, reports_all};
use crate::order::{
    Scored, bytes_less, lemma_bytes_lt_total, lemma_scored_lt_asymmetric, lemma_scored_lt_irreflexive,
    lemma_scored_lt_total, lemma_scored_lt_transitive, scored_less, scored_lt,
};

verus! {

/// Every element precedes every later one.
pub open spec fn strictly_sorted(s: Seq<Scored>) -> bool {
    forall|i: int, j: int| 0 <= i < j < s.len() ==> scored_lt(#[trigger] s[i], #[trigger] s[j])
}

/// `best` holds the smallest `limit` candidates, in ascending order: it is sorted, holds at most
/// `limit` candidates, and a candidate left out of it comes after all of it, which happens only
/// when it is full.
pub open spec fn is_top_k(best: Seq<Scored>, cands: Seq<Scored>, limit: nat) -> bool {
    &&& strictly_sorted(best)
    &&& best.len() <= limit
    &&& forall|i: int| 0 <= i < best.len() ==> cands.contains(#[trigger] best[i])
    &&& forall|c: Scored|
        #![trigger cands.contains(c)]
        cands.contains(c) && !best.contains(c) ==> best.len() == limit && forall|i: int|
            0 <= i < best.len() ==> scored_lt(#[trigger] best[i], c)
}

/// The smallest `limit` candidates in ascending order (unique by `law_top_k_unique`, and
/// existing by `lemma_top_k`).
pub open spec fn top_k(cands: Seq<Scored>, limit: nat) -> Seq<Scored> {
    choose|best: Seq<Scored>| is_top_k(best, cands, limit)
}

/// How many leading elements of `s` precede `c`: the place where `c` goes in a sorted `s`.
pub open spec fn rank(s: Seq<Scored>, c: Scored) -> nat
    decreases s.len(),
{
    if s.len() == 0 {
        0
    } else if scored_lt(s[0], c) {
        1 + rank(s.drop_first(), c)
    } else {
        0
    }
}

/// The effect of offering candidate `c` to the best matches `best`: kept out if already there;
/// put in its place while there is room; otherwise put in its place in exchange for the last one
/// when it precedes that one; else kept out.
pub open spec fn offer_step(best: Seq<Scored>, c: Scored, limit: nat) -> Seq<Scored> {
    let p = rank(best, c) as int;
    if p < best.len() && best[p] == c {
        best
    } else if best.len() < limit {
        best.insert(p, c)
    } else if p < best.len() {
        best.drop_last().insert(p, c)
    } else {
        best
    }
}

/// `rank(s, c)` counts the leading elements that precede `c`.
pub proof fn lemma_rank(s: Seq<Scored>, c: Scored)
    ensures
        rank(s, c) <= s.len(),
        forall|i: int| 0 <= i < rank(s, c) ==> scored_lt(#[trigger] s[i], c),
        rank(s, c) < s.len() ==> !scored_lt(s[rank(s, c) as int], c),
    decreases s.len(),
{
    if s.len() > 0 && scored_lt(s[0], c) {
        lemma_rank(s.drop_first(), c);
        assert forall|i: int| 0 <= i < rank(s, c) implies scored_lt(#[trigger] s[i], c) by {
            if i > 0 {
                assert(s[i] == s.drop_first()[i - 1]);
            }
        }
    }
}

/// The first index whose element does not precede `c` is `rank(s, c)`.
pub proof fn lemma_rank_is(s: Seq<Scored>, c: Scored, p: int)
    requires
        0 <= p <= s.len(),
        forall|i: int| 0 <= i < p ==> scored_lt(#[trigger] s[i], c),
        p < s.len() ==> !scored_lt(s[p], c),
    ensures
        rank(s, c) == p,
    decreases p,
{
    if p > 0 {
        assert(scored_lt(s[0], c));
        assert forall|i: int| 0 <= i < p - 1 implies scored_lt(#[trigger] s.drop_first()[i], c) by {
            assert(s.drop_first()[i] == s[i + 1]);
        }
        if p < s.len() {
            assert(s.drop_first()[p - 1] == s[p]);
        }
        lemma_rank_is(s.drop_first(), c, p - 1);
    }
}

proof fn lemma_push_contains(s: Seq<Scored>, c: Scored, x: Scored)
    ensures
        s.push(c).contains(x) <==> (s.contains(x) || x == c),
{
    if s.contains(x) {
        let j = choose|j: int| 0 <= j < s.len() && s[j] == x;
        assert(s.push(c)[j] == x);
    }
    if x == c {
        assert(s.push(c)[s.len() as int] == c);
    }
    if s.push(c).contains(x) {
        let j = choose|j: int| 0 <= j < s.len() + 1 && s.push(c)[j] == x;
        if j < s.len() {
            assert(s[j] == x);
        }
    }
}

/// In a sorted sequence, the elements from `rank(s, c)` on do not precede `c`.
proof fn lemma_sorted_rank(s: Seq<Scored>, c: Scored)
    requires
        strictly_sorted(s),
    ensures
        rank(s, c) <= s.len(),
        forall|i: int| 0 <= i < rank(s, c) ==> scored_lt(#[trigger] s[i], c),
        forall|i: int| rank(s, c) <= i < s.len() ==> !scored_lt(#[trigger] s[i], c),
        forall|i: int| rank(s, c) <= i < s.len() && s[i] != c ==> scored_lt(c, #[trigger] s[i]),
{
    lemma_rank(s, c);
    let p = rank(s, c) as int;
    assert forall|i: int| p <= i < s.len() implies !scored_lt(#[trigger] s[i], c) by {
        if i > p && scored_lt(s[i], c) {
            lemma_scored_lt_transitive(s[p], s[i], c);
        }
    }
    assert forall|i: int| p <= i < s.len() && s[i] != c implies scored_lt(c, #[trigger] s[i]) by {
        lemma_scored_lt_total(c, s[i]);
    }
}

/// Offering a candidate keeps `best` the smallest `limit` of all candidates offered so far.
pub proof fn lemma_offer_step(best: Seq<Scored>, cands: Seq<Scored>, c: Scored, limit: nat)
    requires
        is_top_k(best, cands, limit),
    ensures
        is_top_k(offer_step(best, c, limit), cands.push(c), limit),
{
    let p = rank(best, c) as int;
    let n = best.len() as int;
    let cands2 = cands.push(c);
    let new = offer_step(best, c, limit);
    lemma_sorted_rank(best, c);
    assert forall|x: Scored| cands.contains(x) implies #[trigger] cands2.contains(x) by {
        lemma_push_contains(cands, c, x);
    }
    assert(cands2.contains(c)) by {
        lemma_push_contains(cands, c, c);
    }
    if p < n && best[p] == c {
        assert forall|x: Scored| #![trigger cands2.contains(x)]
            cands2.contains(x) && !new.contains(x) implies new.len() == limit && forall|i: int|
                0 <= i < new.len() ==> scored_lt(#[trigger] new[i], x) by {
            lemma_push_contains(cands, c, x);
            assert(cands.contains(x));
        }
    } else {
        // `c` is not among `best`.
        assert forall|i: int| 0 <= i < n implies #[trigger] best[i] != c by {
            if i < p {
                lemma_scored_lt_irreflexive(c);
            } else if i > p {
                assert(scored_lt(best[p], best[i]));
            }
        }
        if n < limit {
            assert(new == best.insert(p, c));
            assert forall|i: int, j: int| 0 <= i < j < new.len() implies scored_lt(
                #[trigger] new[i],
                #[trigger] new[j],
            ) by {
                if j < p {
                    assert(new[i] == best[i] && new[j] == best[j]);
                } else if j == p {
                    assert(new[i] == best[i]);
                } else if i < p {
                    assert(new[i] == best[i] && new[j] == best[j - 1]);
                    lemma_scored_lt_transitive(best[i], c, best[j - 1]);
                } else if i == p {
                    assert(new[j] == best[j - 1]);
                } else {
                    assert(new[i] == best[i - 1] && new[j] == best[j - 1]);
                }
            }
            assert forall|i: int| 0 <= i < new.len() implies cands2.contains(#[trigger] new[i]) by {
                if i < p {
                    assert(new[i] == best[i]);
                } else if i > p {
                    assert(new[i] == best[i - 1]);
                }
            }
            assert forall|x: Scored| #![trigger cands2.contains(x)]
                cands2.contains(x) && !new.contains(x) implies new.len() == limit && forall|i: int|
                    0 <= i < new.len() ==> scored_lt(#[trigger] new[i], x) by {
                lemma_push_contains(cands, c, x);
                if x == c {
                    assert(new[p] == c);
                } else {
                    assert(cands.contains(x));
                    if !best.contains(x) {
                        assert(false);
                    }
                    let j = choose|j: int| 0 <= j < n && best[j] == x;
                    if j < p {
                        assert(new[j] == x);
                    } else {
                        assert(new[j + 1] == x);
                    }
                }
            }
        } else if p < n {
            let last = best[n - 1];
            let kept = best.drop_last();
            assert(new == kept.insert(p, c));
            assert(scored_lt(c, best[p]));
            assert(scored_lt(c, last)) by {
                if p < n - 1 {
                    lemma_scored_lt_transitive(c, best[p], last);
                }
            }
            assert forall|i: int, j: int| 0 <= i < j < new.len() implies scored_lt(
                #[trigger] new[i],
                #[trigger] new[j],
            ) by {
                if j < p {
                    assert(new[i] == best[i] && new[j] == best[j]);
                } else if j == p {
                    assert(new[i] == best[i]);
                } else if i < p {
                    assert(new[i] == best[i] && new[j] == best[j - 1]);
                    lemma_scored_lt_transitive(best[i], c, best[j - 1]);
                } else if i == p {
                    assert(new[j] == best[j - 1]);
                } else {
                    assert(new[i] == best[i - 1] && new[j] == best[j - 1]);
                }
            }
            // Every element of `new` precedes `last`.
            assert forall|i: int| 0 <= i < new.len() implies scored_lt(#[trigger] new[i], last) by {
                if i < p {
                    assert(new[i] == best[i]);
                } else if i > p {
                    assert(new[i] == best[i - 1]);
                }
            }
            assert forall|i: int| 0 <= i < new.len() implies cands2.contains(#[trigger] new[i]) by {
                if i < p {
                    assert(new[i] == best[i]);
                } else if i > p {
                    assert(new[i] == best[i - 1]);
                }
            }
            assert forall|x: Scored| #![trigger cands2.contains(x)]
                cands2.contains(x) && !new.contains(x) implies new.len() == limit && forall|i: int|
                    0 <= i < new.len() ==> scored_lt(#[trigger] new[i], x) by {
                lemma_push_contains(cands, c, x);
                if x == c {
                    assert(new[p] == c);
                } else if x == last {
                } else {
                    assert(cands.contains(x));
                    if best.contains(x) {
                        let j = choose|j: int| 0 <= j < n && best[j] == x;
                        if j < p {
                            assert(new[j] == x);
                        } else {
                            assert(new[j + 1] == x);
                        }
                    }
                    assert(scored_lt(last, x));
                    assert forall|i: int| 0 <= i < new.len() implies scored_lt(
                        #[trigger] new[i],
                        x,
                    ) by {
                        lemma_scored_lt_transitive(new[i], last, x);
                    }
                }
            }
        } else {
            assert forall|x: Scored| #![trigger cands2.contains(x)]
                cands2.contains(x) && !new.contains(x) implies new.len() == limit && forall|i: int|
                    0 <= i < new.len() ==> scored_lt(#[trigger] new[i], x) by {
                lemma_push_contains(cands, c, x);
                if x != c {
                    assert(cands.contains(x));
                }
            }
        }
    }
}

/// Offering the candidates one by one, starting from nothing.
pub open spec fn offer_all(cands: Seq<Scored>, limit: nat) -> Seq<Scored>
    decreases cands.len(),
{
    if cands.len() == 0 {
        Seq::empty()
    } else {
        offer_step(offer_all(cands.drop_last(), limit), cands.last(), limit)
    }
}

proof fn lemma_offer_all(cands: Seq<Scored>, limit: nat)
    ensures
        is_top_k(offer_all(cands, limit), cands, limit),
    decreases cands.len(),
{
    if cands.len() > 0 {
        lemma_offer_all(cands.drop_last(), limit);
        lemma_offer_step(offer_all(cands.drop_last(), limit), cands.drop_last(), cands.last(), limit);
        assert(cands.drop_last().push(cands.last()) =~= cands);
    }
}

/// Law: whatever the candidates and the limit, there are best `limit` candidates, and
/// `top_k` names them.
pub proof fn lemma_top_k(cands: Seq<Scored>, limit: nat)
    ensures
        is_top_k(top_k(cands, limit), cands, limit),
{
    lemma_offer_all(cands, limit);
}

/// Law: the best `limit` candidates are determined by the candidates and the limit: two
/// sequences that both meet the description are equal.
pub proof fn law_top_k_unique(a: Seq<Scored>, b: Seq<Scored>, cands: Seq<Scored>, limit: nat)
    requires
        is_top_k(a, cands, limit),
        is_top_k(b, cands, limit),
    ensures
        a == b,
{
    let m = if a.len() < b.len() { a.len() } else { b.len() };
    lemma_agree_below(a, b, cands, limit, m as int);
    lemma_prefix_top_k(a, b, cands, limit);
    lemma_prefix_top_k(b, a, cands, limit);
    assert(a =~= b);
}

/// Law: the best `limit` candidates are `limit` of them, or all the different candidates when
/// there are fewer.
pub proof fn law_top_k_len(cands: Seq<Scored>, limit: nat)
    ensures
        top_k(cands, limit).len() == (if limit <= cands.to_set().len() {
            limit
        } else {
            cands.to_set().len()
        }),
{
    let best = top_k(cands, limit);
    lemma_top_k(cands, limit);
    assert(best.no_duplicates()) by {
        assert forall|i: int, j: int| 0 <= i < best.len() && 0 <= j < best.len() && i != j implies best[i]
            != best[j] by {
            if i < j {
                assert(scored_lt(best[i], best[j]));
            } else {
                assert(scored_lt(best[j], best[i]));
            }
            lemma_scored_lt_irreflexive(best[i]);
        }
    }
    best.unique_seq_to_set();
    vstd::seq_lib::seq_to_set_is_finite(cands);
    assert(best.to_set().subset_of(cands.to_set())) by {
        assert forall|x: Scored| best.to_set().contains(x) implies cands.to_set().contains(x) by {
            let i = choose|i: int| 0 <= i < best.len() && best[i] == x;
            assert(cands.contains(best[i]));
        }
    }
    vstd::set_lib::lemma_len_subset(best.to_set(), cands.to_set());
    if best.len() < limit {
        vstd::seq_lib::seq_to_set_is_finite(best);
        assert(cands.to_set().subset_of(best.to_set())) by {
            assert forall|x: Scored| cands.to_set().contains(x) implies best.to_set().contains(x) by {
                assert(cands.contains(x));
            }
        }
        vstd::set_lib::lemma_len_subset(cands.to_set(), best.to_set());
    }
}

/// Law: lowering the limit keeps a prefix of the best candidates.
pub proof fn law_top_k_prefix(cands: Seq<Scored>, small: nat, large: nat)
    requires
        small <= large,
    ensures
        top_k(cands, small) == top_k(cands, large).take(
            if small <= top_k(cands, large).len() { small as int } else { top_k(cands, large).len() as int },
        ),
{
    let big = top_k(cands, large);
    lemma_top_k(cands, large);
    let m = if small <= big.len() { small as int } else { big.len() as int };
    let p = big.take(m);
    assert forall|i: int| 0 <= i < p.len() implies cands.contains(#[trigger] p[i]) by {
        assert(p[i] == big[i]);
    }
    assert forall|c: Scored| #![trigger cands.contains(c)]
        cands.contains(c) && !p.contains(c) implies p.len() == small && forall|i: int|
            0 <= i < p.len() ==> scored_lt(#[trigger] p[i], c) by {
        if big.contains(c) {
            let j = choose|j: int| 0 <= j < big.len() && big[j] == c;
            if j < m {
                assert(p[j] == c);
            }
            assert forall|i: int| 0 <= i < p.len() implies scored_lt(#[trigger] p[i], c) by {
                assert(p[i] == big[i]);
            }
        } else {
            assert forall|i: int| 0 <= i < p.len() implies scored_lt(#[trigger] p[i], c) by {
                assert(p[i] == big[i]);
            }
        }
    }
    assert(is_top_k(p, cands, small));
    lemma_top_k(cands, small);
    law_top_k_unique(p, top_k(cands, small), cands, small);
}

/// Two top-k answers agree on every index that both have, below `n`.
proof fn lemma_agree_below(a: Seq<Scored>, b: Seq<Scored>, cands: Seq<Scored>, limit: nat, n: int)
    requires
        is_top_k(a, cands, limit),
        is_top_k(b, cands, limit),
        0 <= n <= a.len(),
        n <= b.len(),
    ensures
        forall|k: int| 0 <= k < n ==> a[k] == b[k],
    decreases n,
{
    if n > 0 {
        let i = n - 1;
        lemma_agree_below(a, b, cands, limit, i);
        lemma_not_before_other(a, b, i, cands, limit);
        lemma_not_before_other(b, a, i, cands, limit);
        if a[i] != b[i] {
            lemma_scored_lt_total(a[i], b[i]);
        }
    }
}

/// When two top-k answers agree below `i`, the element of `x` at `i` does not precede that of `y`:
/// otherwise it would be missing from `y` while preceding one of its members.
proof fn lemma_not_before_other(x: Seq<Scored>, y: Seq<Scored>, i: int, cands: Seq<Scored>, limit: nat)
    requires
        is_top_k(x, cands, limit),
        is_top_k(y, cands, limit),
        0 <= i < x.len(),
        i < y.len(),
        forall|k: int| 0 <= k < i ==> x[k] == y[k],
    ensures
        !scored_lt(x[i], y[i]),
{
    let v = x[i];
    if scored_lt(v, y[i]) {
        if y.contains(v) {
            let j = choose|j: int| 0 <= j < y.len() && y[j] == v;
            if j < i {
                assert(x[j] == v);
                assert(scored_lt(x[j], x[i]));
                lemma_scored_lt_irreflexive(v);
            } else if j == i {
                lemma_scored_lt_irreflexive(v);
            } else {
                assert(scored_lt(y[i], y[j]));
                lemma_scored_lt_asymmetric(v, y[i]);
            }
        } else {
            assert(cands.contains(v));
            assert(scored_lt(y[i], v));
            lemma_scored_lt_asymmetric(v, y[i]);
        }
    }
}

/// A top-k answer that agrees with another on all its indices is at least as long: the next
/// element of a longer one would be left out of a full answer, making the longer one exceed
/// the limit.
proof fn lemma_prefix_top_k(a: Seq<Scored>, b: Seq<Scored>, cands: Seq<Scored>, limit: nat)
    requires
        is_top_k(a, cands, limit),
        is_top_k(b, cands, limit),
        a.len() <= b.len() ==> forall|i: int| 0 <= i < a.len() ==> a[i] == b[i],
    ensures
        a.len() >= b.len(),
{
    if a.len() < b.len() {
        let v = b[a.len() as int];
        assert(cands.contains(v));
        if a.contains(v) {
            let j = choose|j: int| 0 <= j < a.len() && a[j] == v;
            assert(b[j] == v);
            assert(scored_lt(b[j], b[a.len() as int]));
            lemma_scored_lt_irreflexive(v);
        }
    }
}

/// The best matches offered so far, in ascending order, at most `limit` of them.
pub struct BestMatches {
    items: Vec<(u8, Vec<u8>)>,
    limit: usize,
}

/// The scored matches that a list of `(distance, key)` pairs holds.
pub open spec fn scored_view(items: Seq<(u8, Vec<u8>)>) -> Seq<Scored> {
    items.map_values(|p: (u8, Vec<u8>)| (p.0, p.1@))
}

impl View for BestMatches {
    /// The matches kept, in ascending order.
    type V = Seq<Scored>;

    closed spec fn view(&self) -> Seq<Scored> {
        scored_view(self.items@)
    }
}

impl BestMatches {
    /// The most matches kept.
    pub closed spec fn limit(&self) -> nat {
        self.limit as nat
    }

    /// Keeps at most `limit` matches, none yet: the best `limit` of no candidates.
    pub fn new(limit: usize) -> (r: Self)
        ensures
            r@ == Seq::<Scored>::empty(),
            r.limit() == limit,
            is_top_k(r@, Seq::empty(), limit as nat),
    {
        let r = BestMatches { items: Vec::new(), limit };
        assert(r@ =~= Seq::<Scored>::empty());
        r
    }

    /// Offers the match of `key` at `distance`: if the matches kept were the best `limit` of some
    /// candidates, they are now the best `limit` of those and this one.
    pub fn offer(&mut self, distance: u8, key: Vec<u8>)
        ensures
            final(self)@ == offer_step(old(self)@, (distance, key@), old(self).limit()),
            final(self).limit() == old(self).limit(),
            forall|cands: Seq<Scored>|
                is_top_k(old(self)@, cands, old(self).limit()) ==> #[trigger] is_top_k(
                    final(self)@,
                    cands.push((distance, key@)),
                    old(self).limit(),
                ),
    {
        let ghost c: Scored = (distance, key@);
        let ghost s = self@;
        proof {
            assert forall|cands: Seq<Scored>| is_top_k(s, cands, self.limit()) implies #[trigger] is_top_k(
                offer_step(s, c, self.limit()),
                cands.push(c),
                self.limit(),
            ) by {
                lemma_offer_step(s, cands, c, self.limit());
            }
        }
        let n = self.items.len();
        let mut p: usize = 0;
        while p < n && scored_less(self.items[p].0, self.items[p].1.as_slice(), distance, key.as_slice())
            invariant
                n == self.items.len(),
                s == self@,
                c == (distance, key@),
                p <= n,
                forall|i: int| 0 <= i < p ==> scored_lt(#[trigger] s[i], c),
            decreases n - p,
        {
            p = p + 1;
        }
        proof {
            lemma_rank_is(s, c, p as int);
        }
        if p < n && self.items[p].0 == distance && !bytes_less(self.items[p].1.as_slice(), key.as_slice())
            && !bytes_less(key.as_slice(), self.items[p].1.as_slice()) {
            proof {
                if self.items[p as int].1@ != key@ {
                    lemma_bytes_lt_total(self.items[p as int].1@, key@);
                }
                assert(s[p as int] == c);
            }
            return;
        }
        proof {
            if p < n {
                assert(s[p as int] != c);
            }
        }
        if n < self.limit {
            self.items.insert(p, (distance, key));
            assert(self@ =~= s.insert(p as int, c));
        } else if p < n {
            self.items.pop();
            self.items.insert(p, (distance, key));
            assert(self@ =~= s.drop_last().insert(p as int, c));
        }
    }

    /// Reports the matches kept, in order, each with its key as a string; fails with
    /// `DictionaryError::Utf8` exactly when a kept key is not valid UTF-8.
    pub fn into_results(self) -> (r: Result<Vec<SearchResult>, DictionaryError>)
        ensures
            reports_all(self@, r),
    {
        let ghost best = self@;
        let items = self.items;
        let mut results: Vec<SearchResult> = Vec::new();
        for item in it: items.into_iter()
            invariant
                scored_view(items@) == best,
                best == self@,
                it.seq() == items@,
                results@.len() == it.index(),
                forall|j: int| 0 <= j < it.index() ==> valid_utf8(#[trigger] best[j].1),
                forall|j: int| 0 <= j < it.index() ==> reports(#[trigger] results@[j], best[j]),
        {
            let (distance, bytes) = item;
            proof {
                assert(best[it.index() as int] == (distance, bytes@));
            }
            match string_from_utf8(bytes) {
                Ok(key) => {
                    results.push(SearchResult { is_exact: distance == 0, key, distance });
                },
                Err(e) => {
                    assert(!valid_utf8(best[it.index() as int].1));
                    return Err(DictionaryError::Utf8(e));
                },
            }
        }
        Ok(results)
    }
}

} // verus!
