//! The orders in which keys and scored matches are ranked.
use vstd::prelude::*;

verus! {

/// Lexicographic order on byte strings, the order `<` gives `[u8]` (and `String`):
/// the first differing byte decides, and a proper prefix comes first.
pub open spec fn bytes_lt(a: Seq<u8>, b: Seq<u8>) -> bool
    decreases a.len(),
{
    if a.len() == 0 {
        b.len() > 0
    } else if b.len() == 0 {
        false
    } else if a[0] != b[0] {
        a[0] < b[0]
    } else {
        bytes_lt(a.drop_first(), b.drop_first())
    }
}

/// No byte string precedes itself.
pub proof fn lemma_bytes_lt_irreflexive(a: Seq<u8>)
    ensures
        !bytes_lt(a, a),
    decreases a.len(),
{
    if a.len() > 0 {
        lemma_bytes_lt_irreflexive(a.drop_first());
    }
}

/// Of two byte strings, at most one precedes the other.
pub proof fn lemma_bytes_lt_asymmetric(a: Seq<u8>, b: Seq<u8>)
    requires
        bytes_lt(a, b),
    ensures
        !bytes_lt(b, a),
    decreases a.len(),
{
    if a.len() > 0 && b.len() > 0 && a[0] == b[0] {
        lemma_bytes_lt_asymmetric(a.drop_first(), b.drop_first());
    }
}

/// The order on byte strings is transitive.
pub proof fn lemma_bytes_lt_transitive(a: Seq<u8>, b: Seq<u8>, c: Seq<u8>)
    requires
        bytes_lt(a, b),
        bytes_lt(b, c),
    ensures
        bytes_lt(a, c),
    decreases a.len(),
{
    if a.len() > 0 && b.len() > 0 && c.len() > 0 && a[0] == b[0] && b[0] == c[0] {
        lemma_bytes_lt_transitive(a.drop_first(), b.drop_first(), c.drop_first());
    }
}

/// Of two different byte strings, one precedes the other.
pub proof fn lemma_bytes_lt_total(a: Seq<u8>, b: Seq<u8>)
    requires
        a != b,
    ensures
        bytes_lt(a, b) || bytes_lt(b, a),
    decreases a.len(),
{
    if a.len() == 0 && b.len() == 0 {
        assert(a =~= b);
    } else if a.len() > 0 && b.len() > 0 && a[0] == b[0] {
        if a.drop_first() == b.drop_first() {
            assert(a =~= seq![a[0]] + a.drop_first());
            assert(b =~= seq![b[0]] + b.drop_first());
        }
        lemma_bytes_lt_total(a.drop_first(), b.drop_first());
    }
}

/// The order on byte strings allowing equality is transitive.
pub proof fn lemma_bytes_le_transitive(a: Seq<u8>, b: Seq<u8>, c: Seq<u8>)
    requires
        !bytes_lt(b, a),
        !bytes_lt(c, b),
    ensures
        !bytes_lt(c, a),
{
    if bytes_lt(c, a) {
        if a != b {
            lemma_bytes_lt_total(a, b);
        }
        if b != c {
            lemma_bytes_lt_total(b, c);
        }
        if a == b && b == c {
            lemma_bytes_lt_irreflexive(a);
        } else if a == b {
            lemma_bytes_lt_asymmetric(c, a);
        } else if b == c {
            lemma_bytes_lt_asymmetric(c, a);
        } else {
            lemma_bytes_lt_transitive(a, b, c);
            lemma_bytes_lt_asymmetric(c, a);
        }
    }
}

/// Every key precedes the next one in byte order (so no key occurs twice).
pub open spec fn strictly_ascending(keys: Seq<Seq<u8>>) -> bool {
    forall|i: int, j: int| 0 <= i < j < keys.len() ==> bytes_lt(#[trigger] keys[i], #[trigger] keys[j])
}

/// The lexicographic order on pairs of byte strings: by the first, then by the second.
pub open spec fn pair_lt(x: (Seq<u8>, Seq<u8>), y: (Seq<u8>, Seq<u8>)) -> bool {
    bytes_lt(x.0, y.0) || (x.0 == y.0 && bytes_lt(x.1, y.1))
}

/// Of two pairs, at most one precedes the other.
pub proof fn lemma_pair_lt_asymmetric(x: (Seq<u8>, Seq<u8>), y: (Seq<u8>, Seq<u8>))
    requires
        pair_lt(x, y),
    ensures
        !pair_lt(y, x),
{
    if bytes_lt(x.0, y.0) {
        lemma_bytes_lt_asymmetric(x.0, y.0);
        if y.0 == x.0 {
            lemma_bytes_lt_irreflexive(x.0);
        }
    } else {
        lemma_bytes_lt_asymmetric(x.1, y.1);
        lemma_bytes_lt_irreflexive(x.0);
    }
}

/// The order on pairs allowing equality is transitive.
pub proof fn lemma_pair_le_transitive(
    x: (Seq<u8>, Seq<u8>),
    y: (Seq<u8>, Seq<u8>),
    z: (Seq<u8>, Seq<u8>),
)
    requires
        !pair_lt(y, x),
        !pair_lt(z, y),
    ensures
        !pair_lt(z, x),
{
    // The first components never go down: x.0 <= y.0 <= z.0.
    lemma_bytes_le_transitive(x.0, y.0, z.0);
    if pair_lt(z, x) {
        // So z.0 == x.0, and then x.0 == y.0 == z.0.
        assert(!bytes_lt(z.0, x.0));
        assert(z.0 == x.0);
        if x.0 != y.0 {
            lemma_bytes_lt_total(x.0, y.0);
            if bytes_lt(x.0, y.0) {
                lemma_bytes_lt_asymmetric(x.0, y.0);
            }
        }
        assert(x.0 == y.0);
        lemma_bytes_le_transitive(x.1, y.1, z.1);
    }
}

/// Decides `bytes_lt` on two byte slices.
pub fn bytes_less(a: &[u8], b: &[u8]) -> (r: bool)
    ensures
        r == bytes_lt(a@, b@),
{
    let mut i: usize = 0;
    assert(a@.skip(0) =~= a@);
    assert(b@.skip(0) =~= b@);
    while i < a.len() && i < b.len()
        invariant
            i <= a@.len(),
            i <= b@.len(),
            bytes_lt(a@, b@) == bytes_lt(a@.skip(i as int), b@.skip(i as int)),
        decreases a@.len() - i,
    {
        if a[i] != b[i] {
            return a[i] < b[i];
        }
        assert(a@.skip(i as int).drop_first() =~= a@.skip(i + 1));
        assert(b@.skip(i as int).drop_first() =~= b@.skip(i + 1));
        i = i + 1;
    }
    i < b.len()
}

/// A match scored by its distance: the distance first, then the key's bytes.
pub type Scored = (u8, Seq<u8>);

/// The order of scored matches: by distance, then by key (the order of `(u8, &[u8])` tuples).
pub open spec fn scored_lt(x: Scored, y: Scored) -> bool {
    x.0 < y.0 || (x.0 == y.0 && bytes_lt(x.1, y.1))
}

/// No scored match precedes itself.
pub proof fn lemma_scored_lt_irreflexive(x: Scored)
    ensures
        !scored_lt(x, x),
{
    lemma_bytes_lt_irreflexive(x.1);
}

/// Of two scored matches, at most one precedes the other.
pub proof fn lemma_scored_lt_asymmetric(x: Scored, y: Scored)
    requires
        scored_lt(x, y),
    ensures
        !scored_lt(y, x),
{
    if x.0 == y.0 {
        lemma_bytes_lt_asymmetric(x.1, y.1);
    }
}

/// The order on scored matches is transitive.
pub proof fn lemma_scored_lt_transitive(x: Scored, y: Scored, z: Scored)
    requires
        scored_lt(x, y),
        scored_lt(y, z),
    ensures
        scored_lt(x, z),
{
    if x.0 == y.0 && y.0 == z.0 {
        lemma_bytes_lt_transitive(x.1, y.1, z.1);
    }
}

/// Of two different scored matches, one precedes the other.
pub proof fn lemma_scored_lt_total(x: Scored, y: Scored)
    requires
        x != y,
    ensures
        scored_lt(x, y) || scored_lt(y, x),
{
    if x.0 == y.0 {
        lemma_bytes_lt_total(x.1, y.1);
    }
}

/// Decides `scored_lt` on two scored matches.
pub fn scored_less(d1: u8, k1: &[u8], d2: u8, k2: &[u8]) -> (r: bool)
    ensures
        r == scored_lt((d1, k1@), (d2, k2@)),
{
    if d1 != d2 {
        d1 < d2
    } else {
        bytes_less(k1, k2)
    }
}

} // verus!
