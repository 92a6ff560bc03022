//! Sorting a word list into the order that building a dictionary needs: the byte order of the
//! lines' keys (each line without its surrounding white space), and the byte order of the lines
//! themselves among equal keys.
use vstd::prelude::*;
use vstd::multiset::Multiset;
use vstd::utf8::{decode_utf8, encode_utf8};
use crate::text::{has_printable_ends, law_trim_keeps_printable_ends, trim, trimmed};
use crate::dictionary::{
    Dictionary, keys_from_lines, keys_in_order, law_build_refuses_exactly_inversions, line_key,
};
use crate::order::{
    bytes_less, bytes_lt, lemma_bytes_lt_asymmetric, lemma_bytes_lt_irreflexive, lemma_bytes_lt_total, lemma_pair_le_transitive,
    lemma_pair_lt_asymmetric, pair_lt,
};

verus! {

broadcast use vstd::seq_lib::group_to_multiset_ensures, vstd::multiset::group_multiset_axioms;

/// What a line is sorted by: its key (the line without surrounding white space), then its own
/// bytes.
pub open spec fn line_rank(s: String) -> (Seq<u8>, Seq<u8>) {
    (line_key(s@), encode_utf8(s@))
}

/// Line `x` comes no later than line `y`.
pub open spec fn key_le(x: String, y: String) -> bool {
    !pair_lt(line_rank(y), line_rank(x))
}

/// Each line comes no later than any line after it: by key, and by bytes among equal keys.
pub open spec fn sorted_by_key(s: Seq<String>) -> bool {
    forall|i: int, j: int| 0 <= i < j < s.len() ==> #[trigger] key_le(s[i], s[j])
}

proof fn lemma_key_le_transitive(x: String, y: String, z: String)
    requires
        key_le(x, y),
        key_le(y, z),
    ensures
        key_le(x, z),
{
    lemma_pair_le_transitive(line_rank(x), line_rank(y), line_rank(z));
}

/// The key of a line, as bytes.
fn sort_key(s: &String) -> (k: &[u8])
    ensures
        k@ == line_key(s@),
{
    trim(s.as_str()).as_bytes()
}

/// Decides whether line `x` precedes line `y`.
fn line_less(x: &String, y: &String) -> (r: bool)
    ensures
        r == pair_lt(line_rank(*x), line_rank(*y)),
{
    let kx = sort_key(x);
    let ky = sort_key(y);
    if bytes_less(kx, ky) {
        true
    } else if bytes_less(ky, kx) {
        false
    } else {
        proof {
            if kx@ != ky@ {
                lemma_bytes_lt_total(kx@, ky@);
            }
        }
        bytes_less(x.as_str().as_bytes(), y.as_str().as_bytes())
    }
}

/// Merges two sorted lists into one sorted list holding the lines of both; lists already in order
/// are just joined.
fn merge(a: Vec<String>, b: Vec<String>) -> (r: Vec<String>)
    requires
        sorted_by_key(a@),
        sorted_by_key(b@),
    ensures
        r@.to_multiset() == a@.to_multiset().add(b@.to_multiset()),
        sorted_by_key(r@),
        (forall|i: int, j: int| 0 <= i < a@.len() && 0 <= j < b@.len() ==> #[trigger] key_le(a@[i], b@[j]))
            ==> r@ == a@ + b@,
{
    let ghost total = a@.to_multiset().add(b@.to_multiset());
    let ghost a0 = a@;
    let ghost b0 = b@;
    let ghost ordered = forall|i: int, j: int|
        0 <= i < a0.len() && 0 <= j < b0.len() ==> #[trigger] key_le(a0[i], b0[j]);
    let mut a = a;
    let mut b = b;
    // The last lines, taken from the ends of `a` and `b`, from the last one down.
    let mut desc: Vec<String> = Vec::new();
    assert(desc@.reverse() =~= Seq::<String>::empty());
    assert(b0 =~= b@ + desc@.reverse());
    while a.len() > 0 && b.len() > 0
        invariant
            sorted_by_key(a@),
            sorted_by_key(b@),
            forall|i: int, j: int| 0 <= i < j < desc@.len() ==> #[trigger] key_le(desc@[j], desc@[i]),
            forall|i: int, j: int|
                0 <= i < desc@.len() && 0 <= j < a@.len() ==> #[trigger] key_le(a@[j], desc@[i]),
            forall|i: int, j: int|
                0 <= i < desc@.len() && 0 <= j < b@.len() ==> #[trigger] key_le(b@[j], desc@[i]),
            desc@.to_multiset().add(a@.to_multiset()).add(b@.to_multiset()) == total,
            ordered == (forall|i: int, j: int|
                0 <= i < a0.len() && 0 <= j < b0.len() ==> #[trigger] key_le(a0[i], b0[j])),
            ordered ==> a@ == a0 && b0 == b@ + desc@.reverse(),
        decreases a@.len() + b@.len(),
    {
        let la = a.len() - 1;
        let lb = b.len() - 1;
        let ghost a_before = a@;
        let ghost b_before = b@;
        let ghost desc_before = desc@;
        if line_less(&b[lb], &a[la]) {
            proof {
                if ordered {
                    assert(b_before[lb as int] == b0[lb as int]);
                    assert(key_le(a0[la as int], b0[lb as int]));
                }
            }
            let x = a.pop().unwrap();
            proof {
                assert(a_before =~= a@.push(x));
                lemma_pair_lt_asymmetric(line_rank(b_before[lb as int]), line_rank(x));
                assert(key_le(b_before[lb as int], x));
                assert forall|j: int| 0 <= j < b@.len() implies #[trigger] key_le(b@[j], x) by {
                    if j < lb {
                        assert(key_le(b_before[j], b_before[lb as int]));
                        lemma_key_le_transitive(b@[j], b_before[lb as int], x);
                    }
                }
            }
            desc.push(x);
            proof {
                assert(desc@ =~= desc_before.push(x));
                assert forall|i: int, j: int| 0 <= i < j < desc@.len() implies #[trigger] key_le(
                    desc@[j],
                    desc@[i],
                ) by {
                    if j == desc_before.len() {
                        assert(key_le(a_before[la as int], desc_before[i]));
                    }
                }
                assert forall|i: int, j: int|
                    0 <= i < desc@.len() && 0 <= j < a@.len() implies #[trigger] key_le(a@[j], desc@[i]) by {
                    if i < desc_before.len() {
                        assert(key_le(a_before[j], desc_before[i]));
                    } else {
                        assert(key_le(a_before[j], a_before[la as int]));
                    }
                }
                assert forall|i: int, j: int|
                    0 <= i < desc@.len() && 0 <= j < b@.len() implies #[trigger] key_le(b@[j], desc@[i]) by {
                    if i < desc_before.len() {
                        assert(key_le(b_before[j], desc_before[i]));
                    }
                }
                assert(desc@.to_multiset().add(a@.to_multiset()).add(b@.to_multiset()) =~= total);
            }
        } else {
            let x = b.pop().unwrap();
            proof {
                assert(b_before =~= b@.push(x));
                assert(key_le(a_before[la as int], x));
                assert forall|j: int| 0 <= j < a@.len() implies #[trigger] key_le(a@[j], x) by {
                    if j < la {
                        lemma_key_le_transitive(a@[j], a@[la as int], x);
                    }
                }
            }
            desc.push(x);
            proof {
                assert(desc@ =~= desc_before.push(x));
                assert forall|i: int, j: int| 0 <= i < j < desc@.len() implies #[trigger] key_le(
                    desc@[j],
                    desc@[i],
                ) by {
                    if j == desc_before.len() {
                        assert(key_le(b_before[lb as int], desc_before[i]));
                    }
                }
                assert forall|i: int, j: int|
                    0 <= i < desc@.len() && 0 <= j < a@.len() implies #[trigger] key_le(a@[j], desc@[i]) by {
                    if i < desc_before.len() {
                        assert(key_le(a_before[j], desc_before[i]));
                    }
                }
                assert forall|i: int, j: int|
                    0 <= i < desc@.len() && 0 <= j < b@.len() implies #[trigger] key_le(b@[j], desc@[i]) by {
                    if i < desc_before.len() {
                        assert(key_le(b_before[j], desc_before[i]));
                    } else {
                        assert(key_le(b_before[j], b_before[lb as int]));
                    }
                }
                assert(desc@.to_multiset().add(a@.to_multiset()).add(b@.to_multiset()) =~= total);
                if ordered {
                    assert(b_before + desc_before.reverse() =~= b@ + desc@.reverse());
                }
            }
        }
    }
    // What is left of `a` or `b` comes no later than any of `desc`; `desc` is then taken from its
    // end, the first line first.
    let mut out = if a.len() > 0 {
        assert(b@.to_multiset() =~= Multiset::empty());
        proof {
            if ordered {
                assert(b0 =~= desc@.reverse());
            }
        }
        a
    } else {
        assert(a@.to_multiset() =~= Multiset::empty());
        proof {
            if ordered {
                assert(a0 + b0 =~= b@ + desc@.reverse());
            }
        }
        b
    };
    assert(out@.to_multiset().add(desc@.to_multiset()) =~= total);
    while desc.len() > 0
        invariant
            sorted_by_key(out@),
            forall|i: int, j: int| 0 <= i < j < desc@.len() ==> #[trigger] key_le(desc@[j], desc@[i]),
            forall|i: int, j: int|
                0 <= i < desc@.len() && 0 <= j < out@.len() ==> #[trigger] key_le(out@[j], desc@[i]),
            out@.to_multiset().add(desc@.to_multiset()) == total,
            ordered ==> out@ + desc@.reverse() == a0 + b0,
        decreases desc@.len(),
    {
        let ghost out_before = out@;
        let ghost desc_before = desc@;
        let x = desc.pop().unwrap();
        out.push(x);
        proof {
            assert(desc_before =~= desc@.push(x));
            assert(out@ =~= out_before.push(x));
            assert forall|i: int, j: int| 0 <= i < j < out@.len() implies #[trigger] key_le(out@[i], out@[j]) by {
                if j == out_before.len() {
                    assert(key_le(out_before[i], desc_before[desc_before.len() - 1]));
                }
            }
            assert forall|i: int, j: int|
                0 <= i < desc@.len() && 0 <= j < out@.len() implies #[trigger] key_le(out@[j], desc@[i]) by {
                if j < out_before.len() {
                    assert(key_le(out_before[j], desc_before[i]));
                } else {
                    assert(key_le(desc_before[desc_before.len() - 1], desc_before[i]));
                }
            }
            assert(out@.to_multiset().add(desc@.to_multiset()) =~= total);
            if ordered {
                assert(out_before + desc_before.reverse() =~= out@ + desc@.reverse());
            }
        }
    }
    assert(desc@.to_multiset() =~= Multiset::empty());
    assert(out@.to_multiset() =~= total);
    proof {
        if ordered {
            assert(out@ =~= out@ + desc@.reverse());
        }
    }
    out
}

/// Sorts a list of lines by merging sorted halves; a list already in order is left as it is.
fn merge_sort(v: Vec<String>) -> (r: Vec<String>)
    ensures
        r@.to_multiset() == v@.to_multiset(),
        sorted_by_key(r@),
        sorted_by_key(v@) ==> r@ == v@,
    decreases v@.len(),
{
    if v.len() <= 1 {
        return v;
    }
    let ghost all = v@;
    let mut left = v;
    let mid = left.len() / 2;
    let right = left.split_off(mid);
    proof {
        assert(all =~= left@ + right@);
        vstd::seq_lib::lemma_multiset_commutative(left@, right@);
        if sorted_by_key(all) {
            assert forall|i: int, j: int| 0 <= i < j < left@.len() implies #[trigger] key_le(
                left@[i],
                left@[j],
            ) by {
                assert(left@[i] == all[i] && left@[j] == all[j]);
            }
            assert forall|i: int, j: int| 0 <= i < j < right@.len() implies #[trigger] key_le(
                right@[i],
                right@[j],
            ) by {
                assert(right@[i] == all[i + mid] && right@[j] == all[j + mid]);
            }
        }
    }
    let ghost l0 = left@;
    let ghost r0 = right@;
    let a = merge_sort(left);
    let b = merge_sort(right);
    proof {
        if sorted_by_key(all) {
            assert forall|i: int, j: int| 0 <= i < a@.len() && 0 <= j < b@.len() implies #[trigger] key_le(
                a@[i],
                b@[j],
            ) by {
                assert(a@[i] == all[i] && b@[j] == all[j + mid]);
            }
        }
    }
    merge(a, b)
}

/// Law: sorted lines are ready for building: building from them refuses no line.
pub proof fn law_sorted_lines_are_accepted(lines: Seq<String>)
    requires
        sorted_by_key(lines),
    ensures
        keys_from_lines(lines.map_values(|s: String| s@)) is Some,
{
    let views = lines.map_values(|s: String| s@);
    assert forall|i: int, j: int|
        0 <= i < j < views.len() && trimmed(views[i]).len() > 0 && trimmed(views[j]).len() > 0 implies !bytes_lt(
        #[trigger] line_key(views[j]),
        #[trigger] line_key(views[i]),
    ) by {
        assert(key_le(lines[i], lines[j]));
        assert(views[i] == lines[i]@ && views[j] == lines[j]@);
    }
    assert(keys_in_order(views));
    law_build_refuses_exactly_inversions(views);
}

/// Lines in ascending byte order, as a plain sort of strings leaves them.
pub open spec fn sorted_by_bytes(s: Seq<String>) -> bool {
    forall|i: int, j: int|
        0 <= i < j < s.len() ==> !bytes_lt(encode_utf8((#[trigger] s[j])@), encode_utf8((#[trigger] s[i])@))
}

/// Trimming does not reorder the lines of `s`: of two lines, the one that comes first in byte
/// order has a key that does not come later.
pub open spec fn keys_follow_lines(s: Seq<String>) -> bool {
    forall|x: String, y: String|
        s.contains(x) && s.contains(y) && bytes_lt(encode_utf8(x@), encode_utf8(y@)) ==> !bytes_lt(
            #[trigger] line_key(y@),
            #[trigger] line_key(x@),
        )
}

/// Two lines each of which comes no later than the other have the same text.
proof fn lemma_key_le_antisymmetric(x: String, y: String)
    requires
        key_le(x, y),
        key_le(y, x),
    ensures
        line_rank(x) == line_rank(y),
        x@ == y@,
{
    broadcast use vstd::utf8::encode_utf8_decode_utf8;

    if line_key(x@) != line_key(y@) {
        lemma_bytes_lt_total(line_key(x@), line_key(y@));
    }
    if encode_utf8(x@) != encode_utf8(y@) {
        lemma_bytes_lt_total(encode_utf8(x@), encode_utf8(y@));
    }
    assert(decode_utf8(encode_utf8(x@)) == decode_utf8(encode_utf8(y@)));
}

/// Every line comes no later than itself.
proof fn lemma_key_le_reflexive(x: String)
    ensures
        key_le(x, x),
{
    lemma_bytes_lt_irreflexive(line_key(x@));
    lemma_bytes_lt_irreflexive(encode_utf8(x@));
}

/// Two sorted lists of the same lines agree position by position in what they sort by.
proof fn lemma_sorted_ranks_unique(s: Seq<String>, t: Seq<String>)
    requires
        sorted_by_key(s),
        sorted_by_key(t),
        s.to_multiset() == t.to_multiset(),
    ensures
        s.len() == t.len(),
        forall|i: int| 0 <= i < s.len() ==> line_rank(#[trigger] s[i]) == line_rank(t[i]),
    decreases s.len(),
{
    assert(s.len() == s.to_multiset().len() && t.len() == t.to_multiset().len());
    if s.len() > 0 {
        let x = s[0];
        assert(s.contains(x));
        assert(s.to_multiset().count(x) > 0);
        assert(t.contains(x));
        let k = choose|k: int| 0 <= k < t.len() && t[k] == x;
        // `x` comes no later than any line, and no line before position `k` of `t` comes later
        // than `x`: all of those sort like `x`.
        assert forall|j: int| 0 <= j <= k implies line_rank(#[trigger] t[j]) == line_rank(x) by {
            assert(t.contains(t[j]));
            assert(t.to_multiset().count(t[j]) > 0);
            assert(s.contains(t[j]));
            let m = choose|m: int| 0 <= m < s.len() && s[m] == t[j];
            if m == 0 {
                lemma_key_le_reflexive(x);
            }
            assert(key_le(x, t[j]));
            if j < k {
                assert(key_le(t[j], t[k]));
            } else {
                lemma_key_le_reflexive(x);
            }
            lemma_key_le_antisymmetric(x, t[j]);
        }
        let s1 = s.remove(0);
        let t1 = t.remove(k);
        assert(s1.to_multiset() == s.to_multiset().remove(x));
        assert(t1.to_multiset() == t.to_multiset().remove(t[k]));
        assert forall|i: int, j: int| 0 <= i < j < s1.len() implies #[trigger] key_le(s1[i], s1[j]) by {
            assert(s1[i] == s[i + 1] && s1[j] == s[j + 1]);
        }
        assert forall|i: int, j: int| 0 <= i < j < t1.len() implies #[trigger] key_le(t1[i], t1[j]) by {
            let a = if i < k { i } else { i + 1 };
            let b = if j < k { j } else { j + 1 };
            assert(t1[i] == t[a] && t1[j] == t[b]);
        }
        lemma_sorted_ranks_unique(s1, t1);
        assert forall|i: int| 0 <= i < s.len() implies line_rank(#[trigger] s[i]) == line_rank(t[i]) by {
            if i == 0 {
                assert(line_rank(t[0]) == line_rank(x));
            } else {
                assert(s[i] == s1[i - 1]);
                if i - 1 < k {
                    assert(t1[i - 1] == t[i - 1]);
                    assert(line_rank(t[i - 1]) == line_rank(x));
                    assert(line_rank(t[i]) == line_rank(x));
                } else {
                    assert(t1[i - 1] == t[i]);
                }
            }
        }
    }
}

/// Law: sorting fixes the order of the lines fully: two sorted lists of the same lines hold,
/// position by position, lines of the same text.
pub proof fn law_sorted_order_is_unique(s: Seq<String>, t: Seq<String>)
    requires
        sorted_by_key(s),
        sorted_by_key(t),
        s.to_multiset() == t.to_multiset(),
    ensures
        s.len() == t.len(),
        forall|i: int| 0 <= i < s.len() ==> (#[trigger] s[i])@ == t[i]@,
{
    broadcast use vstd::utf8::encode_utf8_decode_utf8;

    lemma_sorted_ranks_unique(s, t);
    assert forall|i: int| 0 <= i < s.len() implies (#[trigger] s[i])@ == t[i]@ by {
        assert(line_rank(s[i]) == line_rank(t[i]));
        assert(decode_utf8(encode_utf8(s[i]@)) == decode_utf8(encode_utf8(t[i]@)));
    }
}

/// Law: where trimming does not reorder the lines, sorting them puts them in plain byte order, as
/// a sort of the strings themselves does.
pub proof fn law_sorted_lines_follow_byte_order(lines: Seq<String>, sorted: Seq<String>)
    requires
        keys_follow_lines(lines),
        sorted.to_multiset() == lines.to_multiset(),
        sorted_by_key(sorted),
    ensures
        sorted_by_bytes(sorted),
{
    assert forall|i: int, j: int| 0 <= i < j < sorted.len() implies !bytes_lt(
        encode_utf8((#[trigger] sorted[j])@),
        encode_utf8((#[trigger] sorted[i])@),
    ) by {
        let x = sorted[i];
        let y = sorted[j];
        assert(sorted.contains(x) && sorted.contains(y));
        assert(sorted.to_multiset().count(x) > 0 && sorted.to_multiset().count(y) > 0);
        assert(lines.contains(x) && lines.contains(y));
        assert(key_le(x, y));
        if bytes_lt(encode_utf8(y@), encode_utf8(x@)) {
            assert(!bytes_lt(line_key(x@), line_key(y@)));
            if line_key(x@) != line_key(y@) {
                lemma_bytes_lt_total(line_key(x@), line_key(y@));
            }
        }
    }
}

/// Law: lines that are each empty, or begin and end with a printable ASCII character other than
/// the space, come out of sorting in plain byte order, as a sort of the strings themselves leaves
/// them.
pub proof fn law_printable_lines_sort_by_bytes(lines: Seq<String>, sorted: Seq<String>)
    requires
        forall|i: int| 0 <= i < lines.len() ==> has_printable_ends(#[trigger] lines[i]@),
        sorted.to_multiset() == lines.to_multiset(),
        sorted_by_key(sorted),
    ensures
        sorted_by_bytes(sorted),
{
    assert forall|x: String, y: String|
        lines.contains(x) && lines.contains(y) && bytes_lt(encode_utf8(x@), encode_utf8(y@)) implies !bytes_lt(
        #[trigger] line_key(y@),
        #[trigger] line_key(x@),
    ) by {
        let i = choose|i: int| 0 <= i < lines.len() && lines[i] == x;
        let j = choose|j: int| 0 <= j < lines.len() && lines[j] == y;
        assert(has_printable_ends(lines[i]@) && has_printable_ends(lines[j]@));
        law_trim_keeps_printable_ends(x@);
        law_trim_keeps_printable_ends(y@);
        lemma_bytes_lt_asymmetric(encode_utf8(x@), encode_utf8(y@));
    }
    law_sorted_lines_follow_byte_order(lines, sorted);
}

impl Dictionary {
    /// Sorts the lines of a word list into the order that `DictionaryBuilder` needs: the same
    /// lines, each one's key (the line without its surrounding white space) coming no later than
    /// the next one's in byte order, and lines of equal keys in the byte order of the lines
    /// themselves. That order is fully fixed (see `law_sorted_order_is_unique`), and where trimming
    /// does not reorder the lines it is their plain byte order. Lines already in that order are left
    /// as they are, so sorting twice gives what sorting once gives.
    pub fn sort_lines(lines: &mut Vec<String>)
        ensures
            final(lines)@.to_multiset() == old(lines)@.to_multiset(),
            sorted_by_key(final(lines)@),
            sorted_by_key(old(lines)@) ==> final(lines)@ == old(lines)@,
            keys_follow_lines(old(lines)@) ==> sorted_by_bytes(final(lines)@),
            (forall|i: int| 0 <= i < old(lines)@.len() ==> has_printable_ends(#[trigger] old(lines)@[i]@))
                ==> sorted_by_bytes(final(lines)@),
    {
        let mut taken: Vec<String> = Vec::new();
        std::mem::swap(lines, &mut taken);
        let mut sorted = merge_sort(taken);
        std::mem::swap(lines, &mut sorted);
        proof {
            if keys_follow_lines(old(lines)@) {
                law_sorted_lines_follow_byte_order(old(lines)@, lines@);
            }
            if forall|i: int| 0 <= i < old(lines)@.len() ==> has_printable_ends(#[trigger] old(lines)@[i]@) {
                law_printable_lines_sort_by_bytes(old(lines)@, lines@);
            }
        }
    }
}

} // verus!
