//! Sorting of integer pairs in lexicographic order, used wherever the
//! generator orders things (signals by size, substations by place).
use vstd::prelude::*;
use vstd::relations::{sorted_by, total_ordering};

verus! {

/// Lexicographic order on pairs: first by the first component, then by the
/// second.
pub open spec fn pair_leq(a: (i64, i64), b: (i64, i64)) -> bool {
    a.0 < b.0 || (a.0 == b.0 && a.1 <= b.1)
}

/// The lexicographic order as a relation.
pub open spec fn pair_order() -> spec_fn((i64, i64), (i64, i64)) -> bool {
    |a: (i64, i64), b: (i64, i64)| pair_leq(a, b)
}

/// The lexicographic order is a total order.
pub proof fn lemma_pair_order_total()
    ensures
        total_ordering(pair_order()),
{
    let r = pair_order();
    assert forall|x: (i64, i64), y: (i64, i64)| #[trigger] r(x, y) && #[trigger] r(y, x) implies x
        == y by {}
}

fn pair_le(a: (i64, i64), b: (i64, i64)) -> (r: bool)
    ensures
        r == pair_leq(a, b),
{
    a.0 < b.0 || (a.0 == b.0 && a.1 <= b.1)
}

/// Sorts pairs in lexicographic order.
pub fn sort_pairs(v: &mut Vec<(i64, i64)>)
    ensures
        final(v)@ == old(v)@.sort_by(pair_order()),
{
    broadcast use vstd::seq_lib::to_multiset_insert;

    let ghost input = v@;
    let n = v.len();
    let mut out: Vec<(i64, i64)> = Vec::with_capacity(n);
    let mut i: usize = 0;
    assert(out@ =~= input.take(0));
    while i < n
        invariant
            n == input.len(),
            v@ == input,
            0 <= i <= n,
            sorted_by(out@, pair_order()),
            out@.to_multiset() == input.take(i as int).to_multiset(),
        decreases n - i,
    {
        let x = v[i];
        let mut pos: usize = 0;
        while pos < out.len() && pair_le(out[pos], x)
            invariant
                0 <= pos <= out@.len(),
                forall|k: int| 0 <= k < pos ==> pair_leq(#[trigger] out@[k], x),
            decreases out@.len() - pos,
        {
            pos += 1;
        }
        let ghost before = out@;
        out.insert(pos, x);
        proof {
            assert(out@ == before.insert(pos as int, x));
            assert forall|a: int, b: int| 0 <= a < b < out@.len() implies #[trigger] pair_order()(
                out@[a],
                out@[b],
            ) by {
                if b < pos {
                    assert(pair_order()(before[a], before[b]));
                } else if b == pos {
                    assert(pair_leq(before[a], x));
                } else if a < pos {
                    // before[a] <= x < before[pos] <= before[b - 1]
                    assert(!pair_leq(before[pos as int], x));
                    if b - 1 > pos {
                        assert(pair_order()(before[pos as int], before[b - 1]));
                    }
                } else if a == pos {
                    assert(!pair_leq(before[pos as int], x));
                    if b - 1 > pos {
                        assert(pair_order()(before[pos as int], before[b - 1]));
                    }
                } else {
                    assert(pair_order()(before[a - 1], before[b - 1]));
                }
            }
            assert(input.take(i + 1) =~= input.take(i as int).push(x));
            assert(input.take(i as int).push(x) =~= input.take(i as int).insert(i as int, x));
            vstd::seq_lib::to_multiset_insert(before, pos as int, x);
            vstd::seq_lib::to_multiset_insert(input.take(i as int), i as int, x);
            assert(out@.to_multiset() == before.to_multiset().insert(x));
            assert(input.take(i as int).insert(i as int, x).to_multiset() == input.take(
                i as int,
            ).to_multiset().insert(x));
        }
        i += 1;
    }
    proof {
        assert(input.take(n as int) =~= input);
        lemma_pair_order_total();
        input.lemma_sort_by_ensures(pair_order());
        vstd::seq_lib::lemma_sorted_unique(out@, input.sort_by(pair_order()), pair_order());
    }
    *v = out;
}

/// Sorting pairs of a key and a place: every place of the result holds one
/// of the pairs, each place of the input comes out once, the keys come out
/// in order, and pairs of equal key keep their order.
pub proof fn lemma_indexed_sort(k: Seq<(i64, i64)>)
    requires
        forall|i: int| 0 <= i < k.len() ==> (#[trigger] k[i]).1 == i,
    ensures
        k.sort_by(pair_order()).len() == k.len(),
        forall|i: int|
            0 <= i < k.len() ==> {
                &&& 0 <= (#[trigger] k.sort_by(pair_order())[i]).1 < k.len()
                &&& k.sort_by(pair_order())[i] == k[k.sort_by(pair_order())[i].1 as int]
            },
        forall|i: int, j: int|
            0 <= i < j < k.len() ==> {
                &&& (#[trigger] k.sort_by(pair_order())[i]).1 != (#[trigger] k.sort_by(pair_order())[j]).1
                &&& k.sort_by(pair_order())[i].0 <= k.sort_by(pair_order())[j].0
                &&& k.sort_by(pair_order())[i].0 == k.sort_by(pair_order())[j].0 ==> k.sort_by(
                    pair_order(),
                )[i].1 < k.sort_by(pair_order())[j].1
            },
{
    broadcast use vstd::seq_lib::to_multiset_contains;
    broadcast use vstd::seq_lib::to_multiset_len;

    let s = k.sort_by(pair_order());
    lemma_pair_order_total();
    k.lemma_sort_by_ensures(pair_order());
    assert(s.len() == k.len()) by {
        assert(s.to_multiset().len() == k.to_multiset().len());
    }
    assert forall|i: int| 0 <= i < s.len() implies 0 <= (#[trigger] s[i]).1 < k.len() && s[i] == k[s[i].1 as int] by {
        assert(s.contains(s[i]));
        assert(s.to_multiset().contains(s[i]));
        assert(k.to_multiset().contains(s[i]));
        assert(k.contains(s[i]));
        let m = choose|m: int| 0 <= m < k.len() && k[m] == s[i];
        assert(k[m].1 == m);
    }
    assert(k.no_duplicates()) by {
        assert forall|i: int, j: int| 0 <= i < k.len() && 0 <= j < k.len() && i != j implies k[i] != k[j] by {
            assert(k[i].1 == i);
            assert(k[j].1 == j);
        }
    }
    k.lemma_multiset_has_no_duplicates();
    s.lemma_multiset_has_no_duplicates_conv();
    assert forall|i: int, j: int| 0 <= i < j < k.len() implies {
        &&& (#[trigger] s[i]).1 != (#[trigger] s[j]).1
        &&& s[i].0 <= s[j].0
        &&& s[i].0 == s[j].0 ==> s[i].1 < s[j].1
    } by {
        assert(pair_order()(s[i], s[j]));
        assert(s[i] != s[j]);
    }
}

/// `r` holds the items of `l` in another order: place `i` of `r` holds item
/// `perm[i]` of `l`, and no item is used twice.
pub open spec fn reordering_of<A>(r: Seq<A>, l: Seq<A>, perm: Seq<int>) -> bool {
    &&& r.len() == l.len()
    &&& perm.len() == l.len()
    &&& forall|i: int| 0 <= i < r.len() ==> 0 <= #[trigger] perm[i] < l.len() && r[i] == l[perm[i]]
    &&& forall|i: int, j: int| 0 <= i < j < r.len() ==> #[trigger] perm[i] != #[trigger] perm[j]
}

} // verus!
