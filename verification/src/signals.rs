//! The signal list of the column layout: entries ordered by the
//! length of their texts, then every quality of each.
use crate::blueprint::models::{Quality, Signal};
use crate::blueprint::signals::{
    all_signals, byte_len, entries_fit, entry_signals, lemma_entry_signals, len_ok, push_entry_signals,
    spec_qualities, SignalEntry,
};
use crate::blueprint::sort::{lemma_indexed_sort, lemma_pair_order_total, pair_order, reordering_of, sort_pairs};
use vstd::prelude::*;

verus! {

/// Each entry's key, the length of its type and name, with its place.
pub open spec fn keyed_entries(list: Seq<SignalEntry>) -> Seq<(i64, i64)> {
    Seq::new(
        list.len(),
        |i: int| ((byte_len(list[i].type_@) + byte_len(list[i].name@)) as i64, i as i64),
    )
}

/// The entries by the length of their type and name; entries of equal
/// length keep their order.
pub open spec fn entries_by_length(list: Seq<SignalEntry>) -> Seq<SignalEntry> {
    let order = keyed_entries(list).sort_by(pair_order());
    Seq::new(list.len(), |i: int| list[order[i].1 as int])
}

/// A copy of a signal list entry.
fn copy_entry(e: &SignalEntry) -> (r: SignalEntry)
    ensures
        r == *e,
{
    SignalEntry { type_: e.type_.clone(), name: e.name.clone() }
}

/// Every signal of `list` in every quality (six with the expansion, two
/// without), without the plain virtual signals F, S and T; with `sort`, the
/// entries are first ordered by the length of their type and name, so that
/// the shortest texts are used first.
pub fn get_signals_with_quality(use_dlc: bool, sort: bool, list: &Vec<SignalEntry>) -> (signals:
    Vec<Signal>)
    requires
        entries_fit(list@),
    ensures
        signals@ == all_signals(
            if sort {
                entries_by_length(list@)
            } else {
                list@
            },
            spec_qualities(use_dlc),
        ),
{
    let mut entries: Vec<SignalEntry> = Vec::new();
    if sort {
        let mut keys: Vec<(i64, i64)> = Vec::new();
        let mut j: usize = 0;
        while j < list.len()
            invariant
                0 <= j <= list@.len(),
                entries_fit(list@),
                keys@ == keyed_entries(list@).take(j as int),
            decreases list@.len() - j,
        {
            let e = &list[j];
            let tl = e.type_.as_str().len();
            let nl = e.name.as_str().len();
            proof {
                assert(len_ok(byte_len(list@[j as int].type_@)));
                assert(tl == byte_len(e.type_@));
                assert(nl == byte_len(e.name@));
            }
            keys.push(((tl as i64) + (nl as i64), j as i64));
            proof {
                assert(keys@ =~= keyed_entries(list@).take(j + 1));
            }
            j += 1;
        }
        proof {
            assert(keys@ =~= keyed_entries(list@));
        }
        let ghost unsorted = keys@;
        sort_pairs(&mut keys);
        proof {
            broadcast use vstd::seq_lib::group_to_multiset_ensures;

            lemma_pair_order_total();
            unsorted.lemma_sort_by_ensures(pair_order());
            assert(unsorted.to_multiset().len() == unsorted.len());
            assert(keys@.to_multiset().len() == keys@.len());
        }
        let mut k: usize = 0;
        while k < keys.len()
            invariant
                0 <= k <= keys@.len(),
                keys@ == unsorted.sort_by(pair_order()),
                unsorted == keyed_entries(list@),
                keys@.len() == list@.len(),
                list@.len() < 0x1000_0000_0000_0000,
                forall|x: (i64, i64)| #[trigger] keys@.contains(x) ==> unsorted.contains(x),
                entries@ == Seq::new(list@.len(), |q: int| list@[keys@[q].1 as int]).take(
                    k as int,
                ),
            decreases keys@.len() - k,
        {
            let idx = keys[k].1;
            proof {
                assert(keys@.contains(keys@[k as int]));
                let p = choose|p: int| 0 <= p < unsorted.len() && unsorted[p] == keys@[k as int];
                assert(unsorted[p].1 == p);
            }
            entries.push(copy_entry(&list[idx as usize]));
            proof {
                assert(entries@ =~= Seq::new(list@.len(), |q: int| list@[keys@[q].1 as int]).take(
                    k + 1,
                ));
            }
            k += 1;
        }
        proof {
            assert(entries@ =~= entries_by_length(list@));
        }
    } else {
        let mut j: usize = 0;
        while j < list.len()
            invariant
                0 <= j <= list@.len(),
                entries@ == list@.take(j as int),
            decreases list@.len() - j,
        {
            entries.push(copy_entry(&list[j]));
            proof {
                assert(entries@ =~= list@.take(j + 1));
            }
            j += 1;
        }
        proof {
            assert(entries@ =~= list@);
        }
    }
    let mut quals: Vec<Quality> = Vec::new();
    if use_dlc {
        quals.push(Quality::Normal);
        quals.push(Quality::Uncommon);
        quals.push(Quality::Rare);
        quals.push(Quality::Epic);
        quals.push(Quality::Legendary);
        quals.push(Quality::Unknown);
    } else {
        quals.push(Quality::Normal);
        quals.push(Quality::Unknown);
    }
    proof {
        assert(quals@ =~= spec_qualities(use_dlc));
    }
    let ghost qs = quals@;
    let mut out: Vec<Signal> = Vec::new();
    let mut i: usize = 0;
    while i < entries.len()
        invariant
            0 <= i <= entries@.len(),
            quals@ == qs,
            out@ == all_signals(entries@.take(i as int), qs),
        decreases entries@.len() - i,
    {
        push_entry_signals(&mut out, &entries[i], &quals);
        proof {
            assert(entries@.take(i + 1).drop_last() =~= entries@.take(i as int));
        }
        i += 1;
    }
    proof {
        assert(entries@.take(entries@.len() as int) =~= entries@);
    }
    out
}

/// The length an entry is ordered by.
pub open spec fn entry_len(e: SignalEntry) -> int {
    byte_len(e.type_@) + byte_len(e.name@)
}

/// `r` is `list` reordered by `perm`, shortest entries first, entries of
/// equal length in the order they had.
pub open spec fn length_sorted_reordering(r: Seq<SignalEntry>, list: Seq<SignalEntry>, perm: Seq<int>) -> bool {
    &&& reordering_of(r, list, perm)
    &&& forall|i: int, j: int|
        0 <= i < j < r.len() ==> entry_len(#[trigger] r[i]) <= entry_len(#[trigger] r[j]) && (entry_len(r[i])
            == entry_len(r[j]) ==> perm[i] < perm[j])
}

/// Ordering the entries by length reorders them: shorter texts first, and
/// entries of equal length keep the order they had.
pub proof fn lemma_entries_by_length(list: Seq<SignalEntry>)
    requires
        entries_fit(list),
    ensures
        exists|perm: Seq<int>| #[trigger] length_sorted_reordering(entries_by_length(list), list, perm),
{
    let r = entries_by_length(list);
    let k = keyed_entries(list);
    assert forall|i: int| 0 <= i < list.len() implies (#[trigger] k[i]).0 == entry_len(list[i]) && k[i].1 == i by {
        assert(len_ok(byte_len(list[i].type_@)) && len_ok(byte_len(list[i].name@)));
    }
    lemma_indexed_sort(k);
    let order = k.sort_by(pair_order());
    let perm = Seq::new(list.len(), |i: int| order[i].1 as int);
    assert forall|i: int| 0 <= i < r.len() implies 0 <= #[trigger] perm[i] < list.len() && r[i] == list[perm[i]] by {
        assert(order[i] == k[order[i].1 as int]);
    }
    assert forall|i: int, j: int| 0 <= i < j < r.len() implies entry_len(#[trigger] r[i]) <= entry_len(#[trigger] r[j])
        && (entry_len(r[i]) == entry_len(r[j]) ==> perm[i] < perm[j]) by {
        assert(order[i] == k[order[i].1 as int]);
        assert(order[j] == k[order[j].1 as int]);
    }
    assert(length_sorted_reordering(r, list, perm));
}

/// The signals of entries in order of length come in order of the length
/// of their type and name: each entry's qualities together, entries
/// shortest first.
proof fn lemma_signals_of_sorted_entries(es: Seq<SignalEntry>, quals: Seq<Quality>)
    requires
        forall|i: int, j: int| 0 <= i < j < es.len() ==> entry_len(#[trigger] es[i]) <= entry_len(#[trigger] es[j]),
    ensures
        forall|k: int|
            0 <= k < all_signals(es, quals).len() ==> exists|m: int|
                0 <= m < es.len() && (#[trigger] all_signals(es, quals)[k]).type_ == es[m].type_
                    && all_signals(es, quals)[k].name == es[m].name,
        forall|k: int, l: int|
            0 <= k < l < all_signals(es, quals).len() ==> byte_len((#[trigger] all_signals(es, quals)[k]).type_@)
                + byte_len(all_signals(es, quals)[k].name@) <= byte_len((#[trigger] all_signals(es, quals)[l]).type_@)
                + byte_len(all_signals(es, quals)[l].name@),
        es.len() > 0 ==> forall|k: int|
            0 <= k < all_signals(es, quals).len() ==> byte_len((#[trigger] all_signals(es, quals)[k]).type_@)
                + byte_len(all_signals(es, quals)[k].name@) <= entry_len(es.last()),
    decreases es.len(),
{
    if es.len() > 0 {
        let prev = es.drop_last();
        assert forall|i: int, j: int| 0 <= i < j < prev.len() implies entry_len(#[trigger] prev[i]) <= entry_len(
            #[trigger] prev[j],
        ) by {
            assert(prev[i] == es[i] && prev[j] == es[j]);
        }
        lemma_signals_of_sorted_entries(prev, quals);
        lemma_entry_signals(es.last(), quals);
        let a = all_signals(prev, quals);
        let b = entry_signals(es.last(), quals);
        let all = all_signals(es, quals);
        assert(all == a + b);
        assert forall|k: int| 0 <= k < a.len() implies byte_len((#[trigger] a[k]).type_@) + byte_len(a[k].name@)
            <= entry_len(es.last()) by {
            let m = choose|m: int| 0 <= m < prev.len() && a[k].type_ == prev[m].type_ && a[k].name == prev[m].name;
            assert(prev[m] == es[m]);
            if m < es.len() - 1 {
                assert(entry_len(es[m]) <= entry_len(es[es.len() - 1]));
            }
        }
        assert forall|k: int| 0 <= k < all.len() implies exists|m: int|
            0 <= m < es.len() && (#[trigger] all[k]).type_ == es[m].type_ && all[k].name == es[m].name by {
            if k < a.len() {
                let m = choose|m: int| 0 <= m < prev.len() && a[k].type_ == prev[m].type_ && a[k].name == prev[m].name;
                assert(prev[m] == es[m]);
                assert(all[k] == a[k]);
            } else {
                assert(all[k] == b[k - a.len()]);
                assert(es[es.len() - 1] == es.last());
            }
        }
        assert forall|k: int, l: int| 0 <= k < l < all.len() implies byte_len((#[trigger] all[k]).type_@) + byte_len(
            all[k].name@,
        ) <= byte_len((#[trigger] all[l]).type_@) + byte_len(all[l].name@) by {
            if l < a.len() {
                assert(all[k] == a[k] && all[l] == a[l]);
            } else if k < a.len() {
                assert(all[k] == a[k] && all[l] == b[l - a.len()]);
            } else {
                assert(all[k] == b[k - a.len()] && all[l] == b[l - a.len()]);
            }
        }
        assert forall|k: int| 0 <= k < all.len() implies byte_len((#[trigger] all[k]).type_@) + byte_len(
            all[k].name@,
        ) <= entry_len(es.last()) by {
            if k < a.len() {
                assert(all[k] == a[k]);
            } else {
                assert(all[k] == b[k - a.len()]);
            }
        }
    }
}

/// The column layout's signal list, with sorting (what
/// `get_signals_with_quality` gives), is made from the entries reordered
/// shortest first, equal lengths in their order: each entry's qualities
/// stay together, in the order of the qualities, and the length of type
/// and name never decreases along the list.
pub proof fn lemma_column_signal_list(list: Seq<SignalEntry>, use_dlc: bool)
    requires
        entries_fit(list),
    ensures
        exists|perm: Seq<int>| #[trigger] length_sorted_reordering(entries_by_length(list), list, perm),
        ({
            let r = all_signals(entries_by_length(list), spec_qualities(use_dlc));
            forall|k: int, l: int|
                0 <= k < l < r.len() ==> byte_len((#[trigger] r[k]).type_@) + byte_len(r[k].name@) <= byte_len(
                    (#[trigger] r[l]).type_@,
                ) + byte_len(r[l].name@)
        }),
{
    lemma_entries_by_length(list);
    let es = entries_by_length(list);
    let perm = choose|perm: Seq<int>| #[trigger] length_sorted_reordering(es, list, perm);
    lemma_signals_of_sorted_entries(es, spec_qualities(use_dlc));
}

} // verus!
