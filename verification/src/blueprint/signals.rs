//! The signals that lamps are given, one per lamp: every signal of the game
//! in each quality, without the ones the display uses itself.
use crate::blueprint::constants::{SIG_F, SIG_S, SIG_T, SIG_TYPE_VIRTUAL};
use crate::blueprint::models::{spec_quality_display, Quality, Signal};
use crate::blueprint::sort::{lemma_indexed_sort, lemma_pair_order_total, pair_order, reordering_of, sort_pairs};
use crate::models::{BlueprintArgs, SignalSorting};
use vstd::prelude::*;

verus! {

/// One signal of the game's signal list: its type and name.
pub struct SignalEntry {
    pub type_: String,
    pub name: String,
}

/// The qualities each signal is offered in.
pub open spec fn spec_qualities(use_dlc: bool) -> Seq<Quality> {
    if use_dlc {
        seq![
            Quality::Normal,
            Quality::Uncommon,
            Quality::Rare,
            Quality::Epic,
            Quality::Legendary,
            Quality::Unknown,
        ]
    } else {
        seq![Quality::Normal, Quality::Unknown]
    }
}

/// The plain virtual signals F, S and T, which the timer uses.
pub open spec fn is_internal_signal(type_: Seq<char>, name: Seq<char>, q: Quality) -> bool {
    &&& type_ == SIG_TYPE_VIRTUAL@
    &&& q == Quality::Normal
    &&& (name == SIG_F@ || name == SIG_S@ || name == SIG_T@)
}

/// The signals made from one entry, one per quality of `quals` in order,
/// without the internal ones.
pub open spec fn entry_signals(e: SignalEntry, quals: Seq<Quality>) -> Seq<Signal>
    decreases quals.len(),
{
    if quals.len() == 0 {
        Seq::empty()
    } else {
        entry_signals(e, quals.drop_last()) + if is_internal_signal(
            e.type_@,
            e.name@,
            quals.last(),
        ) {
            Seq::<Signal>::empty()
        } else {
            seq![Signal { type_: e.type_, name: e.name, quality: Some(quals.last()) }]
        }
    }
}

/// The signals of all entries, entry by entry.
pub open spec fn all_signals(list: Seq<SignalEntry>, quals: Seq<Quality>) -> Seq<Signal>
    decreases list.len(),
{
    if list.len() == 0 {
        Seq::empty()
    } else {
        all_signals(list.drop_last(), quals) + entry_signals(list.last(), quals)
    }
}

/// The number of bytes of a text in UTF-8.
pub open spec fn byte_len(s: Seq<char>) -> int {
    vstd::utf8::encode_utf8(s).len() as int
}

/// What the quality adds to a signal's JSON: nothing for normal quality,
/// whose field is left out.
pub open spec fn json_quality_len(q: Option<Quality>) -> int {
    match q {
        None => 0,
        Some(Quality::Normal) => -13,
        Some(q) => spec_quality_display(q).len() as int,
    }
}

/// The key signals are ordered by.
pub open spec fn sort_key(s: Signal, sorting: SignalSorting) -> int {
    match sorting {
        SignalSorting::Compression => byte_len(s.name@),
        SignalSorting::Json => json_quality_len(s.quality) + byte_len(s.name@) + byte_len(s.type_@)
            + if s.type_@ == "item"@ {
            -10
        } else {
            byte_len(s.type_@)
        },
        SignalSorting::Unsorted => 0,
    }
}

/// Each signal's key with its place.
pub open spec fn keyed(flat: Seq<Signal>, sorting: SignalSorting) -> Seq<(i64, i64)> {
    Seq::new(flat.len(), |i: int| (sort_key(flat[i], sorting) as i64, i as i64))
}

/// The signals in the order of their keys; signals with equal keys keep
/// their order.
pub open spec fn stable_sorted(flat: Seq<Signal>, sorting: SignalSorting) -> Seq<Signal> {
    if sorting is Unsorted {
        flat
    } else {
        let order = keyed(flat, sorting).sort_by(pair_order());
        Seq::new(flat.len(), |i: int| flat[order[i].1 as int])
    }
}

/// Bound on text lengths and list length that keeps keys exact; texts
/// are also no longer than memory can hold.
pub open spec fn len_ok(n: int) -> bool {
    n < 0x1000_0000_0000_0000 && n <= usize::MAX
}

/// Texts short enough that keys are exact.
pub open spec fn entries_fit(list: Seq<SignalEntry>) -> bool {
    &&& list.len() < 0x1000_0000_0000_0000
    &&& forall|i: int|
        0 <= i < list.len() ==> len_ok(byte_len((#[trigger] list[i]).type_@)) && len_ok(byte_len(list[i].name@))
}

/// The signals of one entry.
pub(crate) fn push_entry_signals(out: &mut Vec<Signal>, e: &SignalEntry, quals: &Vec<Quality>)
    ensures
        final(out)@ == old(out)@ + entry_signals(*e, quals@),
{
    let virt = SIG_TYPE_VIRTUAL.to_owned();
    let f = SIG_F.to_owned();
    let s = SIG_S.to_owned();
    let t = SIG_T.to_owned();
    let ghost start = out@;
    let mut k: usize = 0;
    proof {
        assert(quals@.take(0) =~= Seq::<Quality>::empty());
        assert(out@ =~= start + entry_signals(*e, quals@.take(0)));
    }
    while k < quals.len()
        invariant
            0 <= k <= quals@.len(),
            virt@ == SIG_TYPE_VIRTUAL@,
            f@ == SIG_F@,
            s@ == SIG_S@,
            t@ == SIG_T@,
            out@ == start + entry_signals(*e, quals@.take(k as int)),
        decreases quals@.len() - k,
    {
        let q = quals[k];
        let internal = e.type_ == virt && q == Quality::Normal && (e.name == f || e.name == s
            || e.name == t);
        if !internal {
            out.push(Signal { type_: e.type_.clone(), name: e.name.clone(), quality: Some(q) });
        }
        proof {
            assert(quals@.take(k + 1).drop_last() =~= quals@.take(k as int));
            assert(internal == is_internal_signal(e.type_@, e.name@, q));
        }
        k += 1;
    }
    proof {
        assert(quals@.take(quals@.len() as int) =~= quals@);
    }
}

/// Every signal in every quality the options allow, without the plain
/// virtual signals F, S and T, ordered as the options ask: by name length
/// for compression, by the length of the signal's JSON, or as listed.
/// Signals whose keys are equal keep the order of the list.
pub fn get_signals_with_quality(args: &BlueprintArgs, list: &Vec<SignalEntry>) -> (signals: Vec<
    Signal,
>)
    requires
        entries_fit(list@),
    ensures
        signals@ == stable_sorted(
            all_signals(list@, spec_qualities(args.use_dlc)),
            args.signal_sorting,
        ),
{
    let mut quals: Vec<Quality> = Vec::new();
    if args.use_dlc {
        quals.push(Quality::Normal);
        quals.push(Quality::Uncommon);
        quals.push(Quality::Rare);
        quals.push(Quality::Epic);
        quals.push(Quality::Legendary);
        quals.push(Quality::Unknown);
    } else {
        quals.push(Quality::Normal);
        quals.push(Quality::Unknown);
    }
    proof {
        assert(quals@ =~= spec_qualities(args.use_dlc));
    }
    let ghost qs = quals@;
    let mut flat: Vec<Signal> = Vec::new();
    let mut i: usize = 0;
    while i < list.len()
        invariant
            0 <= i <= list@.len(),
            quals@ == qs,
            flat@ == all_signals(list@.take(i as int), qs),
        decreases list@.len() - i,
    {
        push_entry_signals(&mut flat, &list[i], &quals);
        proof {
            assert(list@.take(i + 1).drop_last() =~= list@.take(i as int));
        }
        i += 1;
    }
    proof {
        assert(list@.take(list@.len() as int) =~= list@);
        lemma_all_signals_fit(list@, qs);
    }
    if args.signal_sorting == SignalSorting::Unsorted {
        return flat;
    }
    let ghost sorting = args.signal_sorting;
    let mut keys: Vec<(i64, i64)> = Vec::new();
    let mut j: usize = 0;
    while j < flat.len()
        invariant
            0 <= j <= flat@.len(),
            flat@.len() < 0x6000_0000_0000_0000,
            sorting == args.signal_sorting,
            !(sorting is Unsorted),
            forall|k: int|
                0 <= k < flat@.len() ==> len_ok(byte_len((#[trigger] flat@[k]).type_@)) && len_ok(byte_len(flat@[k].name@)),
            keys@ == keyed(flat@, sorting).take(j as int),
        decreases flat@.len() - j,
    {
        let key = signal_key(&flat[j], args.signal_sorting);
        keys.push((key, j as i64));
        proof {
            assert(keys@ =~= keyed(flat@, sorting).take(j + 1));
        }
        j += 1;
    }
    proof {
        assert(keys@ =~= keyed(flat@, sorting));
    }
    let ghost unsorted = keys@;
    sort_pairs(&mut keys);
    proof {
        broadcast use vstd::seq_lib::group_to_multiset_ensures;

        lemma_pair_order_total();
        unsorted.lemma_sort_by_ensures(pair_order());
        assert(unsorted.to_multiset().len() == unsorted.len());
        assert(keys@.to_multiset().len() == keys@.len());
    }
    let mut out: Vec<Signal> = Vec::new();
    let mut k: usize = 0;
    while k < keys.len()
        invariant
            0 <= k <= keys@.len(),
            keys@ == unsorted.sort_by(pair_order()),
            unsorted == keyed(flat@, sorting),
            keys@.len() == flat@.len(),
            flat@.len() < 0x6000_0000_0000_0000,
            forall|x: (i64, i64)| #[trigger] keys@.contains(x) ==> unsorted.contains(x),
            out@ == Seq::new(flat@.len(), |q: int| flat@[keys@[q].1 as int]).take(k as int),
        decreases keys@.len() - k,
    {
        let idx = keys[k].1;
        proof {
            assert(keys@.contains(keys@[k as int]));
            let p = choose|p: int| 0 <= p < unsorted.len() && unsorted[p] == keys@[k as int];
            assert(unsorted[p].1 == p);
        }
        out.push(flat[idx as usize].clone());
        proof {
            assert(out@ =~= Seq::new(flat@.len(), |q: int| flat@[keys@[q].1 as int]).take(k + 1));
        }
        k += 1;
    }
    proof {
        assert(out@ =~= Seq::new(flat@.len(), |q: int| flat@[keys@[q].1 as int]));
    }
    out
}

/// The signals of entries with short texts have short texts, and there are
/// at most six per entry.
proof fn lemma_all_signals_fit(list: Seq<SignalEntry>, quals: Seq<Quality>)
    requires
        entries_fit(list),
        quals.len() <= 6,
    ensures
        all_signals(list, quals).len() <= 6 * list.len(),
        forall|k: int|
            0 <= k < all_signals(list, quals).len() ==> len_ok(byte_len(
                (#[trigger] all_signals(list, quals)[k]).type_@,
            )) && len_ok(byte_len(all_signals(list, quals)[k].name@)),
    decreases list.len(),
{
    if list.len() > 0 {
        let prev = list.drop_last();
        assert(entries_fit(prev)) by {
            assert forall|i: int| 0 <= i < prev.len() implies len_ok(byte_len((#[trigger] prev[i]).type_@)) && len_ok(byte_len(prev[i].name@)) by {
                assert(prev[i] == list[i]);
            }
        }
        lemma_all_signals_fit(prev, quals);
        let e = list.last();
        assert(len_ok(byte_len(list[list.len() - 1].type_@)));
        lemma_entry_signals(e, quals);
        let a = all_signals(prev, quals);
        let b = entry_signals(e, quals);
        assert forall|k: int| 0 <= k < (a + b).len() implies len_ok(byte_len((#[trigger] (a + b)[k]).type_@)) && len_ok(byte_len((a + b)[k].name@)) by {
            if k >= a.len() {
                assert((a + b)[k] == b[k - a.len()]);
            }
        }
    }
}

/// There are at most as many signals per entry as there are qualities.
pub proof fn lemma_all_signals_len(list: Seq<SignalEntry>, quals: Seq<Quality>)
    requires
        quals.len() <= 6,
    ensures
        all_signals(list, quals).len() <= 6 * list.len(),
    decreases list.len(),
{
    if list.len() > 0 {
        lemma_all_signals_len(list.drop_last(), quals);
        lemma_entry_signals(list.last(), quals);
    }
}

/// The signals of one entry carry its type and name, at most one per quality.
pub proof fn lemma_entry_signals(e: SignalEntry, quals: Seq<Quality>)
    ensures
        entry_signals(e, quals).len() <= quals.len(),
        forall|k: int|
            0 <= k < entry_signals(e, quals).len() ==> (#[trigger] entry_signals(e, quals)[k]).type_
                == e.type_ && entry_signals(e, quals)[k].name == e.name,
    decreases quals.len(),
{
    if quals.len() > 0 {
        lemma_entry_signals(e, quals.drop_last());
    }
}

/// The key of one signal.
fn signal_key(s: &Signal, sorting: SignalSorting) -> (key: i64)
    requires
        !(sorting is Unsorted),
        len_ok(byte_len(s.type_@)),
        len_ok(byte_len(s.name@)),
    ensures
        key == sort_key(*s, sorting),
{
    let ns = s.name.as_str();
    let nl = ns.len();
    proof {
        assert(nl == byte_len(s.name@));
    }
    let name_len = nl as i64;
    match sorting {
        SignalSorting::Compression => name_len,
        _ => {
            let ts = s.type_.as_str();
            let tl = ts.len();
            proof {
                assert(tl == byte_len(s.type_@));
            }
            let type_len = tl as i64;
            let q: i64 = match s.quality {
                None => 0,
                Some(Quality::Normal) => -13,
                Some(q) => q.display_len() as i64,
            };
            let item = "item".to_owned();
            let type_part: i64 = if s.type_ == item {
                -10
            } else {
                type_len
            };
            q + name_len + type_len + type_part
        },
    }
}

/// At most six signals per entry, whatever the order.
pub proof fn lemma_signal_count(list: Seq<SignalEntry>, use_dlc: bool, sorting: SignalSorting)
    requires
        entries_fit(list),
    ensures
        stable_sorted(all_signals(list, spec_qualities(use_dlc)), sorting).len() == all_signals(
            list,
            spec_qualities(use_dlc),
        ).len(),
        all_signals(list, spec_qualities(use_dlc)).len() <= 6 * list.len(),
{
    lemma_all_signals_fit(list, spec_qualities(use_dlc));
}

/// `r` is `flat` reordered by `perm` with the keys in order, signals of
/// equal key in the order they had.
pub open spec fn key_sorted_reordering(r: Seq<Signal>, flat: Seq<Signal>, perm: Seq<int>, sorting: SignalSorting) -> bool {
    &&& reordering_of(r, flat, perm)
    &&& forall|i: int, j: int|
        0 <= i < j < r.len() ==> sort_key(#[trigger] r[i], sorting) <= sort_key(#[trigger] r[j], sorting) && (
        sort_key(r[i], sorting) == sort_key(r[j], sorting) ==> perm[i] < perm[j])
}

/// Sorting signals by a key reorders them: the keys come out in order, and
/// signals of equal key keep the order they had.
pub proof fn lemma_stable_sorted(flat: Seq<Signal>, sorting: SignalSorting)
    requires
        flat.len() <= i64::MAX,
        forall|i: int| 0 <= i < flat.len() ==> i64::MIN <= #[trigger] sort_key(flat[i], sorting) <= i64::MAX,
    ensures
        exists|perm: Seq<int>| #[trigger] key_sorted_reordering(stable_sorted(flat, sorting), flat, perm, sorting),
{
    let r = stable_sorted(flat, sorting);
    if sorting is Unsorted {
        let perm = Seq::new(flat.len(), |i: int| i);
        assert(key_sorted_reordering(r, flat, perm, sorting));
    } else {
        let k = keyed(flat, sorting);
        lemma_indexed_sort(k);
        let order = k.sort_by(pair_order());
        let perm = Seq::new(flat.len(), |i: int| order[i].1 as int);
        assert forall|i: int| 0 <= i < r.len() implies 0 <= #[trigger] perm[i] < flat.len() && r[i] == flat[perm[i]] by {
            assert(order[i] == k[order[i].1 as int]);
        }
        assert forall|i: int, j: int| 0 <= i < j < r.len() implies sort_key(#[trigger] r[i], sorting) <= sort_key(
            #[trigger] r[j],
            sorting,
        ) && (sort_key(r[i], sorting) == sort_key(r[j], sorting) ==> perm[i] < perm[j]) by {
            assert(order[i] == k[order[i].1 as int]);
            assert(order[j] == k[order[j].1 as int]);
            assert(order[i].0 <= order[j].0);
        }
        assert(key_sorted_reordering(r, flat, perm, sorting));
    }
}

/// In the order for JSON size, signals of one type and quality come
/// shortest name first, and of one type and name the normal quality comes
/// before the others.
pub proof fn lemma_json_order(r: Seq<Signal>, flat: Seq<Signal>, perm: Seq<int>)
    requires
        key_sorted_reordering(r, flat, perm, SignalSorting::Json),
    ensures
        forall|i: int, j: int|
            0 <= i < j < r.len() && (#[trigger] r[i]).type_@ == (#[trigger] r[j]).type_@ && r[i].quality
                == r[j].quality ==> byte_len(r[i].name@) <= byte_len(r[j].name@),
        forall|i: int, j: int|
            0 <= i < j < r.len() && (#[trigger] r[i]).type_@ == (#[trigger] r[j]).type_@ && r[i].name@ == r[j].name@
                && r[j].quality == Some(Quality::Normal) ==> r[i].quality == Some(Quality::Normal),
{
    assert forall|i: int, j: int|
        0 <= i < j < r.len() && (#[trigger] r[i]).type_@ == (#[trigger] r[j]).type_@ && r[i].name@ == r[j].name@
            && r[j].quality == Some(Quality::Normal) implies r[i].quality == Some(Quality::Normal) by {
        assert(sort_key(r[i], SignalSorting::Json) <= sort_key(r[j], SignalSorting::Json));
        match r[i].quality {
            Some(q) => {
                if q != Quality::Normal {
                    assert(json_quality_len(r[i].quality) >= 0);
                }
            },
            None => {},
        }
    }
}

/// The generator's signal list sorted for compression or for JSON size (what
/// `get_signals_with_quality` gives) is the unsorted list reordered: the
/// keys come out in order, and signals of equal key keep their unsorted
/// order.
pub proof fn lemma_signal_list_sorted(list: Seq<SignalEntry>, use_dlc: bool, sorting: SignalSorting)
    requires
        entries_fit(list),
    ensures
        exists|perm: Seq<int>|
            #[trigger] key_sorted_reordering(
                stable_sorted(all_signals(list, spec_qualities(use_dlc)), sorting),
                stable_sorted(all_signals(list, spec_qualities(use_dlc)), SignalSorting::Unsorted),
                perm,
                sorting,
            ),
{
    let flat = all_signals(list, spec_qualities(use_dlc));
    lemma_all_signals_fit(list, spec_qualities(use_dlc));
    assert forall|i: int| 0 <= i < flat.len() implies i64::MIN <= #[trigger] sort_key(flat[i], sorting)
        <= i64::MAX by {
        assert(len_ok(byte_len(flat[i].type_@)) && len_ok(byte_len(flat[i].name@)));
        assert(byte_len(flat[i].type_@) >= 0 && byte_len(flat[i].name@) >= 0);
        assert(-13 <= json_quality_len(flat[i].quality) <= 9);
    }
    lemma_stable_sorted(flat, sorting);
    assert(stable_sorted(flat, SignalSorting::Unsorted) == flat);
}

/// The generator's signal list sorted for JSON size: signals of one type
/// and quality come shortest name first, and of one type and name the
/// normal quality comes before the others.
pub proof fn lemma_json_signal_list(list: Seq<SignalEntry>, use_dlc: bool)
    requires
        entries_fit(list),
    ensures
        ({
            let r = stable_sorted(all_signals(list, spec_qualities(use_dlc)), SignalSorting::Json);
            &&& forall|i: int, j: int|
                0 <= i < j < r.len() && (#[trigger] r[i]).type_@ == (#[trigger] r[j]).type_@ && r[i].quality
                    == r[j].quality ==> byte_len(r[i].name@) <= byte_len(r[j].name@)
            &&& forall|i: int, j: int|
                0 <= i < j < r.len() && (#[trigger] r[i]).type_@ == (#[trigger] r[j]).type_@ && r[i].name@
                    == r[j].name@ && r[j].quality == Some(Quality::Normal) ==> r[i].quality == Some(Quality::Normal)
        }),
{
    let flat = all_signals(list, spec_qualities(use_dlc));
    let r = stable_sorted(flat, SignalSorting::Json);
    lemma_signal_list_sorted(list, use_dlc, SignalSorting::Json);
    let perm = choose|perm: Seq<int>| #[trigger] key_sorted_reordering(r, stable_sorted(flat, SignalSorting::Unsorted), perm, SignalSorting::Json);
    lemma_json_order(r, stable_sorted(flat, SignalSorting::Unsorted), perm);
}

/// Whether `s` is one of the signals the timer uses: the normal-quality
/// virtual signals `signal-F`, `signal-S` and `signal-T`.
pub open spec fn is_timer_signal(s: Signal) -> bool {
    &&& s.type_@ == "virtual"@
    &&& s.quality == Some(Quality::Normal)
    &&& (s.name@ == "signal-F"@ || s.name@ == "signal-S"@ || s.name@ == "signal-T"@)
}

/// No signal made for the lamps is one the timer uses.
pub proof fn lemma_all_signals_avoid_timer(list: Seq<SignalEntry>, quals: Seq<Quality>)
    ensures
        forall|k: int| 0 <= k < all_signals(list, quals).len() ==> !is_timer_signal(#[trigger] all_signals(list, quals)[k]),
    decreases list.len(),
{
    if list.len() > 0 {
        lemma_all_signals_avoid_timer(list.drop_last(), quals);
        lemma_entry_signals_avoid_timer(list.last(), quals);
        let a = all_signals(list.drop_last(), quals);
        let b = entry_signals(list.last(), quals);
        assert forall|k: int| 0 <= k < (a + b).len() implies !is_timer_signal(#[trigger] (a + b)[k]) by {
            if k >= a.len() {
                assert((a + b)[k] == b[k - a.len()]);
            } else {
                assert((a + b)[k] == a[k]);
            }
        }
    }
}

proof fn lemma_entry_signals_avoid_timer(e: SignalEntry, quals: Seq<Quality>)
    ensures
        forall|k: int| 0 <= k < entry_signals(e, quals).len() ==> !is_timer_signal(#[trigger] entry_signals(e, quals)[k]),
    decreases quals.len(),
{
    if quals.len() > 0 {
        lemma_entry_signals_avoid_timer(e, quals.drop_last());
        let a = entry_signals(e, quals.drop_last());
        let r = entry_signals(e, quals);
        assert forall|k: int| 0 <= k < r.len() implies !is_timer_signal(#[trigger] r[k]) by {
            if k < a.len() {
                assert(r[k] == a[k]);
            } else {
                assert(r[k] == (Signal { type_: e.type_, name: e.name, quality: Some(quals.last()) }));
            }
        }
    }
}

/// The generator's signal list, sorted or not (what `get_signals_with_quality`
/// gives), holds none of the signals the timer uses.
pub proof fn lemma_signal_list_avoids_timer(list: Seq<SignalEntry>, use_dlc: bool, sorting: SignalSorting)
    requires
        entries_fit(list),
    ensures
        forall|k: int|
            0 <= k < stable_sorted(all_signals(list, spec_qualities(use_dlc)), sorting).len() ==> !is_timer_signal(
                #[trigger] stable_sorted(all_signals(list, spec_qualities(use_dlc)), sorting)[k],
            ),
{
    let flat = all_signals(list, spec_qualities(use_dlc));
    lemma_all_signals_avoid_timer(list, spec_qualities(use_dlc));
    lemma_signal_list_sorted(list, use_dlc, sorting);
    let perm = choose|perm: Seq<int>| #[trigger] key_sorted_reordering(
        stable_sorted(flat, sorting),
        stable_sorted(flat, SignalSorting::Unsorted),
        perm,
        sorting,
    );
    let r = stable_sorted(flat, sorting);
    assert(stable_sorted(flat, SignalSorting::Unsorted) == flat);
    assert forall|k: int| 0 <= k < r.len() implies !is_timer_signal(#[trigger] r[k]) by {
        assert(0 <= perm[k] < flat.len() && r[k] == flat[perm[k]]);
    }
}

} // verus!
