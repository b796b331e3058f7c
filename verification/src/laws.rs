//! What holds of every inventory, stated over the pictures of the records.

use vstd::prelude::*;
use crate::inventory::{
    absorb, deduped, lemma_first_where, lemma_rank_order_strict, lemma_rank_order_total,
    lemma_rank_order_transitive, listed_after, name_slot, named, rank_before, rank_slot, ranked,
    reconciled,
};
use crate::network::Record;

verus! {

/// No two records of the list share a name.
pub open spec fn distinct_names(list: Seq<Record>) -> bool {
    forall|i: int, j: int|
        #![trigger list[i], list[j]]
        0 <= i < j < list.len() ==> list[i].ssid != list[j].ssid
}

/// No record of the list is listed before an earlier one.
pub open spec fn in_rank_order(list: Seq<Record>) -> bool {
    forall|i: int, j: int|
        #![trigger list[i], list[j]]
        0 <= i < j < list.len() ==> !rank_before(list[j], list[i])
}

/// Each record of the list is listed before every later one.
pub open spec fn strictly_ranked(list: Seq<Record>) -> bool {
    forall|i: int, j: int|
        #![trigger list[i], list[j]]
        0 <= i < j < list.len() ==> rank_before(list[i], list[j])
}

/// Whether the list holds a record named `ssid`.
pub open spec fn holds_name(list: Seq<Record>, ssid: Seq<char>) -> bool {
    exists|i: int| 0 <= i < list.len() && (#[trigger] list[i]).ssid == ssid
}

/// A place where the list holds a record named `ssid`, if it holds one.
pub open spec fn place_of(list: Seq<Record>, ssid: Seq<char>) -> int {
    choose|i: int| 0 <= i < list.len() && (#[trigger] list[i]).ssid == ssid
}

/// Record `k` is the one that its name keeps: it is stronger than every
/// earlier record of its name and at least as strong as every later one.
pub open spec fn is_best_at(scanned: Seq<Record>, k: int) -> bool {
    &&& 0 <= k < scanned.len()
    &&& forall|j: int|
        0 <= j < scanned.len() && (#[trigger] scanned[j]).ssid == scanned[k].ssid ==> (j < k
            ==> scanned[j].signal < scanned[k].signal) && (j > k ==> scanned[j].signal
            <= scanned[k].signal)
}

/// Whether `record` is the record that its name keeps among `scanned`.
pub open spec fn is_best_of(scanned: Seq<Record>, record: Record) -> bool {
    exists|k: int| #[trigger] is_best_at(scanned, k) && scanned[k] == record
}

/// The list holds one record for each name among `scanned`, and that
/// record is the one the name keeps.
pub open spec fn keeps_best(list: Seq<Record>, scanned: Seq<Record>) -> bool {
    &&& distinct_names(list)
    &&& forall|i: int| 0 <= i < list.len() ==> is_best_of(scanned, #[trigger] list[i])
    &&& forall|k: int| 0 <= k < scanned.len() ==> holds_name(list, (#[trigger] scanned[k]).ssid)
}

/// The list is the inventory of `scanned`: one record for each name, the
/// one the name keeps, each listed before every later one.
pub open spec fn is_inventory_of(list: Seq<Record>, scanned: Seq<Record>) -> bool {
    keeps_best(list, scanned) && strictly_ranked(list)
}

/// Seeing one more record keeps one record per name, the one the name
/// keeps.
pub proof fn lemma_absorb_keeps_best(best: Seq<Record>, scanned: Seq<Record>, record: Record)
    requires
        keeps_best(best, scanned),
    ensures
        keeps_best(absorb(best, record), scanned.push(record)),
{
    let now = absorb(best, record);
    let all = scanned.push(record);
    let n = scanned.len() as int;
    let slot = name_slot(best, record.ssid);
    lemma_first_where(best, named(record.ssid), slot);
    assert(forall|j: int| 0 <= j < slot ==> !named(record.ssid)(#[trigger] best[j]));
    // every record that `best` holds is the best of its name in `scanned`
    assert forall|i: int| 0 <= i < best.len() && best[i].ssid != record.ssid implies is_best_of(
        all,
        #[trigger] best[i],
    ) by {
        assert(is_best_of(scanned, best[i]));
        let k = choose|k: int| #[trigger] is_best_at(scanned, k) && scanned[k] == best[i];
        assert forall|j: int|
            0 <= j < all.len() && (#[trigger] all[j]).ssid == all[k].ssid implies (j < k
            ==> all[j].signal < all[k].signal) && (j > k ==> all[j].signal <= all[k].signal) by {
            if j < n {
                assert(scanned[j].ssid == scanned[k].ssid);
            }
        }
        assert(is_best_at(all, k));
        assert(all[k] == best[i]);
    }
    if slot == best.len() {
        assert forall|j: int| 0 <= j < n implies (#[trigger] scanned[j]).ssid != record.ssid by {
            if scanned[j].ssid == record.ssid {
                assert(holds_name(best, scanned[j].ssid));
                let i = place_of(best, scanned[j].ssid);
                assert(named(record.ssid)(best[i]));
            }
        }
        assert forall|j: int|
            0 <= j < all.len() && (#[trigger] all[j]).ssid == all[n].ssid implies (j < n
            ==> all[j].signal < all[n].signal) && (j > n ==> all[j].signal <= all[n].signal) by {
            if j < n {
                assert(scanned[j].ssid == record.ssid);
            }
        }
        assert(is_best_at(all, n));
        assert forall|i: int| 0 <= i < now.len() implies is_best_of(all, #[trigger] now[i]) by {
            if i < best.len() {
                assert(!named(record.ssid)(best[i]));
                assert(now[i] == best[i]);
            } else {
                assert(all[n] == now[i]);
            }
        }
        assert forall|k: int| 0 <= k < all.len() implies holds_name(
            now,
            (#[trigger] all[k]).ssid,
        ) by {
            if k < n {
                assert(holds_name(best, scanned[k].ssid));
                let i = place_of(best, scanned[k].ssid);
                assert(now[i].ssid == all[k].ssid);
            } else {
                assert(now[best.len() as int].ssid == all[k].ssid);
            }
        }
        assert forall|i: int, j: int|
            #![trigger now[i], now[j]]
            0 <= i < j < now.len() implies now[i].ssid != now[j].ssid by {
            if j == best.len() {
                assert(!named(record.ssid)(best[i]));
            } else {
                assert(best[i].ssid != best[j].ssid);
            }
        }
    } else {
        assert(named(record.ssid)(best[slot]));
        assert(is_best_of(scanned, best[slot]));
        let k0 = choose|k: int| #[trigger] is_best_at(scanned, k) && scanned[k] == best[slot];
        assert forall|i: int| 0 <= i < best.len() && i != slot implies (#[trigger] best[i]).ssid
            != record.ssid by {
            if i < slot {
                assert(best[i].ssid != best[slot].ssid);
            } else {
                assert(best[slot].ssid != best[i].ssid);
            }
        }
        if record.signal > best[slot].signal {
            assert forall|j: int|
                0 <= j < all.len() && (#[trigger] all[j]).ssid == all[n].ssid implies (j < n
                ==> all[j].signal < all[n].signal) && (j > n ==> all[j].signal
                <= all[n].signal) by {
                if j < n {
                    assert(scanned[j].ssid == scanned[k0].ssid);
                }
            }
            assert(is_best_at(all, n));
            assert(all[n] == now[slot]);
        } else {
            assert forall|j: int|
                0 <= j < all.len() && (#[trigger] all[j]).ssid == all[k0].ssid implies (j < k0
                ==> all[j].signal < all[k0].signal) && (j > k0 ==> all[j].signal
                <= all[k0].signal) by {
                if j < n {
                    assert(scanned[j].ssid == scanned[k0].ssid);
                }
            }
            assert(is_best_at(all, k0));
            assert(all[k0] == now[slot]);
        }
        assert(is_best_of(all, now[slot]));
        assert forall|i: int| 0 <= i < now.len() implies is_best_of(all, #[trigger] now[i]) by {
            if i != slot {
                assert(best[i].ssid != record.ssid);
                assert(now[i] == best[i]);
            }
        }
        assert forall|i: int| 0 <= i < now.len() implies (#[trigger] now[i]).ssid
            == best[i].ssid by {}
        assert forall|k: int| 0 <= k < all.len() implies holds_name(
            now,
            (#[trigger] all[k]).ssid,
        ) by {
            if k < n {
                assert(holds_name(best, scanned[k].ssid));
                let i = place_of(best, scanned[k].ssid);
                assert(now[i].ssid == all[k].ssid);
            } else {
                assert(now[slot].ssid == all[k].ssid);
            }
        }
        assert forall|i: int, j: int|
            #![trigger now[i], now[j]]
            0 <= i < j < now.len() implies now[i].ssid != now[j].ssid by {
            assert(best[i].ssid != best[j].ssid);
        }
    }
}

/// Deduplication keeps one record per name, the one the name keeps.
pub proof fn lemma_deduped_keeps_best(scanned: Seq<Record>)
    ensures
        keeps_best(deduped(scanned), scanned),
    decreases scanned.len(),
{
    if scanned.len() > 0 {
        lemma_deduped_keeps_best(scanned.drop_last());
        lemma_absorb_keeps_best(deduped(scanned.drop_last()), scanned.drop_last(), scanned.last());
        assert(scanned.drop_last().push(scanned.last()) =~= scanned);
    }
}

/// Ranking rearranges a list: it holds the same records, each as often.
pub proof fn lemma_ranked_permutes(list: Seq<Record>)
    ensures
        ranked(list).to_multiset() == list.to_multiset(),
        ranked(list).len() == list.len(),
        forall|record: Record| ranked(list).contains(record) <==> list.contains(record),
    decreases list.len(),
{
    broadcast use vstd::seq_lib::to_multiset_contains;

    if list.len() > 0 {
        let before = ranked(list.drop_last());
        lemma_ranked_permutes(list.drop_last());
        lemma_first_where(before, listed_after(list.last()), 0);
        vstd::seq_lib::to_multiset_insert(before, rank_slot(before, list.last()), list.last());
        vstd::seq_lib::to_multiset_build(list.drop_last(), list.last());
        assert(list.drop_last().push(list.last()) =~= list);
    }
    assert forall|record: Record| ranked(list).contains(record) <==> list.contains(record) by {
        assert(ranked(list).to_multiset().count(record) == list.to_multiset().count(record));
    }
}

/// A ranked list is in listing order.
pub proof fn lemma_ranked_in_order(list: Seq<Record>)
    ensures
        in_rank_order(ranked(list)),
    decreases list.len(),
{
    if list.len() > 0 {
        let before = ranked(list.drop_last());
        let record = list.last();
        let slot = rank_slot(before, record);
        let now = ranked(list);
        lemma_ranked_in_order(list.drop_last());
        lemma_first_where(before, listed_after(record), slot);
        assert forall|j: int| slot <= j < before.len() implies !rank_before(
            #[trigger] before[j],
            record,
        ) by {
            assert(listed_after(record)(before[slot]));
            if rank_before(before[j], record) {
                lemma_rank_order_transitive(before[j], record, before[slot]);
                lemma_rank_order_strict(before[slot], before[slot]);
                if j > slot {
                    assert(!rank_before(before[j], before[slot]));
                }
            }
        }
        assert forall|i: int, j: int|
            #![trigger now[i], now[j]]
            0 <= i < j < now.len() implies !rank_before(now[j], now[i]) by {
            if i == slot {
                assert(now[j] == before[j - 1]);
            } else if j == slot {
                assert(now[i] == before[i]);
                assert(!listed_after(record)(before[i]));
            } else {
                let bi = if i < slot { i } else { i - 1 };
                let bj = if j < slot { j } else { j - 1 };
                assert(now[i] == before[bi] && now[j] == before[bj]);
                assert(!rank_before(before[bj], before[bi]));
            }
        }
    }
}

/// In a list in listing order whose names differ, each record is listed
/// before every later one.
pub proof fn lemma_distinct_order_is_strict(list: Seq<Record>)
    requires
        in_rank_order(list),
        distinct_names(list),
    ensures
        strictly_ranked(list),
{
    assert forall|i: int, j: int|
        #![trigger list[i], list[j]]
        0 <= i < j < list.len() implies rank_before(list[i], list[j]) by {
        lemma_rank_order_total(list[i], list[j]);
    }
}

/// A list whose records are each listed before every later one holds no
/// record twice and is in listing order.
pub proof fn lemma_strict_order(list: Seq<Record>)
    requires
        strictly_ranked(list),
    ensures
        in_rank_order(list),
        list.no_duplicates(),
{
    assert forall|i: int, j: int|
        #![trigger list[i], list[j]]
        0 <= i < j < list.len() implies !rank_before(list[j], list[i]) && list[i] != list[j] by {
        lemma_rank_order_strict(list[i], list[j]);
    }
    assert forall|i: int, j: int|
        0 <= i < list.len() && 0 <= j < list.len() && i != j implies list[i] != list[j] by {
        if i < j {
            assert(rank_before(list[i], list[j]));
            lemma_rank_order_strict(list[i], list[j]);
        } else {
            assert(rank_before(list[j], list[i]));
            lemma_rank_order_strict(list[j], list[i]);
        }
    }
}

/// Ranking a list of different names leaves the names different.
pub proof fn lemma_ranked_keeps_names_distinct(list: Seq<Record>)
    requires
        distinct_names(list),
    ensures
        distinct_names(ranked(list)),
    decreases list.len(),
{
    if list.len() > 0 {
        let shorter = list.drop_last();
        let before = ranked(shorter);
        let record = list.last();
        let slot = rank_slot(before, record);
        let now = ranked(list);
        assert forall|i: int, j: int|
            #![trigger shorter[i], shorter[j]]
            0 <= i < j < shorter.len() implies shorter[i].ssid != shorter[j].ssid by {
            assert(list[i].ssid != list[j].ssid);
        }
        lemma_ranked_keeps_names_distinct(shorter);
        lemma_ranked_permutes(shorter);
        lemma_first_where(before, listed_after(record), slot);
        assert forall|i: int| 0 <= i < before.len() implies (#[trigger] before[i]).ssid
            != record.ssid by {
            assert(before.contains(before[i]));
            assert(shorter.contains(before[i]));
            let k = choose|k: int| 0 <= k < shorter.len() && shorter[k] == before[i];
            assert(list[k].ssid != list[list.len() - 1].ssid);
        }
        assert forall|i: int, j: int|
            #![trigger now[i], now[j]]
            0 <= i < j < now.len() implies now[i].ssid != now[j].ssid by {
            if i == slot {
                assert(now[j] == before[j - 1]);
            } else if j == slot {
                assert(now[i] == before[i]);
            } else {
                let bi = if i < slot { i } else { i - 1 };
                let bj = if j < slot { j } else { j - 1 };
                assert(now[i] == before[bi] && now[j] == before[bj]);
                assert(before[bi].ssid != before[bj].ssid);
            }
        }
    }
}

/// The reconciled list is the inventory of what was scanned.
pub proof fn lemma_reconciled_is_inventory(scanned: Seq<Record>)
    ensures
        is_inventory_of(reconciled(scanned), scanned),
{
    let best = deduped(scanned);
    let list = reconciled(scanned);
    lemma_deduped_keeps_best(scanned);
    lemma_ranked_permutes(best);
    lemma_ranked_in_order(best);
    lemma_ranked_keeps_names_distinct(best);
    lemma_distinct_order_is_strict(list);
    assert forall|i: int| 0 <= i < list.len() implies is_best_of(scanned, #[trigger] list[i]) by {
        assert(list.contains(list[i]));
        assert(best.contains(list[i]));
        let k = choose|k: int| 0 <= k < best.len() && best[k] == list[i];
        assert(is_best_of(scanned, best[k]));
    }
    assert forall|k: int| 0 <= k < scanned.len() implies holds_name(
        list,
        (#[trigger] scanned[k]).ssid,
    ) by {
        assert(holds_name(best, scanned[k].ssid));
        let i = place_of(best, scanned[k].ssid);
        assert(best.contains(best[i]));
        assert(list.contains(best[i]));
        let m = choose|m: int| 0 <= m < list.len() && list[m] == best[i];
        assert(list[m].ssid == scanned[k].ssid);
    }
}

/// Two lists hold the same records.
pub open spec fn same_members(a: Seq<Record>, b: Seq<Record>) -> bool {
    forall|record: Record| a.contains(record) <==> b.contains(record)
}

/// There is one way only to list a set of records so that each is listed
/// before every later one.
pub proof fn lemma_strict_listing_unique(a: Seq<Record>, b: Seq<Record>)
    requires
        strictly_ranked(a),
        strictly_ranked(b),
        same_members(a, b),
    ensures
        a == b,
    decreases a.len(),
{
    if a.len() == 0 {
        if b.len() > 0 {
            assert(b.contains(b[0]));
            assert(a.contains(b[0]));
        }
        assert(a =~= b);
    } else {
        let last = a.last();
        assert(a.contains(last));
        assert(b.contains(last));
        let q = choose|q: int| 0 <= q < b.len() && b[q] == last;
        assert(b.contains(b.last()));
        assert(a.contains(b.last()));
        let p = choose|p: int| 0 <= p < a.len() && a[p] == b.last();
        if q < b.len() - 1 {
            assert(rank_before(b[q], b[b.len() - 1]));
            lemma_rank_order_strict(last, b.last());
            if p < a.len() - 1 {
                assert(rank_before(a[p], a[a.len() - 1]));
            }
            assert(false);
        }
        let a0 = a.drop_last();
        let b0 = b.drop_last();
        lemma_strict_order(a);
        lemma_strict_order(b);
        assert forall|record: Record| a0.contains(record) <==> b0.contains(record) by {
            if a0.contains(record) {
                let i = choose|i: int| 0 <= i < a0.len() && a0[i] == record;
                assert(a[i] == record);
                assert(a.contains(record));
                assert(b.contains(record));
                let j = choose|j: int| 0 <= j < b.len() && b[j] == record;
                assert(j != b.len() - 1) by {
                    if j == b.len() - 1 {
                        assert(a[i] == a[a.len() - 1]);
                    }
                }
                assert(b0[j] == record);
            }
            if b0.contains(record) {
                let j = choose|j: int| 0 <= j < b0.len() && b0[j] == record;
                assert(b[j] == record);
                assert(b.contains(record));
                assert(a.contains(record));
                let i = choose|i: int| 0 <= i < a.len() && a[i] == record;
                assert(i != a.len() - 1) by {
                    if i == a.len() - 1 {
                        assert(b[j] == b[b.len() - 1]);
                    }
                }
                assert(a0[i] == record);
            }
        }
        assert forall|i: int, j: int|
            #![trigger a0[i], a0[j]]
            0 <= i < j < a0.len() implies rank_before(a0[i], a0[j]) by {
            assert(rank_before(a[i], a[j]));
        }
        assert forall|i: int, j: int|
            #![trigger b0[i], b0[j]]
            0 <= i < j < b0.len() implies rank_before(b0[i], b0[j]) by {
            assert(rank_before(b[i], b[j]));
        }
        lemma_strict_listing_unique(a0, b0);
        assert(a =~= a0.push(last));
        assert(b =~= b0.push(last));
    }
}

/// A name keeps one record only.
pub proof fn lemma_best_unique(scanned: Seq<Record>, j: int, k: int)
    requires
        is_best_at(scanned, j),
        is_best_at(scanned, k),
        scanned[j].ssid == scanned[k].ssid,
    ensures
        j == k,
{
}

/// An inventory holds exactly the records that the names keep.
pub proof fn lemma_inventory_members(list: Seq<Record>, scanned: Seq<Record>)
    requires
        keeps_best(list, scanned),
    ensures
        forall|record: Record| list.contains(record) <==> is_best_of(scanned, record),
{
    assert forall|record: Record| list.contains(record) <==> is_best_of(scanned, record) by {
        if list.contains(record) {
            let i = choose|i: int| 0 <= i < list.len() && list[i] == record;
            assert(is_best_of(scanned, list[i]));
        }
        if is_best_of(scanned, record) {
            let k = choose|k: int| #[trigger] is_best_at(scanned, k) && scanned[k] == record;
            assert(holds_name(list, scanned[k].ssid));
            let i = place_of(list, scanned[k].ssid);
            assert(is_best_of(scanned, list[i]));
            let m = choose|m: int| #[trigger] is_best_at(scanned, m) && scanned[m] == list[i];
            lemma_best_unique(scanned, m, k);
            assert(list[i] == record);
        }
    }
}

/// Scanned records have one inventory only: reconciling them again gives
/// the same list, record for record.
pub proof fn lemma_inventory_unique(a: Seq<Record>, b: Seq<Record>, scanned: Seq<Record>)
    requires
        is_inventory_of(a, scanned),
        is_inventory_of(b, scanned),
    ensures
        a == b,
{
    lemma_inventory_members(a, scanned);
    lemma_inventory_members(b, scanned);
    lemma_strict_listing_unique(a, b);
}

/// Records of one name and one signal strength are the same record.
pub open spec fn ties_agree(scanned: Seq<Record>) -> bool {
    forall|j: int, k: int|
        #![trigger scanned[j], scanned[k]]
        0 <= j < scanned.len() && 0 <= k < scanned.len() && scanned[j].ssid == scanned[k].ssid
            && scanned[j].signal == scanned[k].signal ==> scanned[j] == scanned[k]
}

/// `record` was scanned, and no scanned record of its name is stronger.
pub open spec fn is_strongest(scanned: Seq<Record>, record: Record) -> bool {
    &&& scanned.contains(record)
    &&& forall|j: int|
        0 <= j < scanned.len() && (#[trigger] scanned[j]).ssid == record.ssid ==> scanned[j].signal
            <= record.signal
}

/// Where ties agree, the record that a name keeps is its strongest, in
/// whatever order the records were scanned.
pub proof fn lemma_best_is_strongest(scanned: Seq<Record>, record: Record)
    requires
        ties_agree(scanned),
    ensures
        is_best_of(scanned, record) <==> is_strongest(scanned, record),
{
    if is_best_of(scanned, record) {
        let k = choose|k: int| #[trigger] is_best_at(scanned, k) && scanned[k] == record;
        assert(scanned.contains(record));
        assert forall|j: int|
            0 <= j < scanned.len() && (#[trigger] scanned[j]).ssid
                == record.ssid implies scanned[j].signal <= record.signal by {
            assert(scanned[j].ssid == scanned[k].ssid);
        }
    }
    if is_strongest(scanned, record) {
        lemma_deduped_keeps_best(scanned);
        let best = deduped(scanned);
        let m = choose|m: int| 0 <= m < scanned.len() && scanned[m] == record;
        assert(holds_name(best, scanned[m].ssid));
        let i = place_of(best, scanned[m].ssid);
        assert(is_best_of(scanned, best[i]));
        let k = choose|k: int| #[trigger] is_best_at(scanned, k) && scanned[k] == best[i];
        assert(scanned[k].signal <= record.signal);
        assert(scanned[m].ssid == scanned[k].ssid);
        assert(scanned[m].signal <= scanned[k].signal);
        assert(scanned[k] == scanned[m]);
    }
}

/// The inventory depends on which records were scanned and how often, not
/// on their order, where records of one name and one signal strength
/// agree.
pub proof fn lemma_reconciled_ignores_order(a: Seq<Record>, b: Seq<Record>)
    requires
        a.to_multiset() == b.to_multiset(),
        ties_agree(a),
    ensures
        reconciled(a) == reconciled(b),
{
    assert forall|record: Record| a.contains(record) <==> b.contains(record) by {
        vstd::seq_lib::to_multiset_contains(a, record);
        vstd::seq_lib::to_multiset_contains(b, record);
    }
    assert forall|j: int, k: int|
        #![trigger b[j], b[k]]
        0 <= j < b.len() && 0 <= k < b.len() && b[j].ssid == b[k].ssid && b[j].signal
            == b[k].signal implies b[j] == b[k] by {
        assert(b.contains(b[j]) && b.contains(b[k]));
        assert(a.contains(b[j]) && a.contains(b[k]));
        let p = choose|p: int| 0 <= p < a.len() && a[p] == b[j];
        let q = choose|q: int| 0 <= q < a.len() && a[q] == b[k];
        assert(a[p] == a[q]);
    }
    assert forall|record: Record| is_strongest(a, record) <==> is_strongest(b, record) by {
        if is_strongest(a, record) {
            assert forall|j: int| 0 <= j < b.len() && (#[trigger] b[j]).ssid
                == record.ssid implies b[j].signal <= record.signal by {
                assert(b.contains(b[j]));
                assert(a.contains(b[j]));
                let p = choose|p: int| 0 <= p < a.len() && a[p] == b[j];
                assert(a[p].ssid == record.ssid);
            }
        }
        if is_strongest(b, record) {
            assert forall|j: int| 0 <= j < a.len() && (#[trigger] a[j]).ssid
                == record.ssid implies a[j].signal <= record.signal by {
                assert(a.contains(a[j]));
                assert(b.contains(a[j]));
                let p = choose|p: int| 0 <= p < b.len() && b[p] == a[j];
                assert(b[p].ssid == record.ssid);
            }
        }
    }
    let ra = reconciled(a);
    let rb = reconciled(b);
    lemma_reconciled_is_inventory(a);
    lemma_reconciled_is_inventory(b);
    lemma_inventory_members(ra, a);
    lemma_inventory_members(rb, b);
    assert forall|record: Record| ra.contains(record) <==> rb.contains(record) by {
        lemma_best_is_strongest(a, record);
        lemma_best_is_strongest(b, record);
    }
    lemma_strict_listing_unique(ra, rb);
}

/// Where a name was scanned with a weaker and a stronger signal, and with
/// none stronger than that, the inventory holds exactly one record of the
/// name, and it has the stronger signal.
pub proof fn lemma_stronger_signal_wins(scanned: Seq<Record>, weaker: int, stronger: int)
    requires
        0 <= weaker < scanned.len(),
        0 <= stronger < scanned.len(),
        scanned[weaker].ssid == scanned[stronger].ssid,
        scanned[weaker].signal < scanned[stronger].signal,
        forall|j: int|
            0 <= j < scanned.len() && (#[trigger] scanned[j]).ssid == scanned[stronger].ssid
                ==> scanned[j].signal <= scanned[stronger].signal,
    ensures
        exists|i: int|
            0 <= i < reconciled(scanned).len() && (#[trigger] reconciled(scanned)[i]).ssid
                == scanned[stronger].ssid && reconciled(scanned)[i].signal
                == scanned[stronger].signal && forall|m: int|
                0 <= m < reconciled(scanned).len() && (#[trigger] reconciled(scanned)[m]).ssid
                    == scanned[stronger].ssid ==> m == i,
{
    let list = reconciled(scanned);
    lemma_reconciled_is_inventory(scanned);
    assert(holds_name(list, scanned[stronger].ssid));
    let i = place_of(list, scanned[stronger].ssid);
    assert(is_best_of(scanned, list[i]));
    let k = choose|k: int| #[trigger] is_best_at(scanned, k) && scanned[k] == list[i];
    assert(scanned[stronger].ssid == scanned[k].ssid);
    assert forall|m: int|
        0 <= m < list.len() && (#[trigger] list[m]).ssid == scanned[stronger].ssid implies m
        == i by {
        if m < i {
            assert(list[m].ssid != list[i].ssid);
        } else if i < m {
            assert(list[i].ssid != list[m].ssid);
        }
    }
}

/// In an inventory no record has a stronger signal than the one before it.
pub proof fn lemma_signals_descend(list: Seq<Record>, i: int)
    requires
        strictly_ranked(list),
        0 <= i,
        i + 1 < list.len(),
    ensures
        list[i].signal >= list[i + 1].signal,
{
    assert(rank_before(list[i], list[i + 1]));
}

/// An inventory holds only records that were scanned.
pub proof fn lemma_inventory_was_scanned(list: Seq<Record>, scanned: Seq<Record>)
    requires
        keeps_best(list, scanned),
    ensures
        forall|i: int| 0 <= i < list.len() ==> scanned.contains(#[trigger] list[i]),
{
    assert forall|i: int| 0 <= i < list.len() implies scanned.contains(#[trigger] list[i]) by {
        assert(is_best_of(scanned, list[i]));
        let k = choose|k: int| #[trigger] is_best_at(scanned, k) && scanned[k] == list[i];
        assert(scanned[k] == list[i]);
    }
}

/// Reconciling what deduplication left gives the inventory of all that
/// was scanned: to deduplicate first changes nothing.
pub proof fn lemma_reconciled_after_dedup(scanned: Seq<Record>)
    ensures
        reconciled(deduped(scanned)) == reconciled(scanned),
{
    let best = deduped(scanned);
    let list = reconciled(best);
    lemma_deduped_keeps_best(scanned);
    lemma_reconciled_is_inventory(best);
    lemma_reconciled_is_inventory(scanned);
    lemma_inventory_was_scanned(list, best);
    assert forall|i: int| 0 <= i < list.len() implies is_best_of(scanned, #[trigger] list[i]) by {
        assert(best.contains(list[i]));
        let k = choose|k: int| 0 <= k < best.len() && best[k] == list[i];
        assert(is_best_of(scanned, best[k]));
    }
    assert forall|k: int| 0 <= k < scanned.len() implies holds_name(
        list,
        (#[trigger] scanned[k]).ssid,
    ) by {
        assert(holds_name(best, scanned[k].ssid));
        let i = place_of(best, scanned[k].ssid);
        assert(holds_name(list, best[i].ssid));
    }
    lemma_inventory_unique(list, reconciled(scanned), scanned);
}

/// Where the scanned records are connected exactly when they bear the
/// active name, so are the records of the inventory, and at most one of
/// them is connected.
pub proof fn lemma_one_connected(scanned: Seq<Record>, active_ssid: Seq<char>)
    requires
        forall|k: int|
            0 <= k < scanned.len() ==> (#[trigger] scanned[k]).connected == (scanned[k].ssid
                == active_ssid),
    ensures
        forall|i: int|
            0 <= i < reconciled(scanned).len() ==> (#[trigger] reconciled(scanned)[i]).connected
                == (reconciled(scanned)[i].ssid == active_ssid),
        forall|i: int, j: int|
            #![trigger reconciled(scanned)[i], reconciled(scanned)[j]]
            0 <= i < reconciled(scanned).len() && 0 <= j < reconciled(scanned).len()
                && reconciled(scanned)[i].connected && reconciled(scanned)[j].connected ==> i
                == j,
{
    let list = reconciled(scanned);
    lemma_reconciled_is_inventory(scanned);
    lemma_inventory_was_scanned(list, scanned);
    assert forall|i: int| 0 <= i < list.len() implies (#[trigger] list[i]).connected == (list[i].ssid
        == active_ssid) by {
        assert(scanned.contains(list[i]));
        let k = choose|k: int| 0 <= k < scanned.len() && scanned[k] == list[i];
        assert(scanned[k].connected == (scanned[k].ssid == active_ssid));
    }
    assert forall|i: int, j: int|
        #![trigger list[i], list[j]]
        0 <= i < list.len() && 0 <= j < list.len() && list[i].connected
            && list[j].connected implies i == j by {
        if i < j {
            assert(list[i].ssid != list[j].ssid);
        } else if j < i {
            assert(list[j].ssid != list[i].ssid);
        }
    }
}

} // verus!
