//! The inventory: one record per network name, strongest signal first.

use vstd::prelude::*;
use crate::app::App;
use crate::laws::{
    in_rank_order, is_inventory_of, keeps_best, lemma_deduped_keeps_best, lemma_ranked_in_order,
    lemma_ranked_permutes, lemma_reconciled_is_inventory,
};
use crate::network::{
    active_ssid, normalized_all, parse_lines, records, reported_active, texts, Network, Record,
};

verus! {

/// Whether name `a` comes before name `b` in the dictionary order of
/// their characters. A name comes after each of its proper beginnings.
pub open spec fn name_before(a: Seq<char>, b: Seq<char>) -> bool
    decreases a.len(),
{
    if b.len() == 0 {
        false
    } else if a.len() == 0 {
        true
    } else if a[0] != b[0] {
        a[0] < b[0]
    } else {
        name_before(a.drop_first(), b.drop_first())
    }
}

/// Whether record `a` is listed before record `b`: the stronger signal
/// first, and of two equal signals the earlier name.
pub open spec fn rank_before(a: Record, b: Record) -> bool {
    a.signal > b.signal || (a.signal == b.signal && name_before(a.ssid, b.ssid))
}

/// No name comes before itself, and of two names at most one comes before
/// the other.
pub proof fn lemma_name_order_strict(a: Seq<char>, b: Seq<char>)
    ensures
        !name_before(a, a),
        !(name_before(a, b) && name_before(b, a)),
    decreases a.len(),
{
    if a.len() > 0 {
        lemma_name_order_strict(a.drop_first(), a.drop_first());
        if b.len() > 0 {
            lemma_name_order_strict(a.drop_first(), b.drop_first());
        }
    }
}

/// Of two different names one comes before the other.
pub proof fn lemma_name_order_total(a: Seq<char>, b: Seq<char>)
    ensures
        a == b || name_before(a, b) || name_before(b, a),
    decreases a.len(),
{
    if a.len() > 0 && b.len() > 0 && a[0] == b[0] {
        lemma_name_order_total(a.drop_first(), b.drop_first());
        if a.drop_first() == b.drop_first() {
            assert(a =~= seq![a[0]] + a.drop_first());
            assert(b =~= seq![b[0]] + b.drop_first());
        }
    } else if a.len() == 0 && b.len() == 0 {
        assert(a =~= b);
    }
}

/// The order of names carries over from two names to a third.
pub proof fn lemma_name_order_transitive(a: Seq<char>, b: Seq<char>, c: Seq<char>)
    requires
        name_before(a, b),
        name_before(b, c),
    ensures
        name_before(a, c),
    decreases a.len(),
{
    if a.len() > 0 && a[0] == b[0] && b[0] == c[0] {
        lemma_name_order_transitive(a.drop_first(), b.drop_first(), c.drop_first());
    }
}

/// The listing order is strict: no record is listed before itself, and of
/// two records at most one is listed before the other.
pub proof fn lemma_rank_order_strict(a: Record, b: Record)
    ensures
        !rank_before(a, a),
        !(rank_before(a, b) && rank_before(b, a)),
{
    lemma_name_order_strict(a.ssid, a.ssid);
    lemma_name_order_strict(a.ssid, b.ssid);
}

/// The listing order carries over from two records to a third.
pub proof fn lemma_rank_order_transitive(a: Record, b: Record, c: Record)
    requires
        rank_before(a, b),
        rank_before(b, c),
    ensures
        rank_before(a, c),
{
    if a.signal == b.signal && b.signal == c.signal {
        lemma_name_order_transitive(a.ssid, b.ssid, c.ssid);
    }
}

/// Of two records with different names one is listed before the other.
pub proof fn lemma_rank_order_total(a: Record, b: Record)
    requires
        a.ssid != b.ssid,
    ensures
        rank_before(a, b) || rank_before(b, a),
{
    lemma_name_order_total(a.ssid, b.ssid);
}

/// Decides the dictionary order of two names.
pub fn name_lt(a: &str, b: &str) -> (before: bool)
    ensures
        before == name_before(a@, b@),
{
    let n = a.unicode_len();
    let m = b.unicode_len();
    let mut i: usize = 0;
    proof {
        assert(a@.skip(0) =~= a@);
        assert(b@.skip(0) =~= b@);
    }
    while i < n && i < m
        invariant
            n == a@.len(),
            m == b@.len(),
            0 <= i <= n,
            i <= m,
            name_before(a@, b@) == name_before(a@.skip(i as int), b@.skip(i as int)),
        decreases n - i,
    {
        let x = a.get_char(i);
        let y = b.get_char(i);
        proof {
            assert(a@.skip(i as int).drop_first() =~= a@.skip(i + 1));
            assert(b@.skip(i as int).drop_first() =~= b@.skip(i + 1));
            assert(a@.skip(i as int)[0] == x);
            assert(b@.skip(i as int)[0] == y);
        }
        if x != y {
            return x < y;
        }
        i += 1;
    }
    i < m
}

/// Decides whether `a` is listed before `b`.
pub fn ranks_before(a: &Network, b: &Network) -> (before: bool)
    ensures
        before == rank_before(a@, b@),
{
    a.signal > b.signal || (a.signal == b.signal && name_lt(a.ssid.as_str(), b.ssid.as_str()))
}

/// The place of the first record of `list` that is `wanted`, or the length
/// of `list` where none is.
pub open spec fn first_where(list: Seq<Record>, wanted: spec_fn(Record) -> bool) -> int
    decreases list.len(),
{
    if list.len() == 0 || wanted(list[0]) {
        0
    } else {
        1 + first_where(list.drop_first(), wanted)
    }
}

/// `slot` is where `first_where` points: no record before it is wanted,
/// and the record at it, if there is one, is.
pub open spec fn is_first_where(
    list: Seq<Record>,
    wanted: spec_fn(Record) -> bool,
    slot: int,
) -> bool {
    &&& 0 <= slot <= list.len()
    &&& forall|j: int| 0 <= j < slot ==> !wanted(#[trigger] list[j])
    &&& slot < list.len() ==> wanted(list[slot])
}

/// `first_where` is the one place that `is_first_where` describes.
pub proof fn lemma_first_where(list: Seq<Record>, wanted: spec_fn(Record) -> bool, slot: int)
    ensures
        is_first_where(list, wanted, first_where(list, wanted)),
        is_first_where(list, wanted, slot) ==> slot == first_where(list, wanted),
    decreases list.len(),
{
    if !(list.len() == 0 || wanted(list[0])) {
        let rest = list.drop_first();
        lemma_first_where(rest, wanted, slot - 1);
        let found = first_where(rest, wanted);
        assert forall|j: int| 0 <= j < 1 + found implies !wanted(#[trigger] list[j]) by {
            if j > 0 {
                assert(rest[j - 1] == list[j]);
            }
        }
        if is_first_where(list, wanted, slot) {
            assert(slot > 0) by {
                if slot == 0 {
                    assert(wanted(list[0]));
                }
            }
            assert forall|j: int| 0 <= j < slot - 1 implies !wanted(#[trigger] rest[j]) by {
                assert(rest[j] == list[j + 1]);
            }
            assert(is_first_where(rest, wanted, slot - 1));
        }
    } else if is_first_where(list, wanted, slot) {
        if slot > 0 {
            assert(!wanted(list[0]));
        }
    }
}

/// The records named `ssid`.
pub open spec fn named(ssid: Seq<char>) -> spec_fn(Record) -> bool {
    |r: Record| r.ssid == ssid
}

/// The records that are listed after `record`.
pub open spec fn listed_after(record: Record) -> spec_fn(Record) -> bool {
    |r: Record| rank_before(record, r)
}

/// The place of the first record named `ssid` in `list`, or the length of
/// `list` where no record has that name.
pub open spec fn name_slot(list: Seq<Record>, ssid: Seq<char>) -> int {
    first_where(list, named(ssid))
}

/// The place where `record` enters a ranked list: before the first record
/// that is listed after it, and so behind its equals.
pub open spec fn rank_slot(list: Seq<Record>, record: Record) -> int {
    first_where(list, listed_after(record))
}

/// The list of strongest records after one more record was seen: a new
/// name is added at the end; a known name keeps its place, and its record
/// is replaced only by a strictly stronger one.
pub open spec fn absorb(best: Seq<Record>, record: Record) -> Seq<Record> {
    let slot = name_slot(best, record.ssid);
    if slot == best.len() {
        best.push(record)
    } else if record.signal > best[slot].signal {
        best.update(slot, record)
    } else {
        best
    }
}

/// The strongest record of each name, names in the order of their first
/// appearance. Of equally strong records of a name the first one stays.
pub open spec fn deduped(scanned: Seq<Record>) -> Seq<Record>
    decreases scanned.len(),
{
    if scanned.len() == 0 {
        Seq::empty()
    } else {
        absorb(deduped(scanned.drop_last()), scanned.last())
    }
}

/// Finds the first record with the given name.
pub fn find_name(list: &Vec<Network>, ssid: &String) -> (slot: usize)
    ensures
        slot == name_slot(records(list@), ssid@),
        slot <= list.len(),
{
    let mut i: usize = 0;
    while i < list.len()
        invariant
            0 <= i <= list.len(),
            forall|j: int| 0 <= j < i ==> !named(ssid@)(#[trigger] records(list@)[j]),
        decreases list.len() - i,
    {
        if list[i].ssid == *ssid {
            proof {
                assert(named(ssid@)(records(list@)[i as int]));
                lemma_first_where(records(list@), named(ssid@), i as int);
            }
            return i;
        }
        proof {
            assert(!named(ssid@)(records(list@)[i as int]));
        }
        i += 1;
    }
    proof {
        lemma_first_where(records(list@), named(ssid@), i as int);
    }
    i
}

/// Keeps the strongest record of each name.
pub fn dedup(scanned: &Vec<Network>) -> (best: Vec<Network>)
    ensures
        records(best@) == deduped(records(scanned@)),
        keeps_best(records(best@), records(scanned@)),
{
    let mut best: Vec<Network> = Vec::new();
    let mut i: usize = 0;
    proof {
        assert(records(scanned@).take(0) =~= Seq::empty());
        assert(records(best@) =~= Seq::empty());
    }
    while i < scanned.len()
        invariant
            0 <= i <= scanned.len(),
            records(best@) == deduped(records(scanned@).take(i as int)),
        decreases scanned.len() - i,
    {
        let record = &scanned[i];
        let ghost before = records(best@);
        proof {
            assert(records(scanned@).take(i + 1).drop_last() =~= records(scanned@).take(i as int));
            assert(records(scanned@).take(i + 1).last() == record@);
        }
        let slot = find_name(&best, &record.ssid);
        if slot == best.len() {
            best.push(record.clone());
            proof {
                assert(records(best@) =~= before.push(record@));
            }
        } else if record.signal > best[slot].signal {
            best[slot] = record.clone();
            proof {
                assert(records(best@) =~= before.update(slot as int, record@));
            }
        }
        i += 1;
    }
    proof {
        assert(records(scanned@).take(scanned.len() as int) =~= records(scanned@));
        lemma_deduped_keeps_best(records(scanned@));
    }
    best
}

/// The records of `list` in listing order; records that rank alike keep
/// the order they had.
pub open spec fn ranked(list: Seq<Record>) -> Seq<Record>
    decreases list.len(),
{
    if list.len() == 0 {
        Seq::empty()
    } else {
        let before = ranked(list.drop_last());
        before.insert(rank_slot(before, list.last()), list.last())
    }
}

/// The inventory made of scanned records: the strongest record of each
/// name, in listing order.
pub open spec fn reconciled(scanned: Seq<Record>) -> Seq<Record> {
    ranked(deduped(scanned))
}

/// Finds the place where `record` enters a ranked list.
pub fn find_rank(list: &Vec<Network>, record: &Network) -> (slot: usize)
    ensures
        slot == rank_slot(records(list@), record@),
        slot <= list.len(),
{
    let mut i: usize = 0;
    while i < list.len()
        invariant
            0 <= i <= list.len(),
            forall|j: int| 0 <= j < i ==> !listed_after(record@)(#[trigger] records(list@)[j]),
        decreases list.len() - i,
    {
        if ranks_before(record, &list[i]) {
            proof {
                assert(listed_after(record@)(records(list@)[i as int]));
                lemma_first_where(records(list@), listed_after(record@), i as int);
            }
            return i;
        }
        proof {
            assert(!listed_after(record@)(records(list@)[i as int]));
        }
        i += 1;
    }
    proof {
        lemma_first_where(records(list@), listed_after(record@), i as int);
    }
    i
}

impl App {
    /// Puts records into listing order: strongest signal first, equal
    /// signals by name, and records that rank alike in the order they came.
    ///
    /// The application's own inventory is always in this order; this is
    /// the sorting that puts it there.
    pub fn sort_networks(networks: &Vec<Network>) -> (sorted: Vec<Network>)
        ensures
            records(sorted@) == ranked(records(networks@)),
            in_rank_order(records(sorted@)),
            records(sorted@).to_multiset() == records(networks@).to_multiset(),
            sorted.len() == networks.len(),
    {
        let mut sorted: Vec<Network> = Vec::new();
        let mut i: usize = 0;
        proof {
            assert(records(networks@).take(0) =~= Seq::empty());
            assert(records(sorted@) =~= Seq::empty());
        }
        while i < networks.len()
            invariant
                0 <= i <= networks.len(),
                records(sorted@) == ranked(records(networks@).take(i as int)),
            decreases networks.len() - i,
        {
            let record = &networks[i];
            let ghost before = records(sorted@);
            proof {
                assert(records(networks@).take(i + 1).drop_last() =~= records(networks@).take(
                    i as int,
                ));
                assert(records(networks@).take(i + 1).last() == record@);
            }
            let slot = find_rank(&sorted, record);
            sorted.insert(slot, record.clone());
            proof {
                assert(records(sorted@) =~= before.insert(slot as int, record@));
            }
            i += 1;
        }
        proof {
            assert(records(networks@).take(networks.len() as int) =~= records(networks@));
            lemma_ranked_in_order(records(networks@));
            lemma_ranked_permutes(records(networks@));
        }
        sorted
    }
}

/// Makes the inventory of scanned records.
pub fn reconcile(scanned: &Vec<Network>) -> (inventory: Vec<Network>)
    ensures
        records(inventory@) == reconciled(records(scanned@)),
        is_inventory_of(records(inventory@), records(scanned@)),
{
    let best = dedup(scanned);
    proof {
        lemma_reconciled_is_inventory(records(scanned@));
    }
    App::sort_networks(&best)
}

/// The name to mark records with: the active network that the lines
/// report, or the empty name, which no record has.
pub open spec fn active_or_empty(active_lines: Seq<Seq<char>>) -> Seq<char> {
    match reported_active(active_lines) {
        Some(name) => name,
        None => Seq::empty(),
    }
}

/// Reads the two feeds of a scan, the access points and the active
/// network, into one record for each name, the strongest.
pub fn get_networks(lines: &Vec<String>, active_lines: &Vec<String>) -> (networks: Vec<Network>)
    ensures
        records(networks@) == deduped(
            normalized_all(texts(lines@), active_or_empty(texts(active_lines@))),
        ),
        keeps_best(
            records(networks@),
            normalized_all(texts(lines@), active_or_empty(texts(active_lines@))),
        ),
{
    let active = match active_ssid(active_lines) {
        Some(name) => name,
        None => String::new(),
    };
    let scanned = parse_lines(lines, active.as_str());
    dedup(&scanned)
}

} // verus!
