//! Usage per identifier: one node's record of an epoch, and the table of recent
//! records that travels round the ring.

use crate::bytes::{be_nat, decode_be, encode_be};
use crate::sum::sum_of;
use std::collections::BTreeMap;
use vstd::prelude::*;

verus! {

/// 16-byte identifier of whoever consumes the shared resource.
pub type Uuid = [u8; 16];

/// The number that an identifier spells. Identifiers are ordered by it, which is the
/// order of their bytes from the front.
pub open spec fn uuid_key(id: Uuid) -> u128 {
    be_nat(id@) as u128
}

/// The record of one epoch, as contracts speak of it.
#[verifier::ext_equal]
pub struct EpochView {
    pub epoch: u64,
    pub usages: Seq<(Uuid, u64)>,
}

/// A usage table, as contracts speak of it. The newest epoch comes first.
#[verifier::ext_equal]
pub struct TableView {
    pub recent_epoch: u64,
    pub node_count: usize,
    pub tables: Seq<EpochView>,
}

/// Whether the entries are in the order of their identifiers.
pub open spec fn ids_sorted(usages: Seq<(Uuid, u64)>) -> bool {
    forall|i: int, j: int|
        #![trigger usages[i], usages[j]]
        0 <= i <= j < usages.len() ==> uuid_key(usages[i].0) <= uuid_key(usages[j].0)
}

/// Whether the entries are in the order of their identifiers and no identifier occurs
/// twice.
pub open spec fn ids_increasing(usages: Seq<(Uuid, u64)>) -> bool {
    forall|i: int, j: int|
        #![trigger usages[i], usages[j]]
        0 <= i < j < usages.len() ==> uuid_key(usages[i].0) < uuid_key(usages[j].0)
}

/// What the entries record for an identifier: the amount of its last entry.
pub open spec fn lookup(usages: Seq<(Uuid, u64)>, id: Uuid) -> Option<u64>
    decreases usages.len(),
{
    if usages.len() == 0 {
        None
    } else if usages.last().0 == id {
        Some(usages.last().1)
    } else {
        lookup(usages.drop_last(), id)
    }
}

/// Where a search for `id` that halves the `size` entries from `base` on comes to rest.
pub open spec fn resting_place(usages: Seq<(Uuid, u64)>, id: Uuid, base: int, size: int) -> int
    decreases size,
{
    if size <= 1 {
        base
    } else {
        let half = size / 2;
        if uuid_key(usages[base + half].0) > uuid_key(id) {
            resting_place(usages, id, base, size - half)
        } else {
            resting_place(usages, id, base + half, size - half)
        }
    }
}

/// What a search by halving finds, in whatever order the entries are. On sorted entries
/// this is `lookup`.
pub open spec fn found(usages: Seq<(Uuid, u64)>, id: Uuid) -> Option<u64> {
    let at = resting_place(usages, id, 0, usages.len() as int);
    if usages.len() > 0 && usages[at].0 == id {
        Some(usages[at].1)
    } else {
        None
    }
}

/// Whether `usages` lists a map from identifiers to amounts, in the order of the
/// identifiers.
pub open spec fn lists(usages: Seq<(Uuid, u64)>, map: Map<u128, u64>) -> bool {
    &&& ids_increasing(usages)
    &&& forall|i: int|
        #![trigger usages[i]]
        0 <= i < usages.len() ==> map.contains_key(uuid_key(usages[i].0))
            && map[uuid_key(usages[i].0)] == usages[i].1
    &&& forall|key: u128| #[trigger]
        map.contains_key(key) ==> exists|i: int|
            0 <= i < usages.len() && uuid_key((#[trigger] usages[i]).0) == key
}

/// The listing of a map; by `lemma_listing_unique` there is but one.
pub open spec fn listing(map: Map<u128, u64>) -> Seq<(Uuid, u64)> {
    choose|usages: Seq<(Uuid, u64)>| lists(usages, map)
}

/// The amount that a map records for an identifier, none being zero.
pub open spec fn amount_in(map: Map<u128, u64>, id: Uuid) -> u64 {
    if map.contains_key(uuid_key(id)) {
        map[uuid_key(id)]
    } else {
        0
    }
}

/// The sum over the epochs of what is found for an identifier.
pub open spec fn usage_sum(epochs: Seq<EpochView>, id: Uuid) -> nat
    decreases epochs.len(),
{
    if epochs.len() == 0 {
        0
    } else {
        usage_sum(epochs.drop_last(), id) + epochs.last().amount(id)
    }
}

/// The sum over the epochs of what each records for an identifier, nothing being zero.
pub open spec fn recorded_sum(epochs: Seq<EpochView>, id: Uuid) -> nat
    decreases epochs.len(),
{
    if epochs.len() == 0 {
        0
    } else {
        recorded_sum(epochs.drop_last(), id) + match lookup(epochs.last().usages, id) {
            Some(usage) => usage as nat,
            None => 0,
        }
    }
}

impl EpochView {
    /// What is found for an identifier, nothing being zero.
    pub open spec fn amount(self, id: Uuid) -> nat {
        match found(self.usages, id) {
            Some(usage) => usage as nat,
            None => 0,
        }
    }
}

impl TableView {
    /// How many epochs a table that was filled by pushing holds at most.
    pub open spec fn window(self) -> nat {
        if self.node_count <= 2 {
            1
        } else {
            (self.node_count - 1) as nat
        }
    }

    /// The epochs that the next push keeps: all but the oldest where the table is full.
    pub open spec fn kept(self) -> Seq<EpochView> {
        if self.tables.len() > 0 && self.tables.len() >= self.node_count - 1 {
            self.tables.drop_last()
        } else {
            self.tables
        }
    }

    /// The table after a push.
    pub open spec fn pushed(self, epoch: EpochView) -> TableView {
        TableView {
            recent_epoch: epoch.epoch,
            node_count: self.node_count,
            tables: seq![epoch] + self.kept(),
        }
    }

    /// The table after pushing each of `epochs`, the first of them first.
    pub open spec fn pushed_all(self, epochs: Seq<EpochView>) -> TableView
        decreases epochs.len(),
    {
        if epochs.len() == 0 {
            self
        } else {
            self.pushed_all(epochs.drop_last()).pushed(epochs.last())
        }
    }

    /// The usage of an identifier over all epochs of the table.
    pub open spec fn total(self, id: Uuid) -> nat {
        usage_sum(self.tables, id)
    }

    /// What holds of every table that was made with room for a node and filled by
    /// pushing listings: it never outgrows its window, its first epoch is the recent
    /// one, and every epoch can be searched.
    pub open spec fn valid(self) -> bool {
        &&& self.node_count >= 1
        &&& self.tables.len() <= self.window()
        &&& self.tables.len() > 0 ==> self.recent_epoch == self.tables[0].epoch
        &&& forall|i: int|
            0 <= i < self.tables.len() ==> ids_increasing((#[trigger] self.tables[i]).usages)
    }
}

/// Usage by identifier during one epoch of one node.
#[derive(Debug, Clone)]
pub struct EpochUsage {
    pub epoch: u64,
    pub usages: Vec<(Uuid, u64)>,
}

/// Ring buffer of the most recent epochs.
/// When it is full, a push drops the oldest epoch.
#[derive(Debug, Clone)]
pub struct EpochUsageTable {
    pub recent_epoch: u64,
    pub node_count: usize,
    pub tables: Vec<EpochUsage>,
}

impl View for EpochUsage {
    type V = EpochView;

    open spec fn view(&self) -> EpochView {
        EpochView { epoch: self.epoch, usages: self.usages@ }
    }
}

impl View for EpochUsageTable {
    type V = TableView;

    open spec fn view(&self) -> TableView {
        TableView {
            recent_epoch: self.recent_epoch,
            node_count: self.node_count,
            tables: self.tables@.map_values(|epoch: EpochUsage| epoch@),
        }
    }
}

/// Distinct identifiers spell distinct numbers.
pub proof fn lemma_uuid_key_injective(a: Uuid, b: Uuid)
    requires
        uuid_key(a) == uuid_key(b),
    ensures
        a == b,
{
    lemma_uuid_key_exact(a);
    lemma_uuid_key_exact(b);
    crate::bytes::lemma_be_nat_injective(a@, b@);
    assert(a =~= b);
}

/// An identifier's number fits in 128 bits.
pub proof fn lemma_uuid_key_exact(id: Uuid)
    ensures
        uuid_key(id) == be_nat(id@),
{
    crate::bytes::lemma_be_nat_bound(id@);
    crate::bytes::lemma_radix_values();
}

/// Identifiers are ordered as their bytes are from the front.
pub proof fn lemma_uuid_order(a: Uuid, b: Uuid)
    ensures
        uuid_key(a) < uuid_key(b) <==> crate::bytes::lex_less(a@, b@),
{
    lemma_uuid_key_exact(a);
    lemma_uuid_key_exact(b);
    crate::bytes::lemma_be_nat_order(a@, b@);
}

/// Reads an identifier as a number.
pub fn key_of(id: &Uuid) -> (key: u128)
    ensures
        key == uuid_key(*id),
{
    proof {
        lemma_uuid_key_exact(*id);
    }
    decode_be(id.as_slice())
}

/// The identifier that spells a number.
pub fn uuid_of(key: u128) -> (id: Uuid)
    ensures
        uuid_key(id) == key,
{
    proof {
        crate::bytes::lemma_radix_values();
    }
    let bytes = encode_be(key, 16);
    let mut id: Uuid = [0u8; 16];
    let mut i: usize = 0;
    while i < 16
        invariant
            i <= 16,
            bytes@.len() == 16,
            forall|j: int| 0 <= j < i ==> id@[j] == bytes@[j],
        decreases 16 - i,
    {
        id[i] = bytes[i];
        i = i + 1;
    }
    proof {
        assert(id@ =~= bytes@);
    }
    id
}

impl EpochUsage {
    /// Makes the record of an epoch from its entries.
    /// Searching it relies on their being sorted by identifier.
    pub fn from_vec(epoch: u64, usages: Vec<(Uuid, u64)>) -> (record: Self)
        ensures
            record@ == (EpochView { epoch, usages: usages@ }),
            record.epoch == epoch,
            record.usages == usages,
    {
        Self { epoch, usages }
    }

    /// Makes the record of an epoch from a map that is keyed by what each identifier
    /// spells as a number.
    pub fn from_btree_map(epoch: u64, usages: &BTreeMap<u128, u64>) -> (record: Self)
        ensures
            record@ == (EpochView { epoch, usages: listing(usages@) }),
            lists(record@.usages, usages@),
    {
        let entries = usages.iter();
        let ghost listed = vstd::std_specs::iter::IteratorSpec::remaining(&entries);
        let ghost keys = listed.map_values(|entry: (&u128, &u64)| *entry.0);
        proof {
            assert(vstd::std_specs::btree::increasing_seq(keys));
            assert(vstd::laws_cmp::obeys_cmp::<u128>());
            assert forall|i: int, j: int| 0 <= i < j < listed.len() implies *listed[i].0
                < *listed[j].0 by {
                assert(keys[i] == *listed[i].0);
                assert(keys[j] == *listed[j].0);
                assert(vstd::std_specs::cmp::OrdSpec::cmp_spec(&keys[i], &keys[j]) is Less);
            }
        }
        let mut list: Vec<(Uuid, u64)> = Vec::new();
        for entry in it: entries
            invariant
                it.seq() == listed,
                list@.len() == it.index(),
                forall|i: int|
                    #![trigger list@[i]]
                    0 <= i < list@.len() ==> uuid_key(list@[i].0) == *listed[i].0 && list@[i].1
                        == *listed[i].1,
        {
            list.push((uuid_of(*entry.0), *entry.1));
        }
        proof {
            assert forall|key: u128| #[trigger] usages@.contains_key(key) implies exists|i: int|
                0 <= i < list@.len() && uuid_key((#[trigger] list@[i]).0) == key by {
                assert(listed.contains((&key, &usages@[key])));
                let i = choose|i: int|
                    0 <= i < listed.len() && listed[i] == (&key, &usages@[key]);
                assert(uuid_key(list@[i].0) == key);
            }
            assert(lists(list@, usages@));
            lemma_listing_unique(usages@, list@, listing(usages@));
        }
        Self { epoch, usages: list }
    }

    /// The usage of an identifier, by binary search; `None` if there is none.
    /// Unless the entries are sorted by identifier the search can miss it.
    pub fn get_usage(&self, node_id: &Uuid) -> (usage: Option<u64>)
        ensures
            usage == found(self@.usages, *node_id),
            ids_sorted(self@.usages) ==> usage == lookup(self@.usages, *node_id),
            usage matches Some(amount) ==> self@.usages.contains((*node_id, amount)),
    {
        proof {
            lemma_found_is_an_entry(self@.usages, *node_id);
            if ids_sorted(self@.usages) {
                lemma_found_is_lookup(self@.usages, *node_id);
            }
        }
        let mut size: usize = self.usages.len();
        if size == 0 {
            return None;
        }
        let key: u128 = key_of(node_id);
        let mut base: usize = 0;
        while size > 1
            invariant
                1 <= size,
                base + size <= self.usages.len(),
                key == uuid_key(*node_id),
                resting_place(self.usages@, *node_id, base as int, size as int) == resting_place(
                    self.usages@,
                    *node_id,
                    0,
                    self.usages@.len() as int,
                ),
            decreases size,
        {
            let half: usize = size / 2;
            let mid: usize = base + half;
            if key_of(&self.usages[mid].0) <= key {
                base = mid;
            }
            size = size - half;
        }
        if key_of(&self.usages[base].0) == key {
            proof {
                lemma_uuid_key_injective(self.usages@[base as int].0, *node_id);
            }
            Some(self.usages[base].1)
        } else {
            None
        }
    }
}

proof fn lemma_resting_place_in_range(
    usages: Seq<(Uuid, u64)>,
    id: Uuid,
    base: int,
    size: int,
)
    requires
        0 <= base,
        1 <= size,
        base + size <= usages.len(),
    ensures
        base <= resting_place(usages, id, base, size) < base + size,
    decreases size,
{
    if size > 1 {
        let half = size / 2;
        lemma_resting_place_in_range(usages, id, base, size - half);
        lemma_resting_place_in_range(usages, id, base + half, size - half);
    }
}

/// Whatever the order of the entries, a search finds no amount but that of an entry of
/// the identifier.
pub proof fn lemma_found_is_an_entry(usages: Seq<(Uuid, u64)>, id: Uuid)
    ensures
        found(usages, id) matches Some(amount) ==> usages.contains((id, amount)),
{
    if usages.len() > 0 {
        lemma_resting_place_in_range(usages, id, 0, usages.len() as int);
        let at = resting_place(usages, id, 0, usages.len() as int);
        if usages[at].0 == id {
            assert(usages[at] == (id, usages[at].1));
        }
    }
}

/// On sorted entries the search comes to rest at the last one that does not lie
/// behind the identifier, or at the first entry if all do.
proof fn lemma_resting_place_sorted(
    usages: Seq<(Uuid, u64)>,
    id: Uuid,
    base: int,
    size: int,
)
    requires
        ids_sorted(usages),
        0 <= base,
        1 <= size,
        base + size <= usages.len(),
        base == 0 || uuid_key(usages[base].0) <= uuid_key(id),
        forall|j: int|
            #![trigger usages[j]]
            base + size <= j < usages.len() ==> uuid_key(usages[j].0) > uuid_key(id),
    ensures
        ({
            let at = resting_place(usages, id, base, size);
            &&& base <= at < base + size
            &&& at == 0 || uuid_key(usages[at].0) <= uuid_key(id)
            &&& forall|j: int|
                #![trigger usages[j]]
                at < j < usages.len() ==> uuid_key(usages[j].0) > uuid_key(id)
        }),
    decreases size,
{
    if size > 1 {
        let half = size / 2;
        let mid = base + half;
        if uuid_key(usages[mid].0) > uuid_key(id) {
            assert forall|j: int|
                #![trigger usages[j]]
                base + (size - half) <= j < usages.len() implies uuid_key(usages[j].0) > uuid_key(
                id,
            ) by {
                assert(uuid_key(usages[mid].0) <= uuid_key(usages[j].0));
            }
            lemma_resting_place_sorted(usages, id, base, size - half);
        } else {
            lemma_resting_place_sorted(usages, id, mid, size - half);
        }
    }
}

proof fn lemma_lookup_last(usages: Seq<(Uuid, u64)>, id: Uuid, at: int)
    requires
        0 <= at < usages.len(),
        usages[at].0 == id,
        forall|j: int| at < j < usages.len() ==> (#[trigger] usages[j]).0 != id,
    ensures
        lookup(usages, id) == Some(usages[at].1),
    decreases usages.len(),
{
    if at < usages.len() - 1 {
        let shorter = usages.drop_last();
        assert(usages[usages.len() - 1].0 != id);
        assert forall|j: int| at < j < shorter.len() implies (#[trigger] shorter[j]).0 != id by {
            assert(shorter[j] == usages[j]);
        }
        lemma_lookup_last(shorter, id, at);
    }
}

proof fn lemma_lookup_absent(usages: Seq<(Uuid, u64)>, id: Uuid)
    requires
        forall|j: int| 0 <= j < usages.len() ==> (#[trigger] usages[j]).0 != id,
    ensures
        lookup(usages, id) is None,
    decreases usages.len(),
{
    if usages.len() > 0 {
        let shorter = usages.drop_last();
        assert(usages[usages.len() - 1].0 != id);
        assert forall|j: int| 0 <= j < shorter.len() implies (#[trigger] shorter[j]).0 != id by {
            assert(shorter[j] == usages[j]);
        }
        lemma_lookup_absent(shorter, id);
    }
}

/// Binary search is right on sorted entries: it finds an identifier if and only if an
/// entry has it.
pub proof fn lemma_found_is_lookup(usages: Seq<(Uuid, u64)>, id: Uuid)
    requires
        ids_sorted(usages),
    ensures
        found(usages, id) == lookup(usages, id),
        found(usages, id) is None <==> forall|i: int|
            0 <= i < usages.len() ==> (#[trigger] usages[i]).0 != id,
{
    if usages.len() > 0 {
        lemma_resting_place_sorted(usages, id, 0, usages.len() as int);
        let at = resting_place(usages, id, 0, usages.len() as int);
        if usages[at].0 == id {
            lemma_lookup_last(usages, id, at);
        } else {
            assert forall|i: int| 0 <= i < usages.len() implies (#[trigger] usages[i]).0 != id by {
                if usages[i].0 == id {
                    assert(i < at);
                    assert(uuid_key(usages[i].0) <= uuid_key(usages[at].0));
                    assert(uuid_key(usages[at].0) == uuid_key(id));
                    lemma_uuid_key_injective(usages[at].0, id);
                }
            }
            lemma_lookup_absent(usages, id);
        }
    }
}

/// A map has one listing.
pub proof fn lemma_listing_unique(
    map: Map<u128, u64>,
    a: Seq<(Uuid, u64)>,
    b: Seq<(Uuid, u64)>,
)
    requires
        lists(a, map),
        lists(b, map),
    ensures
        a == b,
    decreases a.len(),
{
    if a.len() == 0 {
        if b.len() > 0 {
            assert(map.contains_key(uuid_key(b[0].0)));
        }
        assert(a =~= b);
    } else {
        let (x, y) = (a.len() - 1, b.len() - 1);
        assert(map.contains_key(uuid_key(a[x].0)));
        let i = choose|i: int| 0 <= i < b.len() && uuid_key((#[trigger] b[i]).0) == uuid_key(a[x].0);
        assert(map.contains_key(uuid_key(b[y].0)));
        let j = choose|j: int| 0 <= j < a.len() && uuid_key((#[trigger] a[j]).0) == uuid_key(b[y].0);
        if i < y {
            assert(uuid_key(b[i].0) < uuid_key(b[y].0));
            assert(uuid_key(a[j].0) <= uuid_key(a[x].0));
        }
        lemma_uuid_key_injective(a[x].0, b[y].0);
        let key = uuid_key(a[x].0);
        lemma_lists_drop_last(map, a);
        lemma_lists_drop_last(map, b);
        lemma_listing_unique(map.remove(key), a.drop_last(), b.drop_last());
        assert(a =~= a.drop_last().push(a[x]));
        assert(b =~= b.drop_last().push(b[y]));
    }
}

proof fn lemma_lists_drop_last(map: Map<u128, u64>, usages: Seq<(Uuid, u64)>)
    requires
        lists(usages, map),
        usages.len() > 0,
    ensures
        lists(usages.drop_last(), map.remove(uuid_key(usages.last().0))),
{
    let last = usages.len() - 1;
    let shorter = usages.drop_last();
    let rest = map.remove(uuid_key(usages.last().0));
    assert forall|i: int|
        #![trigger shorter[i]]
        0 <= i < shorter.len() implies rest.contains_key(uuid_key(shorter[i].0))
        && rest[uuid_key(shorter[i].0)] == shorter[i].1 by {
        assert(shorter[i] == usages[i]);
        assert(uuid_key(usages[i].0) < uuid_key(usages[last].0));
    }
    assert forall|i: int, j: int|
        #![trigger shorter[i], shorter[j]]
        0 <= i < j < shorter.len() implies uuid_key(shorter[i].0) < uuid_key(shorter[j].0) by {
        assert(shorter[i] == usages[i] && shorter[j] == usages[j]);
    }
    assert forall|key: u128| #[trigger] rest.contains_key(key) implies exists|i: int|
        0 <= i < shorter.len() && uuid_key((#[trigger] shorter[i]).0) == key by {
        assert(map.contains_key(key));
        let i = choose|i: int| 0 <= i < usages.len() && uuid_key((#[trigger] usages[i]).0) == key;
        assert(i != last);
        assert(shorter[i] == usages[i]);
    }
}

/// Every number is spelled by an identifier.
proof fn lemma_uuid_exists(key: u128) -> (id: Uuid)
    ensures
        uuid_key(id) == key,
{
    crate::bytes::lemma_radix_values();
    crate::bytes::lemma_be_bytes_read_back(key as nat, 16);
    let s = crate::bytes::be_bytes(key as nat, 16);
    let id: Uuid = [
        s[0], s[1], s[2], s[3], s[4], s[5], s[6], s[7], s[8], s[9], s[10], s[11], s[12], s[13],
        s[14], s[15],
    ];
    assert(id@ =~= s);
    id
}

proof fn lemma_greatest_key(map: Map<u128, u64>) -> (greatest: u128)
    requires
        map.dom().finite(),
        map.dom().len() > 0,
    ensures
        map.contains_key(greatest),
        forall|key: u128| #[trigger] map.contains_key(key) ==> key <= greatest,
    decreases map.dom().len(),
{
    let some = map.dom().choose();
    let rest = map.remove(some);
    if rest.dom().len() == 0 {
        assert forall|key: u128| #[trigger] map.contains_key(key) implies key <= some by {
            if key != some {
                assert(rest.dom().contains(key));
            }
        }
        some
    } else {
        let other = lemma_greatest_key(rest);
        let greatest = if other < some { some } else { other };
        assert forall|key: u128| #[trigger] map.contains_key(key) implies key <= greatest by {
            if key != some {
                assert(rest.contains_key(key));
            }
        }
        greatest
    }
}

/// Every map that can be counted has a listing.
pub proof fn lemma_listing_exists(map: Map<u128, u64>)
    requires
        map.dom().finite(),
    ensures
        lists(listing(map), map),
    decreases map.dom().len(),
{
    if map.dom().len() == 0 {
        let empty = Seq::<(Uuid, u64)>::empty();
        assert forall|key: u128| #[trigger] map.contains_key(key) implies exists|i: int|
            0 <= i < empty.len() && uuid_key((#[trigger] empty[i]).0) == key by {
            assert(map.dom().contains(key));
        }
        assert(lists(empty, map));
    } else {
        let greatest = lemma_greatest_key(map);
        let rest = map.remove(greatest);
        lemma_listing_exists(rest);
        let before = listing(rest);
        let id = lemma_uuid_exists(greatest);
        let whole = before.push((id, map[greatest]));
        assert forall|i: int|
            #![trigger whole[i]]
            0 <= i < whole.len() implies map.contains_key(uuid_key(whole[i].0))
            && map[uuid_key(whole[i].0)] == whole[i].1 by {
            if i < before.len() {
                assert(whole[i] == before[i]);
                assert(rest.contains_key(uuid_key(before[i].0)));
            }
        }
        assert forall|i: int, j: int|
            #![trigger whole[i], whole[j]]
            0 <= i < j < whole.len() implies uuid_key(whole[i].0) < uuid_key(whole[j].0) by {
            assert(whole[i] == before[i]);
            assert(rest.contains_key(uuid_key(before[i].0)));
            if j < before.len() {
                assert(whole[j] == before[j]);
            }
        }
        assert forall|key: u128| #[trigger] map.contains_key(key) implies exists|i: int|
            0 <= i < whole.len() && uuid_key((#[trigger] whole[i]).0) == key by {
            if key == greatest {
                assert(uuid_key(whole[before.len() as int].0) == key);
            } else {
                assert(rest.contains_key(key));
                let i = choose|i: int|
                    0 <= i < before.len() && uuid_key((#[trigger] before[i]).0) == key;
                assert(whole[i] == before[i]);
            }
        }
        assert(lists(whole, map));
    }
}

/// What was counted in a map is what the listing of it gives back, for every
/// identifier.
pub proof fn lemma_listing_gives_back(map: Map<u128, u64>, usages: Seq<(Uuid, u64)>, id: Uuid)
    requires
        lists(usages, map),
    ensures
        found(usages, id) == (if map.contains_key(uuid_key(id)) {
            Some(map[uuid_key(id)])
        } else {
            None
        }),
{
    assert(ids_sorted(usages));
    lemma_found_is_lookup(usages, id);
    if map.contains_key(uuid_key(id)) {
        let i = choose|i: int|
            0 <= i < usages.len() && uuid_key((#[trigger] usages[i]).0) == uuid_key(id);
        lemma_uuid_key_injective(usages[i].0, id);
        lemma_lookup_last(usages, id, i);
    } else {
        assert forall|i: int| 0 <= i < usages.len() implies (#[trigger] usages[i]).0 != id by {
            assert(map.contains_key(uuid_key(usages[i].0)));
        }
    }
}

/// The size in bytes of an `EpochUsage` where addresses have 64 bits. A table has its
/// room set aside when it is made, and no allocation exceeds `isize::MAX` bytes.
pub const EPOCH_USAGE_SIZE: usize = 32;

impl EpochUsageTable {
    /// Makes an empty table for a ring of `capacity` nodes.
    pub fn new(recent_epoch: u64, capacity: usize) -> (table: Self)
        requires
            capacity * EPOCH_USAGE_SIZE <= isize::MAX,
        ensures
            table@ == (TableView { recent_epoch, node_count: capacity, tables: Seq::empty() }),
            capacity >= 1 ==> table@.valid(),
    {
        let table = Self { recent_epoch, node_count: capacity, tables: Vec::with_capacity(capacity) };
        proof {
            assert(table@.tables =~= Seq::<EpochView>::empty());
        }
        table
    }

    /// Puts an epoch in front.
    /// If the table is full, the oldest epoch (the last element) is removed.
    pub fn push_epoch(&mut self, epoch: EpochUsage)
        requires
            old(self).node_count >= 1,
        ensures
            final(self)@ == old(self)@.pushed(epoch@),
            old(self)@.valid() && ids_increasing(epoch@.usages) ==> final(self)@.valid(),
            final(self).recent_epoch == epoch.epoch,
            final(self).node_count == old(self).node_count,
            final(self)@.tables[0] == epoch@,
            final(self)@.tables.len() == (if old(self)@.tables.len() > 0 && old(self)@.tables.len()
                + 1 >= old(self).node_count {
                old(self)@.tables.len()
            } else {
                old(self)@.tables.len() + 1
            }),
            forall|i: int|
                #![trigger final(self)@.tables[i]]
                1 <= i < final(self)@.tables.len() ==> final(self)@.tables[i]
                    == old(self)@.tables[i - 1],
    {
        self.recent_epoch = epoch.epoch;
        if self.tables.len() >= self.node_count - 1 {
            self.tables.pop();
        }
        let ghost kept = self.tables@;
        proof {
            assert(kept.map_values(|epoch: EpochUsage| epoch@) =~= old(self)@.kept());
        }
        self.tables.insert(0, epoch);
        proof {
            assert(self@.tables =~= old(self)@.pushed(epoch@).tables);
            if old(self)@.valid() && ids_increasing(epoch@.usages) {
                lemma_push_keeps_valid(old(self)@, epoch@);
            }
        }
    }

    /// The usage of an identifier over the first `count` epochs.
    fn usage_of_first(&self, node_id: &Uuid, count: usize) -> (total: u64)
        requires
            count <= self.tables@.len(),
            usage_sum(self@.tables.take(count as int), *node_id) <= u64::MAX,
        ensures
            total == usage_sum(self@.tables.take(count as int), *node_id),
    {
        let mut total: u64 = 0;
        let mut i: usize = 0;
        let ghost epochs = self@.tables.take(count as int);
        while i < count
            invariant
                i <= count <= self.tables@.len(),
                epochs == self@.tables.take(count as int),
                usage_sum(epochs, *node_id) <= u64::MAX,
                total == usage_sum(epochs.take(i as int), *node_id),
            decreases count - i,
        {
            proof {
                lemma_usage_sum_step(epochs, *node_id, i as int);
                lemma_usage_sum_prefix(epochs, *node_id, i + 1);
                assert(epochs[i as int] == self.tables@[i as int]@);
            }
            if let Some(usage) = self.tables[i].get_usage(node_id) {
                total = total + usage;
            }
            i = i + 1;
        }
        proof {
            assert(epochs.take(i as int) =~= epochs);
        }
        total
    }

    /// The usage of an identifier over all epochs of the table.
    pub fn get_usage(&self, node_id: &Uuid) -> (total: u64)
        requires
            self@.total(*node_id) <= u64::MAX,
        ensures
            total == self@.total(*node_id),
            self@.valid() ==> total == recorded_sum(self@.tables, *node_id),
            total == sum_of(
                |i: int| self@.tables[i].amount(*node_id),
                self@.tables.len() as int,
            ),
    {
        proof {
            lemma_total_adds_up_the_epochs(self@, *node_id);
            assert(self@.tables.take(self.tables@.len() as int) =~= self@.tables);
            if self@.valid() {
                lemma_total_is_recorded(self@, *node_id);
            }
        }
        self.usage_of_first(node_id, self.tables.len())
    }

    /// The usage of an identifier over all epochs of the table, or `None` where it does
    /// not fit in 64 bits.
    pub fn checked_usage(&self, node_id: &Uuid) -> (total: Option<u64>)
        ensures
            total is None <==> self@.total(*node_id) > u64::MAX,
            total matches Some(sum) ==> sum == self@.total(*node_id),
            self@.valid() ==> (total is None <==> recorded_sum(self@.tables, *node_id) > u64::MAX),
            total matches Some(sum) ==> self@.valid() ==> sum == recorded_sum(
                self@.tables,
                *node_id,
            ),
            total matches Some(sum) ==> sum == sum_of(
                |i: int| self@.tables[i].amount(*node_id),
                self@.tables.len() as int,
            ),
    {
        proof {
            lemma_total_adds_up_the_epochs(self@, *node_id);
            if self@.valid() {
                lemma_total_is_recorded(self@, *node_id);
            }
        }
        let mut total: u64 = 0;
        let mut i: usize = 0;
        let ghost epochs = self@.tables;
        while i < self.tables.len()
            invariant
                i <= self.tables@.len(),
                epochs == self@.tables,
                total == usage_sum(epochs.take(i as int), *node_id),
                self@.valid() ==> self@.total(*node_id) == recorded_sum(epochs, *node_id),
            decreases self.tables@.len() - i,
        {
            proof {
                lemma_usage_sum_step(epochs, *node_id, i as int);
                lemma_usage_sum_prefix(epochs, *node_id, i + 1);
                assert(epochs[i as int] == self.tables@[i as int]@);
            }
            if let Some(usage) = self.tables[i].get_usage(node_id) {
                match total.checked_add(usage) {
                    Some(sum) => {
                        total = sum;
                    },
                    None => {
                        return None;
                    },
                }
            }
            i = i + 1;
        }
        proof {
            assert(epochs.take(i as int) =~= epochs);
        }
        Some(total)
    }

    /// The usage of an identifier without the oldest epoch, if that will be dropped when
    /// the table is passed on. This is the usage that the next node will see of the
    /// nodes before this one, after this node has added its own.
    pub fn get_usage_excluding_oldest(&self, node_id: &Uuid) -> (total: u64)
        requires
            self.tables@.len() > 0 ==> self.node_count >= 1,
            usage_sum(self@.kept(), *node_id) <= u64::MAX,
        ensures
            total == usage_sum(self@.kept(), *node_id),
            self@.valid() ==> total == recorded_sum(self@.kept(), *node_id),
            total == sum_of(
                |i: int| self@.tables[i].amount(*node_id),
                if self@.tables.len() > 0 && self@.tables.len() + 1 >= self.node_count {
                    self@.tables.len() - 1
                } else {
                    self@.tables.len() as int
                },
            ),
    {
        proof {
            lemma_excluding_oldest_adds_up(self@, *node_id);
            if self@.valid() {
                lemma_kept_is_recorded(self@, *node_id);
            }
        }
        if self.tables.len() == 0 {
            return 0;
        }
        let will_drop = self.tables.len() >= self.node_count - 1;
        let count: usize = if will_drop {
            self.tables.len() - 1
        } else {
            self.tables.len()
        };
        proof {
            assert(self@.tables.take(count as int) =~= self@.kept());
        }
        self.usage_of_first(node_id, count)
    }
}

impl Default for EpochUsageTable {
    fn default() -> (table: Self)
        ensures
            table@ == (TableView { recent_epoch: 0, node_count: 10, tables: Seq::empty() }),
    {
        Self::new(0, 10)
    }
}

proof fn lemma_usage_sum_step(epochs: Seq<EpochView>, id: Uuid, i: int)
    requires
        0 <= i < epochs.len(),
    ensures
        usage_sum(epochs.take(i + 1), id) == usage_sum(epochs.take(i), id) + epochs[i].amount(id),
{
    assert(epochs.take(i + 1).drop_last() =~= epochs.take(i));
}

proof fn lemma_usage_sum_prefix(epochs: Seq<EpochView>, id: Uuid, i: int)
    requires
        0 <= i <= epochs.len(),
    ensures
        usage_sum(epochs.take(i), id) <= usage_sum(epochs, id),
    decreases epochs.len() - i,
{
    if i < epochs.len() {
        lemma_usage_sum_step(epochs, id, i);
        lemma_usage_sum_prefix(epochs, id, i + 1);
    } else {
        assert(epochs.take(i) =~= epochs);
    }
}

proof fn lemma_sum_is_recorded(epochs: Seq<EpochView>, id: Uuid)
    requires
        forall|i: int| 0 <= i < epochs.len() ==> ids_increasing((#[trigger] epochs[i]).usages),
    ensures
        usage_sum(epochs, id) == recorded_sum(epochs, id),
    decreases epochs.len(),
{
    if epochs.len() > 0 {
        let shorter = epochs.drop_last();
        assert forall|i: int| 0 <= i < shorter.len() implies ids_increasing(
            (#[trigger] shorter[i]).usages,
        ) by {
            assert(shorter[i] == epochs[i]);
        }
        lemma_sum_is_recorded(shorter, id);
        assert(ids_increasing(epochs[epochs.len() - 1].usages));
        assert(ids_sorted(epochs.last().usages));
        lemma_found_is_lookup(epochs.last().usages, id);
    }
}

/// Searching loses nothing: the total of a valid table is the sum of what its epochs
/// record.
pub proof fn lemma_total_is_recorded(table: TableView, id: Uuid)
    requires
        table.valid(),
    ensures
        table.total(id) == recorded_sum(table.tables, id),
{
    lemma_sum_is_recorded(table.tables, id);
}

/// The same holds of the epochs that a push keeps.
pub proof fn lemma_kept_is_recorded(table: TableView, id: Uuid)
    requires
        table.valid(),
    ensures
        usage_sum(table.kept(), id) == recorded_sum(table.kept(), id),
{
    assert forall|i: int| 0 <= i < table.kept().len() implies ids_increasing(
        (#[trigger] table.kept()[i]).usages,
    ) by {
        assert(table.kept()[i] == table.tables[i]);
    }
    lemma_sum_is_recorded(table.kept(), id);
}

/// An epoch in front adds its amount to the sum.
pub proof fn lemma_usage_sum_front(epoch: EpochView, epochs: Seq<EpochView>, id: Uuid)
    ensures
        usage_sum(seq![epoch] + epochs, id) == epoch.amount(id) + usage_sum(epochs, id),
    decreases epochs.len(),
{
    let whole = seq![epoch] + epochs;
    if epochs.len() == 0 {
        assert(whole.drop_last() =~= Seq::<EpochView>::empty());
        assert(whole.last() == epoch);
        assert(usage_sum(whole.drop_last(), id) == 0);
    } else {
        lemma_usage_sum_front(epoch, epochs.drop_last(), id);
        assert(whole.drop_last() =~= seq![epoch] + epochs.drop_last());
        assert(whole.last() == epochs.last());
    }
}

/// What `get_usage_excluding_oldest` gives is what the next node will see of the nodes
/// before: after any push, the total is the pushed epoch's amount and that.
pub proof fn lemma_excluding_oldest_is_what_a_push_keeps(
    table: TableView,
    epoch: EpochView,
    id: Uuid,
)
    ensures
        table.pushed(epoch).total(id) == epoch.amount(id) + usage_sum(table.kept(), id),
{
    lemma_usage_sum_front(epoch, table.kept(), id);
}

/// Leaving out the oldest epoch never adds usage.
pub proof fn lemma_excluding_oldest_is_no_more(table: TableView, id: Uuid)
    ensures
        usage_sum(table.kept(), id) <= table.total(id),
{
    if table.tables.len() > 0 {
        lemma_usage_sum_prefix(table.tables, id, table.tables.len() - 1);
        assert(table.tables.take(table.tables.len() - 1) =~= table.tables.drop_last());
    }
}

/// A push keeps a table valid: in particular it never outgrows its window.
pub proof fn lemma_push_keeps_valid(table: TableView, epoch: EpochView)
    requires
        table.valid(),
        ids_increasing(epoch.usages),
    ensures
        table.pushed(epoch).valid(),
{
    let next = table.pushed(epoch);
    assert forall|i: int| 0 <= i < next.tables.len() implies ids_increasing(
        (#[trigger] next.tables[i]).usages,
    ) by {
        if i > 0 {
            assert(next.tables[i] == table.tables[i - 1]);
        }
    }
}

/// The table is a ring buffer: of the epochs pushed into a fresh table it holds the
/// most recent, as many as its window has room for, newest first.
pub proof fn lemma_table_holds_most_recent(table: TableView, epochs: Seq<EpochView>)
    requires
        table.node_count >= 1,
        table.tables.len() == 0,
    ensures
        table.pushed_all(epochs).node_count == table.node_count,
        table.pushed_all(epochs).tables == epochs.reverse().take(
            if epochs.len() <= table.window() {
                epochs.len() as int
            } else {
                table.window() as int
            },
        ),
    decreases epochs.len(),
{
    if epochs.len() == 0 {
        assert(table.tables =~= epochs.reverse().take(0));
    } else {
        let before = epochs.drop_last();
        lemma_table_holds_most_recent(table, before);
        let held = table.pushed_all(before);
        let n = if epochs.len() <= table.window() {
            epochs.len() as int
        } else {
            table.window() as int
        };
        assert(table.pushed_all(epochs).tables =~= epochs.reverse().take(n));
    }
}

/// What a table looks like from outside is what it holds.
pub proof fn lemma_view_shows_the_table(table: EpochUsageTable, i: int)
    requires
        0 <= i < table.tables@.len(),
    ensures
        table@.recent_epoch == table.recent_epoch,
        table@.node_count == table.node_count,
        table@.tables.len() == table.tables@.len(),
        table@.tables[i].epoch == table.tables@[i].epoch,
        table@.tables[i].usages == table.tables@[i].usages@,
{
}

/// Searching an ordered record for an identifier gives the amount of its entry, and zero
/// exactly for want of one.
pub proof fn lemma_amount_is_that_of_the_entry(record: EpochView, id: Uuid)
    requires
        forall|i: int, j: int|
            #![trigger record.usages[i], record.usages[j]]
            0 <= i < j < record.usages.len() ==> uuid_key(record.usages[i].0) < uuid_key(
                record.usages[j].0,
            ),
    ensures
        forall|i: int|
            0 <= i < record.usages.len() && (#[trigger] record.usages[i]).0 == id ==> record.amount(
                id,
            ) == record.usages[i].1,
        (forall|i: int| 0 <= i < record.usages.len() ==> (#[trigger] record.usages[i]).0 != id)
            ==> record.amount(id) == 0,
{
    assert(ids_sorted(record.usages));
    lemma_found_is_lookup(record.usages, id);
    assert forall|i: int|
        0 <= i < record.usages.len() && (#[trigger] record.usages[i]).0 == id implies record.amount(
        id,
    ) == record.usages[i].1 by {
        lemma_lookup_last(record.usages, id, i);
    }
}

/// What is found for an identifier does not depend on how the entries are held: every
/// entry of a listed map is found with its amount, and nothing else is.
pub proof fn lemma_listed_amounts(map: Map<u128, u64>, usages: Seq<(Uuid, u64)>, epoch: u64, id: Uuid)
    requires
        lists(usages, map),
    ensures
        (EpochView { epoch, usages }).amount(id) == (if map.contains_key(uuid_key(id)) {
            map[uuid_key(id)] as nat
        } else {
            0
        }),
        (EpochView { epoch, usages }).amount(id) == amount_in(map, id),
{
    lemma_listing_gives_back(map, usages, id);
}

/// Counting an amount for an identifier is seen under that identifier, and under no other.
pub proof fn lemma_amount_in_follows_the_map(map: Map<u128, u64>, id: Uuid, amount: u64, other: Uuid)
    ensures
        amount_in(map.insert(uuid_key(id), amount), id) == amount,
        other != id ==> amount_in(map.insert(uuid_key(id), amount), other) == amount_in(map, other),
        !map.contains_key(uuid_key(id)) ==> amount_in(map, id) == 0,
        amount_in(Map::<u128, u64>::empty(), id) == 0,
{
    if other != id && uuid_key(other) == uuid_key(id) {
        lemma_uuid_key_injective(other, id);
    }
}

proof fn lemma_usage_sum_adds_up(epochs: Seq<EpochView>, id: Uuid)
    ensures
        usage_sum(epochs, id) == sum_of(|i: int| epochs[i].amount(id), epochs.len() as int),
    decreases epochs.len(),
{
    if epochs.len() > 0 {
        let shorter = epochs.drop_last();
        lemma_usage_sum_adds_up(shorter, id);
        assert forall|i: int| 0 <= i < shorter.len() implies (#[trigger] shorter[i]).amount(id)
            == epochs[i].amount(id) by {}
        crate::sum::lemma_sum_agree(
            |i: int| shorter[i].amount(id),
            |i: int| epochs[i].amount(id),
            shorter.len() as int,
        );
    }
}

/// The usage of an identifier over a table is the sum over all of its epochs, however
/// many there are.
pub proof fn lemma_total_adds_up_the_epochs(table: TableView, id: Uuid)
    ensures
        table.total(id) == sum_of(
            |i: int| table.tables[i].amount(id),
            table.tables.len() as int,
        ),
{
    lemma_usage_sum_adds_up(table.tables, id);
}

/// Leaving out the oldest epoch leaves out one epoch, the last, and that only where there
/// are as many as the nodes before this one.
pub proof fn lemma_excluding_oldest_adds_up(table: TableView, id: Uuid)
    ensures
        usage_sum(table.kept(), id) == sum_of(
            |i: int| table.tables[i].amount(id),
            if table.tables.len() > 0 && table.tables.len() + 1 >= table.node_count {
                table.tables.len() - 1
            } else {
                table.tables.len() as int
            },
        ),
{
    lemma_usage_sum_adds_up(table.kept(), id);
    assert forall|i: int| 0 <= i < table.kept().len() implies (#[trigger] table.kept()[i]).amount(
        id,
    ) == table.tables[i].amount(id) by {}
    crate::sum::lemma_sum_agree(
        |i: int| table.kept()[i].amount(id),
        |i: int| table.tables[i].amount(id),
        table.kept().len() as int,
    );
}

/// A push puts the epoch in front and moves the others back by one place, in their order;
/// at most the last of them is lost, and only where the table is full.
pub proof fn lemma_push_moves_epochs_back(table: TableView, epoch: EpochView)
    ensures
        ({
            let after = table.pushed(epoch);
            let held = table.tables.len();
            &&& after.recent_epoch == epoch.epoch
            &&& after.node_count == table.node_count
            &&& after.tables[0] == epoch
            &&& held == 0 || held + 1 < table.node_count ==> after.tables.len() == held + 1
            &&& held > 0 && held + 1 >= table.node_count ==> after.tables.len() == held
            &&& forall|i: int|
                #![trigger after.tables[i]]
                1 <= i < after.tables.len() ==> after.tables[i] == table.tables[i - 1]
        }),
{
}

/// Of the epochs pushed into a fresh table for `n` nodes, the table holds the last `n - 1`,
/// or the last one where there are fewer than two nodes, the newest first.
pub proof fn lemma_pushed_epochs_are_held(
    recent_epoch: u64,
    node_count: usize,
    epochs: Seq<EpochView>,
)
    requires
        node_count >= 1,
    ensures
        ({
            let fresh = TableView { recent_epoch, node_count, tables: Seq::empty() };
            let after = fresh.pushed_all(epochs);
            let room = if node_count <= 2 {
                1
            } else {
                node_count - 1
            };
            &&& after.tables.len() == (if epochs.len() <= room {
                epochs.len() as int
            } else {
                room
            })
            &&& forall|i: int|
                #![trigger after.tables[i]]
                0 <= i < after.tables.len() ==> after.tables[i] == epochs[epochs.len() - 1 - i]
            &&& epochs.len() > 0 ==> after.recent_epoch == epochs.last().epoch
            &&& epochs.len() == 0 ==> after == fresh
            &&& after.node_count == node_count
        }),
{
    let fresh = TableView { recent_epoch, node_count, tables: Seq::empty() };
    lemma_table_holds_most_recent(fresh, epochs);
}

/// Every table that keeps to its size, names its newest epoch, and has its entries in
/// order is valid.
pub proof fn lemma_ordered_tables_are_valid(table: TableView)
    requires
        table.node_count >= 1,
        table.tables.len() <= 1 || table.tables.len() < table.node_count,
        table.tables.len() > 0 ==> table.recent_epoch == table.tables[0].epoch,
        forall|k: int, i: int, j: int|
            #![trigger table.tables[k].usages[i], table.tables[k].usages[j]]
            0 <= k < table.tables.len() && 0 <= i < j < table.tables[k].usages.len() ==> uuid_key(
                table.tables[k].usages[i].0,
            ) < uuid_key(table.tables[k].usages[j].0),
    ensures
        table.valid(),
{
}

} // verus!
