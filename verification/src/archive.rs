//! Usage tables as bytes, in the archive format of rkyv.

use crate::sum::sum_of;
use crate::usage::{EpochUsage, EpochUsageTable, EpochView, TableView, Uuid};
use rkyv::rancor::BoxedError;
use vstd::prelude::*;

verus! {

/// A table as nested tuples: recent epoch, node count, and each epoch with its entries.
/// rkyv lays such tuples out exactly as it does structs with these fields in this order.
pub type PlainTable = (u64, usize, Vec<(u64, Vec<(Uuid, u64)>)>);

#[verifier::external_type_specification]
#[verifier::external_body]
pub struct ExBoxedError(BoxedError);

/// The bytes that rkyv's `to_bytes` makes of a table.
pub uninterp spec fn archive_bytes(
    recent_epoch: u64,
    node_count: usize,
    epochs: Seq<(u64, Seq<(Uuid, u64)>)>,
) -> Seq<u8>;

/// The table that rkyv's `from_bytes` reads out of bytes, if it accepts them.
pub uninterp spec fn archive_contents(bytes: Seq<u8>) -> Option<
    (u64, usize, Seq<(u64, Seq<(Uuid, u64)>)>),
>;

/// The epochs of a table in nested tuples.
pub open spec fn plain_epochs(epochs: Seq<(u64, Vec<(Uuid, u64)>)>) -> Seq<
    (u64, Seq<(Uuid, u64)>),
> {
    epochs.map_values(|epoch: (u64, Vec<(Uuid, u64)>)| (epoch.0, epoch.1@))
}

/// What an attempt to read an archive gave.
pub open spec fn outcome_contents(outcome: Result<PlainTable, BoxedError>) -> Option<
    (u64, usize, Seq<(u64, Seq<(Uuid, u64)>)>),
> {
    match outcome {
        Ok(table) => Some((table.0, table.1, plain_epochs(table.2@))),
        Err(_) => None,
    }
}

/// The epochs of a table, each as a pair.
pub open spec fn epoch_pairs(epochs: Seq<EpochView>) -> Seq<(u64, Seq<(Uuid, u64)>)> {
    epochs.map_values(|epoch: EpochView| (epoch.epoch, epoch.usages))
}

/// The epochs that pairs stand for.
pub open spec fn epochs_of_pairs(pairs: Seq<(u64, Seq<(Uuid, u64)>)>) -> Seq<EpochView> {
    pairs.map_values(|pair: (u64, Seq<(Uuid, u64)>)| EpochView { epoch: pair.0, usages: pair.1 })
}

/// How many entries the epochs hold together.
pub open spec fn entry_count(epochs: Seq<(u64, Seq<(Uuid, u64)>)>) -> nat
    decreases epochs.len(),
{
    if epochs.len() == 0 {
        0
    } else {
        entry_count(epochs.drop_last()) + epochs.last().1.len()
    }
}

/// How many bytes an archived table takes: 24 for each entry, 16 for each epoch and 24
/// for the table itself.
pub open spec fn archive_len(epochs: Seq<(u64, Seq<(Uuid, u64)>)>) -> nat {
    24 * entry_count(epochs) + 16 * epochs.len() + 24
}

/// How far behind the place where an epoch points to its entries these entries begin.
/// The entries of all epochs come first, one epoch's after the other's, and then the
/// epochs.
pub open spec fn entries_offset(epochs: Seq<(u64, Seq<(Uuid, u64)>)>, i: int) -> int {
    24 * (entry_count(epochs) - entry_count(epochs.take(i))) + 16 * i + 8
}

/// Whether a table can be archived: the offsets within an archive have 32 bits with a
/// sign, and an archive is one allocation. rkyv panics on any other table.
pub open spec fn archive_fits(epochs: Seq<(u64, Seq<(Uuid, u64)>)>) -> bool {
    &&& forall|i: int|
        0 <= i < epochs.len() ==> #[trigger] entries_offset(epochs, i) <= 0x8000_0000
    &&& 16 * epochs.len() + 12 <= 0x8000_0000
    &&& archive_len(epochs) <= isize::MAX - 15
}

impl TableView {
    /// Whether the table can be archived.
    pub open spec fn archivable(self) -> bool {
        archive_fits(epoch_pairs(self.tables))
    }

    /// The archive of the table.
    pub open spec fn archive(self) -> Seq<u8> {
        archive_bytes(self.recent_epoch, self.node_count, epoch_pairs(self.tables))
    }
}

/// The table in an archive, if the bytes are one.
pub open spec fn archived_table(bytes: Seq<u8>) -> Option<TableView> {
    match archive_contents(bytes) {
        Some((recent_epoch, node_count, pairs)) => Some(
            TableView { recent_epoch, node_count, tables: epochs_of_pairs(pairs) },
        ),
        None => None,
    }
}

/// Archives a table with `rkyv::to_bytes`.
///
/// Trusted: the bytes depend on nothing but the table; there are `archive_len` of them,
/// since the entries, the epochs and the table are written one after the other with no
/// gaps; and the call succeeds, since neither the buffer nor the arena that it writes
/// to ever refuses.
#[verifier::external_body]
fn to_archive(table: &PlainTable) -> (result: Result<Vec<u8>, BoxedError>)
    requires
        archive_fits(plain_epochs(table.2@)),
    ensures
        result is Ok,
        result->Ok_0@ == archive_bytes(table.0, table.1, plain_epochs(table.2@)),
        result->Ok_0@.len() == archive_len(plain_epochs(table.2@)),
{
    rkyv::to_bytes::<BoxedError>(table).map(|bytes| bytes.into_vec())
}

/// Checks and reads an archive with `rkyv::from_bytes`, after moving the bytes to where
/// they are aligned as the format asks.
///
/// Trusted: what is read depends on nothing but the bytes, and the archive of a table is
/// read back as that table. A node count is archived in 32 bits, so the latter is
/// claimed of no greater one.
#[verifier::external_body]
fn from_archive(bytes: &[u8]) -> (result: Result<PlainTable, BoxedError>)
    requires
        bytes@.len() <= isize::MAX - 15,
    ensures
        outcome_contents(result) == archive_contents(bytes@),
        forall|recent_epoch: u64, node_count: usize, epochs: Seq<(u64, Seq<(Uuid, u64)>)>|
            archive_fits(epochs) && node_count <= u32::MAX && bytes@ == #[trigger] archive_bytes(
                recent_epoch,
                node_count,
                epochs,
            ) ==> outcome_contents(result) == Some((recent_epoch, node_count, epochs)),
{
    let mut aligned: rkyv::util::AlignedVec = rkyv::util::AlignedVec::with_capacity(bytes.len());
    aligned.extend_from_slice(bytes);
    rkyv::from_bytes::<PlainTable, BoxedError>(&aligned)
}

proof fn lemma_entry_count_step(epochs: Seq<(u64, Seq<(Uuid, u64)>)>, i: int)
    requires
        0 <= i < epochs.len(),
    ensures
        entry_count(epochs.take(i + 1)) == entry_count(epochs.take(i)) + epochs[i].1.len(),
{
    assert(epochs.take(i + 1).drop_last() =~= epochs.take(i));
}

proof fn lemma_entry_count_prefix(epochs: Seq<(u64, Seq<(Uuid, u64)>)>, i: int)
    requires
        0 <= i <= epochs.len(),
    ensures
        entry_count(epochs.take(i)) <= entry_count(epochs),
    decreases epochs.len() - i,
{
    if i < epochs.len() {
        lemma_entry_count_step(epochs, i);
        lemma_entry_count_prefix(epochs, i + 1);
    } else {
        assert(epochs.take(i) =~= epochs);
    }
}

/// More entries than this fit in no archive: the first epoch could not point to them.
pub const MAX_ARCHIVE_ENTRIES: u64 = 89478485;

/// More epochs than this fit in no archive: the table could not point to them.
pub const MAX_ARCHIVE_EPOCHS: u64 = 134217727;

/// How many bytes the archive of a table will take, or `None` where the table cannot be
/// archived.
pub fn archive_size(table: &EpochUsageTable) -> (size: Option<u64>)
    ensures
        size is Some <==> table@.archivable(),
        size matches Some(len) ==> len == archive_len(epoch_pairs(table@.tables)),
        size matches Some(len) ==> len == 24 * sum_of(
            |i: int| table@.tables[i].usages.len(),
            table@.tables.len() as int,
        ) + 16 * table@.tables.len() + 24,
{
    proof {
        lemma_archive_len_adds_up(table@);
    }
    let ghost pairs = epoch_pairs(table@.tables);
    if table.tables.len() as u64 > MAX_ARCHIVE_EPOCHS {
        return None;
    }
    let mut entries: u64 = 0;
    let mut i: usize = 0;
    while i < table.tables.len()
        invariant
            i <= table.tables@.len(),
            pairs == epoch_pairs(table@.tables),
            pairs.len() == table.tables@.len(),
            entries == entry_count(pairs.take(i as int)),
            entries <= MAX_ARCHIVE_ENTRIES,
        decreases table.tables@.len() - i,
    {
        proof {
            lemma_entry_count_step(pairs, i as int);
            lemma_entry_count_prefix(pairs, i + 1);
            assert(pairs[i as int].1 == table.tables@[i as int].usages@);
            assert(entry_count(pairs.take(0)) == 0);
            assert(entries_offset(pairs, 0) == 24 * entry_count(pairs) + 8);
        }
        let more: u64 = table.tables[i].usages.len() as u64;
        if more > MAX_ARCHIVE_ENTRIES - entries {
            return None;
        }
        entries = entries + more;
        i = i + 1;
    }
    proof {
        assert(pairs.take(i as int) =~= pairs);
    }
    let mut left: u64 = entries;
    let mut j: usize = 0;
    while j < table.tables.len()
        invariant
            j <= table.tables@.len() <= MAX_ARCHIVE_EPOCHS,
            pairs == epoch_pairs(table@.tables),
            pairs.len() == table.tables@.len(),
            entries == entry_count(pairs),
            entries <= MAX_ARCHIVE_ENTRIES,
            left == entries - entry_count(pairs.take(j as int)),
            forall|k: int| 0 <= k < j ==> #[trigger] entries_offset(pairs, k) <= 0x8000_0000,
        decreases table.tables@.len() - j,
    {
        proof {
            lemma_entry_count_step(pairs, j as int);
            lemma_entry_count_prefix(pairs, j + 1);
            assert(pairs[j as int].1 == table.tables@[j as int].usages@);
        }
        if 24 * left + 16 * j as u64 + 8 > 0x8000_0000 {
            proof {
                assert(entries_offset(pairs, j as int) > 0x8000_0000);
            }
            return None;
        }
        left = left - table.tables[j].usages.len() as u64;
        j = j + 1;
    }
    let len: u64 = 24 * entries + 16 * table.tables.len() as u64 + 24;
    if len <= (isize::MAX - 15) as u64 {
        Some(len)
    } else {
        None
    }
}

/// Whether a table can be archived.
pub fn is_archivable(table: &EpochUsageTable) -> (fits: bool)
    ensures
        fits == table@.archivable(),
{
    archive_size(table).is_some()
}

/// Archives a table.
pub fn encode_table(table: EpochUsageTable) -> (result: Result<Vec<u8>, BoxedError>)
    requires
        table@.archivable(),
    ensures
        result matches Ok(bytes) && bytes@ == table@.archive() && bytes@.len() == archive_len(
            epoch_pairs(table@.tables),
        ),
{
    let ghost records = table.tables@;
    let ghost view = table@;
    let mut epochs: Vec<(u64, Vec<(Uuid, u64)>)> = Vec::new();
    for record in it: table.tables
        invariant
            it.seq() == records,
            epochs@.len() == it.index(),
            forall|i: int|
                #![trigger epochs@[i]]
                0 <= i < epochs@.len() ==> epochs@[i] == (records[i].epoch, records[i].usages),
    {
        epochs.push((record.epoch, record.usages));
    }
    proof {
        assert(plain_epochs(epochs@) =~= epoch_pairs(view.tables));
    }
    to_archive(&(table.recent_epoch, table.node_count, epochs))
}

/// Reads a table out of an archive.
pub fn decode_table(bytes: &[u8]) -> (result: Result<EpochUsageTable, BoxedError>)
    requires
        bytes@.len() <= isize::MAX - 15,
    ensures
        result is Ok <==> archived_table(bytes@) is Some,
        result matches Ok(table) ==> archived_table(bytes@) == Some(table@),
        forall|table: TableView|
            table.archivable() && table.node_count <= u32::MAX && bytes@ == #[trigger] table.archive()
                ==> (result matches Ok(read) && read@ == table),
{
    match from_archive(bytes) {
        Ok(plain) => {
            let ghost records = plain.2@;
            let ghost pairs = plain_epochs(records);
            let mut tables: Vec<EpochUsage> = Vec::new();
            for record in it: plain.2
                invariant
                    it.seq() == records,
                    tables@.len() == it.index(),
                    forall|i: int|
                        #![trigger tables@[i]]
                        0 <= i < tables@.len() ==> tables@[i].epoch == records[i].0
                            && tables@[i].usages == records[i].1,
            {
                tables.push(EpochUsage { epoch: record.0, usages: record.1 });
            }
            let table = EpochUsageTable { recent_epoch: plain.0, node_count: plain.1, tables };
            proof {
                assert(table@.tables =~= epochs_of_pairs(pairs));
                assert forall|written: TableView|
                    written.archivable() && written.node_count <= u32::MAX && bytes@
                        == #[trigger] written.archive() implies table@ == written by {
                    assert(table@.tables =~= written.tables) by {
                        let given = epoch_pairs(written.tables);
                        assert(pairs == given);
                        assert forall|i: int| 0 <= i < written.tables.len() implies
                            table@.tables[i] == written.tables[i] by {
                            assert(given[i] == (written.tables[i].epoch, written.tables[i].usages));
                            assert(pairs[i] == (records[i].0, records[i].1@));
                        }
                    }
                }
            }
            Ok(table)
        },
        Err(error) => Err(error),
    }
}

proof fn lemma_entry_count_adds_up(epochs: Seq<(u64, Seq<(Uuid, u64)>)>)
    ensures
        entry_count(epochs) == sum_of(|i: int| epochs[i].1.len(), epochs.len() as int),
    decreases epochs.len(),
{
    if epochs.len() > 0 {
        let shorter = epochs.drop_last();
        lemma_entry_count_adds_up(shorter);
        crate::sum::lemma_sum_agree(
            |i: int| shorter[i].1.len(),
            |i: int| epochs[i].1.len(),
            shorter.len() as int,
        );
    }
}

/// An archive takes 24 bytes for every entry of every epoch, 16 for every epoch, and 24
/// for the table.
pub proof fn lemma_archive_len_adds_up(table: TableView)
    ensures
        archive_len(epoch_pairs(table.tables)) == 24 * sum_of(
            |i: int| table.tables[i].usages.len(),
            table.tables.len() as int,
        ) + 16 * table.tables.len() + 24,
{
    let pairs = epoch_pairs(table.tables);
    lemma_entry_count_adds_up(pairs);
    crate::sum::lemma_sum_agree(
        |i: int| pairs[i].1.len(),
        |i: int| table.tables[i].usages.len(),
        pairs.len() as int,
    );
}

/// Every table whose archive takes no more than 2 GiB, less what its placement may take,
/// can be archived, however its entries are spread over the epochs.
pub proof fn lemma_tables_up_to_the_offsets_fit(table: TableView)
    requires
        24 * sum_of(|i: int| table.tables[i].usages.len(), table.tables.len() as int) + 16
            * table.tables.len() + 24 <= 0x7fff_fff0,
    ensures
        table.archivable(),
{
    lemma_archive_len_adds_up(table);
    let pairs = epoch_pairs(table.tables);
    assert forall|i: int| 0 <= i < pairs.len() implies #[trigger] entries_offset(pairs, i)
        <= 0x8000_0000 by {
        lemma_entry_count_prefix(pairs, i);
    }
}

/// A table is archived, and read, field by field: the recent epoch, the node count, and
/// each epoch with its entries, in their order.
pub proof fn lemma_archive_keeps_every_field(table: TableView, bytes: Seq<u8>)
    ensures
        ({
            let pairs = epoch_pairs(table.tables);
            &&& table.archive() == archive_bytes(table.recent_epoch, table.node_count, pairs)
            &&& pairs.len() == table.tables.len()
            &&& forall|i: int|
                #![trigger pairs[i]]
                0 <= i < pairs.len() ==> pairs[i].0 == table.tables[i].epoch && pairs[i].1
                    == table.tables[i].usages
        }),
        archived_table(bytes) is Some <==> archive_contents(bytes) is Some,
        archived_table(bytes) matches Some(read) ==> ({
            let contents = archive_contents(bytes)->Some_0;
            &&& read.recent_epoch == contents.0
            &&& read.node_count == contents.1
            &&& read.tables.len() == contents.2.len()
            &&& forall|i: int|
                #![trigger read.tables[i]]
                0 <= i < read.tables.len() ==> read.tables[i].epoch == contents.2[i].0
                    && read.tables[i].usages == contents.2[i].1
        }),
{
}

} // verus!
