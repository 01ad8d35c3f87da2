//! The exchange by which a node pulls the usage table of its predecessor: one request
//! and one reply, as bytes.
//!
//! A request is the epoch, in eight bytes. A reply is a status byte and what it
//! announces: after `STATUS_EPOCH_MISMATCH`, the server's epoch in eight bytes; after
//! anything else, the length of an archived table in four bytes, and the archive.

use crate::archive::{archive_len, archived_table, decode_table, encode_table, epoch_pairs};
use crate::bytes::{be_bytes, be_nat, decode_u32, decode_u64, encode_u32, encode_u64};
use crate::usage::{EpochUsageTable, TableView};
use rkyv::rancor::BoxedError;
use vstd::prelude::*;

verus! {

/// The status byte before a table.
pub const STATUS_TABLE: u8 = 0;

/// The status byte before the server's epoch.
pub const STATUS_EPOCH_MISMATCH: u8 = 1;

/// Why a table could not be had.
#[derive(Debug)]
pub enum OrbitStreamError {
    /// A table could not be archived.
    Serialization(BoxedError),
    /// What came is not an archived table.
    Deserialization(BoxedError),
    /// The server's data is of another epoch.
    EpochMismatch { requested: u64, server: u64 },
    /// The table of this epoch is not calculated or already pulled.
    TableNotExist(u64),
}

/// What a complete reply says to a client.
#[verifier::ext_equal]
pub enum ReplyView {
    /// It ended before it said anything.
    Truncated,
    /// More bytes came than were announced.
    TooLong,
    /// What came is not an archived table.
    Undecodable,
    /// The server's data is of another epoch.
    EpochMismatch { requested: u64, server: u64 },
    /// The table.
    Table(TableView),
}

/// What came of reading a reply.
#[derive(Debug)]
pub enum Reply {
    Truncated,
    TooLong,
    Answer(Result<EpochUsageTable, OrbitStreamError>),
}

/// Whether an answer says what `view` says.
pub open spec fn answer_says(
    answer: Result<EpochUsageTable, OrbitStreamError>,
    view: ReplyView,
) -> bool {
    match answer {
        Ok(table) => view == ReplyView::Table(table@),
        Err(OrbitStreamError::EpochMismatch { requested, server }) => view
            == (ReplyView::EpochMismatch { requested, server }),
        Err(OrbitStreamError::Deserialization(_)) => view == ReplyView::Undecodable,
        Err(_) => false,
    }
}

impl Reply {
    /// Whether the reply says what `view` says.
    pub open spec fn says(self, view: ReplyView) -> bool {
        match self {
            Reply::Truncated => view == ReplyView::Truncated,
            Reply::TooLong => view == ReplyView::TooLong,
            Reply::Answer(answer) => answer_says(answer, view),
        }
    }
}

/// The bytes of a request.
pub open spec fn request_bytes(epoch: u64) -> Seq<u8> {
    be_bytes(epoch as nat, 8)
}

/// The bytes of a reply that carries an archive. The length has room for 32 bits; of a
/// longer archive the leading digits are left out.
pub open spec fn table_reply(archive: Seq<u8>) -> Seq<u8> {
    seq![STATUS_TABLE] + be_bytes((archive.len() % 0x1_0000_0000) as nat, 4) + archive
}

/// The bytes of a reply that names the server's epoch.
pub open spec fn mismatch_reply(server: u64) -> Seq<u8> {
    seq![STATUS_EPOCH_MISMATCH] + be_bytes(server as nat, 8)
}

/// What a server's answer to a request is on the wire, if it is answered at all.
pub open spec fn reply_bytes(answer: Result<EpochUsageTable, OrbitStreamError>) -> Option<
    Seq<u8>,
> {
    match answer {
        Ok(table) => Some(table_reply(table@.archive())),
        Err(OrbitStreamError::EpochMismatch { requested, server }) => Some(mismatch_reply(server)),
        Err(_) => None,
    }
}

/// What the archive part of a reply says.
pub open spec fn body_meaning(limit: nat, body: Seq<u8>) -> ReplyView {
    if body.len() > limit {
        ReplyView::TooLong
    } else {
        match archived_table(body) {
            Some(table) => ReplyView::Table(table),
            None => ReplyView::Undecodable,
        }
    }
}

/// What the part of a reply from the length on says.
pub open spec fn length_meaning(rest: Seq<u8>) -> ReplyView {
    if rest.len() < 4 {
        ReplyView::Truncated
    } else {
        body_meaning(be_nat(rest.take(4)), rest.skip(4))
    }
}

/// What the part of a reply from the server's epoch on says.
pub open spec fn server_epoch_meaning(requested: u64, rest: Seq<u8>) -> ReplyView {
    if rest.len() < 8 {
        ReplyView::Truncated
    } else {
        ReplyView::EpochMismatch { requested, server: be_nat(rest.take(8)) as u64 }
    }
}

/// What a complete reply to a request for an epoch says.
pub open spec fn reply_meaning(requested: u64, reply: Seq<u8>) -> ReplyView {
    if reply.len() < 1 {
        ReplyView::Truncated
    } else if reply[0] == STATUS_EPOCH_MISMATCH {
        server_epoch_meaning(requested, reply.skip(1))
    } else {
        length_meaning(reply.skip(1))
    }
}

/// Makes a request for an epoch.
pub fn encode_request(epoch: u64) -> (request: Vec<u8>)
    ensures
        request@ == request_bytes(epoch),
        request@.len() == 8,
        be_nat(request@) == epoch,
{
    proof {
        lemma_request_spells_the_epoch(epoch);
    }
    encode_u64(epoch)
}

/// Reads the epoch of a request.
pub fn decode_request(request: &[u8]) -> (epoch: u64)
    requires
        request@.len() == 8,
    ensures
        request@ == request_bytes(epoch),
        be_nat(request@) == epoch,
{
    proof {
        crate::bytes::lemma_be_nat_write_back(request@);
    }
    decode_u64(request)
}

/// A server's reply to a request: a table or the server's epoch goes out as bytes, any
/// other error is handed back and nothing goes out.
pub fn respond(answer: Result<EpochUsageTable, OrbitStreamError>) -> (result: Result<
    Vec<u8>,
    OrbitStreamError,
>)
    requires
        answer matches Ok(table) ==> table@.archivable(),
    ensures
        match reply_bytes(answer) {
            Some(reply) => result matches Ok(bytes) && bytes@ == reply,
            None => result == Err::<Vec<u8>, OrbitStreamError>(answer->Err_0),
        },
        answer matches Ok(table) ==> table@.archive().len() == archive_len(
            epoch_pairs(table@.tables),
        ),
        answer matches Ok(table) ==> result matches Ok(bytes) && bytes@.len() == 5
            + table@.archive().len() && bytes@[0] == 0 && be_nat(bytes@.subrange(1, 5))
            == table@.archive().len() % 0x1_0000_0000 && bytes@.skip(5) == table@.archive(),
        answer matches Err(OrbitStreamError::EpochMismatch { requested, server }) ==> result
            matches Ok(bytes) && bytes@.len() == 9 && bytes@[0] == 1 && be_nat(bytes@.skip(1))
            == server,
        answer matches Err(OrbitStreamError::TableNotExist(epoch)) ==> result
            == Err::<Vec<u8>, OrbitStreamError>(OrbitStreamError::TableNotExist(epoch)),
{
    match answer {
        Ok(table) => {
            let ghost archive = table@.archive();
            match encode_table(table) {
                Ok(mut archived) => {
                    let mut reply: Vec<u8> = Vec::new();
                    reply.push(STATUS_TABLE);
                    let size: u64 = archived.len() as u64;
                    proof {
                        assert(size as u32 == size % 0x1_0000_0000) by (bit_vector);
                    }
                    let mut length = encode_u32(#[verifier::truncate] (size as u32));
                    reply.append(&mut length);
                    reply.append(&mut archived);
                    proof {
                        lemma_table_reply_parts(archive);
                        assert(reply@ =~= table_reply(archive));
                    }
                    Ok(reply)
                },
                Err(error) => Err(OrbitStreamError::Serialization(error)),
            }
        },
        Err(OrbitStreamError::EpochMismatch { requested, server }) => {
            let mut reply: Vec<u8> = Vec::new();
            reply.push(STATUS_EPOCH_MISMATCH);
            let mut epoch = encode_u64(server);
            reply.append(&mut epoch);
            proof {
                lemma_mismatch_reply_parts(server);
                assert(reply@ =~= mismatch_reply(server));
            }
            Ok(reply)
        },
        Err(error) => Err(error),
    }
}

/// What a client reads next of a reply.
#[derive(Debug, Clone, Copy, PartialEq, Eq, Structural)]
pub enum Wanted {
    /// This many bytes.
    Exactly(usize),
    /// All that is left, at most this many bytes.
    ToEnd(usize),
}

/// How far a client has read a reply.
#[derive(Debug, Clone, Copy, PartialEq, Eq, Structural)]
pub enum ReplyStage {
    Status,
    ServerEpoch,
    Length,
    Body(usize),
    Finished,
}

/// A client's side of a reply, fed with the bytes as they come in.
#[derive(Debug, Clone, Copy)]
pub struct ReplyReader {
    pub requested: u64,
    pub stage: ReplyStage,
}

impl ReplyReader {
    /// What is to be read at this stage.
    pub open spec fn wants(self) -> Wanted {
        match self.stage {
            ReplyStage::Status => Wanted::Exactly(1),
            ReplyStage::ServerEpoch => Wanted::Exactly(8),
            ReplyStage::Length => Wanted::Exactly(4),
            ReplyStage::Body(limit) => Wanted::ToEnd(limit),
            ReplyStage::Finished => Wanted::Exactly(0),
        }
    }

    /// Whether these bytes are what is to be read at this stage.
    pub open spec fn accepts(self, bytes: Seq<u8>) -> bool {
        match self.wants() {
            Wanted::Exactly(count) => bytes.len() == count,
            Wanted::ToEnd(limit) => bytes.len() <= limit && bytes.len() <= isize::MAX - 15,
        }
    }

    /// What the rest of a reply says from this stage on.
    pub open spec fn rest_meaning(self, rest: Seq<u8>) -> ReplyView {
        match self.stage {
            ReplyStage::Status => reply_meaning(self.requested, rest),
            ReplyStage::ServerEpoch => server_epoch_meaning(self.requested, rest),
            ReplyStage::Length => length_meaning(rest),
            ReplyStage::Body(limit) => body_meaning(limit as nat, rest),
            ReplyStage::Finished => ReplyView::Truncated,
        }
    }

    /// Starts reading the reply to a request for an epoch.
    pub fn new(requested: u64) -> (reader: Self)
        ensures
            reader == (ReplyReader { requested, stage: ReplyStage::Status }),
    {
        ReplyReader { requested, stage: ReplyStage::Status }
    }

    /// What to read next.
    pub fn wanted(&self) -> (wanted: Wanted)
        ensures
            wanted == self.wants(),
    {
        match self.stage {
            ReplyStage::Status => Wanted::Exactly(1),
            ReplyStage::ServerEpoch => Wanted::Exactly(8),
            ReplyStage::Length => Wanted::Exactly(4),
            ReplyStage::Body(limit) => Wanted::ToEnd(limit),
            ReplyStage::Finished => Wanted::Exactly(0),
        }
    }

    /// Takes in what was read, and gives the answer once the reply is complete.
    pub fn feed(&mut self, bytes: &[u8]) -> (answer: Option<
        Result<EpochUsageTable, OrbitStreamError>,
    >)
        requires
            old(self).stage != ReplyStage::Finished,
            old(self).accepts(bytes@),
        ensures
            final(self).requested == old(self).requested,
            match old(self).stage {
                ReplyStage::Status => answer is None && final(self).stage == (if bytes@[0]
                    == STATUS_EPOCH_MISMATCH {
                    ReplyStage::ServerEpoch
                } else {
                    ReplyStage::Length
                }),
                ReplyStage::Length => answer is None && final(self).stage == ReplyStage::Body(
                    be_nat(bytes@) as usize,
                ),
                _ => answer matches Some(result) && answer_says(
                    result,
                    old(self).rest_meaning(bytes@),
                ) && final(self).stage == ReplyStage::Finished,
            },
            old(self).stage is Body ==> forall|table: TableView|
                table.archivable() && table.node_count <= u32::MAX && bytes@
                    == #[trigger] table.archive() ==> (answer matches Some(Ok(read)) && read@
                    == table),
            old(self).stage is ServerEpoch ==> (answer matches Some(
                Err(OrbitStreamError::EpochMismatch { requested, server }),
            ) && requested == old(self).requested && server == be_nat(bytes@)),
            old(self).stage is Body ==> match archived_table(bytes@) {
                Some(table) => answer matches Some(Ok(read)) && read@ == table,
                None => answer matches Some(Err(OrbitStreamError::Deserialization(_))),
            },
    {
        match self.stage {
            ReplyStage::Status => {
                if bytes[0] == STATUS_EPOCH_MISMATCH {
                    self.stage = ReplyStage::ServerEpoch;
                } else {
                    self.stage = ReplyStage::Length;
                }
                None
            },
            ReplyStage::ServerEpoch => {
                self.stage = ReplyStage::Finished;
                proof {
                    assert(bytes@.take(8) =~= bytes@);
                    crate::bytes::lemma_be_nat_bound(bytes@);
                    crate::bytes::lemma_radix_values();
                }
                Some(
                    Err(
                        OrbitStreamError::EpochMismatch {
                            requested: self.requested,
                            server: decode_u64(bytes),
                        },
                    ),
                )
            },
            ReplyStage::Length => {
                self.stage = ReplyStage::Body(decode_u32(bytes) as usize);
                None
            },
            _ => {
                self.stage = ReplyStage::Finished;
                match decode_table(bytes) {
                    Ok(table) => Some(Ok(table)),
                    Err(error) => Some(Err(OrbitStreamError::Deserialization(error))),
                }
            },
        }
    }
}

/// Reads a complete reply, piece by piece as a `ReplyReader` asks for it.
///
/// What a server sent for a table comes out as that table.
pub fn read_reply(requested: u64, reply: &[u8]) -> (outcome: Reply)
    requires
        reply@.len() <= isize::MAX - 15,
    ensures
        outcome.says(reply_meaning(requested, reply@)),
        forall|table: TableView|
            table.archivable() && table.node_count <= u32::MAX && table.archive().len() <= u32::MAX
                && reply@ == table_reply(#[trigger] table.archive()) ==> outcome.says(
                ReplyView::Table(table),
            ),
{
    let mut reader = ReplyReader::new(requested);
    let mut at: usize = 0;
    loop
        invariant
            at <= reply@.len() <= isize::MAX - 15,
            reader.requested == requested,
            reads_from(reader.stage, reply@, at as int),
        decreases stages_left(reader.stage),
    {
        proof {
            lemma_reads_from(reader, reply@, at as int);
            assert forall|table: TableView| reply@ == table_reply(#[trigger] table.archive()) implies
                reply@[0] == STATUS_TABLE && reply@.len() == 5 + table.archive().len()
                && be_nat(reply@.subrange(1, 5)) == table.archive().len() % 0x1_0000_0000
                && reply@.skip(5) == table.archive() by {
                lemma_table_reply_parts(table.archive());
            }
        }
        let left: usize = reply.len() - at;
        let count: usize = match reader.wanted() {
            Wanted::Exactly(count) => {
                if left < count {
                    return Reply::Truncated;
                }
                count
            },
            Wanted::ToEnd(limit) => {
                if left > limit {
                    return Reply::TooLong;
                }
                left
            },
        };
        let piece = vstd::slice::slice_subrange(reply, at, at + count);
        proof {
            assert(piece@ =~= reply@.skip(at as int).take(count as int));
            match reader.stage {
                ReplyStage::Status => {
                    assert(piece@[0] == reply@[0]);
                },
                ReplyStage::ServerEpoch => {
                    assert(piece@.take(8) =~= reply@.skip(1).take(8));
                },
                ReplyStage::Length => {
                    assert(piece@ =~= reply@.subrange(1, 5));
                    crate::bytes::lemma_be_nat_bound(piece@);
                    crate::bytes::lemma_radix_values();
                },
                _ => {
                    assert(piece@ =~= reply@.skip(5));
                },
            }
        }
        let answer = reader.feed(piece);
        at = at + count;
        if let Some(result) = answer {
            return Reply::Answer(result);
        }
    }
}

/// How many pieces of a reply are still to be read.
spec fn stages_left(stage: ReplyStage) -> nat {
    match stage {
        ReplyStage::Status => 3,
        ReplyStage::Length => 2,
        ReplyStage::ServerEpoch => 1,
        ReplyStage::Body(_) => 1,
        ReplyStage::Finished => 0,
    }
}

/// Whether reading a reply is at a stage when `at` bytes of it were taken in.
spec fn reads_from(stage: ReplyStage, reply: Seq<u8>, at: int) -> bool {
    match stage {
        ReplyStage::Status => at == 0,
        ReplyStage::ServerEpoch => at == 1 && reply.len() >= 1 && reply[0] == STATUS_EPOCH_MISMATCH,
        ReplyStage::Length => at == 1 && reply.len() >= 1 && reply[0] != STATUS_EPOCH_MISMATCH,
        ReplyStage::Body(limit) => at == 5 && reply.len() >= 5 && reply[0] != STATUS_EPOCH_MISMATCH
            && limit == be_nat(reply.subrange(1, 5)),
        ReplyStage::Finished => false,
    }
}

proof fn lemma_reads_from(reader: ReplyReader, reply: Seq<u8>, at: int)
    requires
        0 <= at <= reply.len(),
        reads_from(reader.stage, reply, at),
    ensures
        reader.rest_meaning(reply.skip(at)) == reply_meaning(reader.requested, reply),
        reader.stage is Length && reply.len() >= 5 ==> reply.skip(at).take(4) == reply.subrange(
            1,
            5,
        ),
{
    match reader.stage {
        ReplyStage::Status => {
            assert(reply.skip(0) =~= reply);
        },
        ReplyStage::Length => {
            if reply.len() >= 5 {
                assert(reply.skip(1).take(4) =~= reply.subrange(1, 5));
            }
        },
        ReplyStage::Body(limit) => {
            assert(reply.skip(1).take(4) =~= reply.subrange(1, 5));
            assert(reply.skip(1).skip(4) =~= reply.skip(5));
        },
        _ => {},
    }
}

/// The parts of a reply that carries an archive.
pub proof fn lemma_table_reply_parts(archive: Seq<u8>)
    ensures
        ({
            let reply = table_reply(archive);
            &&& reply[0] == STATUS_TABLE
            &&& reply.len() == 5 + archive.len()
            &&& be_nat(reply.subrange(1, 5)) == archive.len() % 0x1_0000_0000
            &&& reply.skip(5) == archive
        }),
{
    let size = (archive.len() % 0x1_0000_0000) as nat;
    crate::bytes::lemma_radix_values();
    crate::bytes::lemma_be_bytes_read_back(size, 4);
    let reply = table_reply(archive);
    assert(reply.subrange(1, 5) =~= be_bytes(size, 4));
    assert(reply.skip(5) =~= archive);
}

/// A client learns from the reply to a request for another epoch which epoch the server
/// has, whatever the two epochs are.
pub proof fn lemma_mismatch_is_reported(requested: u64, server: u64)
    ensures
        reply_meaning(requested, mismatch_reply(server)) == (ReplyView::EpochMismatch {
            requested,
            server,
        }),
{
    crate::bytes::lemma_radix_values();
    crate::bytes::lemma_be_bytes_read_back(server as nat, 8);
    let reply = mismatch_reply(server);
    assert(reply.skip(1).take(8) =~= be_bytes(server as nat, 8));
}

/// A reply that carries an archive of any length that 32 bits can announce is read as
/// the table in that archive.
pub proof fn lemma_table_reply_is_read(requested: u64, archive: Seq<u8>)
    requires
        archive.len() <= u32::MAX,
    ensures
        reply_meaning(requested, table_reply(archive)) == match archived_table(archive) {
            Some(table) => ReplyView::Table(table),
            None => ReplyView::Undecodable,
        },
{
    lemma_table_reply_parts(archive);
    let reply = table_reply(archive);
    assert(reply.skip(1).take(4) =~= reply.subrange(1, 5));
    assert(reply.skip(1).skip(4) =~= reply.skip(5));
}

/// Nothing that follows the server's epoch changes what the reply says.
pub proof fn lemma_mismatch_ignores_what_follows(requested: u64, server: u64, more: Seq<u8>)
    ensures
        reply_meaning(requested, mismatch_reply(server) + more) == reply_meaning(
            requested,
            mismatch_reply(server),
        ),
{
    lemma_mismatch_is_reported(requested, server);
    crate::bytes::lemma_radix_values();
    crate::bytes::lemma_be_bytes_read_back(server as nat, 8);
    let reply = mismatch_reply(server) + more;
    assert(reply.skip(1).take(8) =~= be_bytes(server as nat, 8));
}

/// A server reads in a request the epoch that the client asked for.
pub proof fn lemma_request_is_read(asked: u64, read: u64)
    requires
        request_bytes(asked) == request_bytes(read),
    ensures
        asked == read,
{
    crate::bytes::lemma_radix_values();
    crate::bytes::lemma_be_bytes_read_back(asked as nat, 8);
    crate::bytes::lemma_be_bytes_read_back(read as nat, 8);
}

/// A request is eight bytes that spell the epoch.
pub proof fn lemma_request_spells_the_epoch(epoch: u64)
    ensures
        request_bytes(epoch).len() == 8,
        be_nat(request_bytes(epoch)) == epoch,
{
    crate::bytes::lemma_radix_values();
    crate::bytes::lemma_be_bytes_read_back(epoch as nat, 8);
}

/// The parts of a reply that names the server's epoch.
pub proof fn lemma_mismatch_reply_parts(server: u64)
    ensures
        mismatch_reply(server).len() == 9,
        mismatch_reply(server)[0] == 1,
        be_nat(mismatch_reply(server).skip(1)) == server,
{
    crate::bytes::lemma_radix_values();
    crate::bytes::lemma_be_bytes_read_back(server as nat, 8);
    assert(mismatch_reply(server).skip(1) =~= be_bytes(server as nat, 8));
}

/// A client reads in a reply what the server answered: the archive of the table that was
/// handed out, or the server's epoch beside the one that was asked for. To any other
/// answer there is no reply.
pub proof fn lemma_answer_is_read_as_given(
    requested: u64,
    answer: Result<EpochUsageTable, OrbitStreamError>,
)
    ensures
        match answer {
            Ok(table) => reply_bytes(answer) matches Some(reply) && reply[0] == 0 && reply.skip(5)
                == table@.archive() && (table@.archive().len() <= u32::MAX ==> reply_meaning(
                requested,
                reply,
            ) == match archived_table(table@.archive()) {
                Some(read) => ReplyView::Table(read),
                None => ReplyView::Undecodable,
            }),
            Err(OrbitStreamError::EpochMismatch { requested: asked, server }) => reply_bytes(answer)
                matches Some(reply) && reply[0] == 1 && reply_meaning(requested, reply) == (
            ReplyView::EpochMismatch { requested, server }),
            Err(_) => reply_bytes(answer) is None,
        },
{
    match answer {
        Ok(table) => {
            lemma_table_reply_parts(table@.archive());
            if table@.archive().len() <= u32::MAX {
                lemma_table_reply_is_read(requested, table@.archive());
            }
        },
        Err(OrbitStreamError::EpochMismatch { requested: asked, server }) => {
            lemma_mismatch_reply_parts(server);
            lemma_mismatch_is_reported(requested, server);
        },
        Err(_) => {},
    }
}

/// A reply that broke off before its archive, or within the server's epoch, is never taken
/// for a whole one.
pub proof fn lemma_broken_off_reply_is_truncated(
    requested: u64,
    archive: Seq<u8>,
    server: u64,
    count: int,
)
    ensures
        0 <= count < 5 ==> reply_meaning(requested, table_reply(archive).take(count))
            == ReplyView::Truncated,
        0 <= count < 9 ==> reply_meaning(requested, mismatch_reply(server).take(count))
            == ReplyView::Truncated,
{
    lemma_table_reply_parts(archive);
    lemma_mismatch_reply_parts(server);
    if 0 < count < 5 {
        assert(table_reply(archive).take(count)[0] == table_reply(archive)[0]);
    }
    if 0 < count < 9 {
        assert(mismatch_reply(server).take(count)[0] == mismatch_reply(server)[0]);
    }
}

/// A reply with more behind the archive than was announced is refused.
pub proof fn lemma_more_than_announced_is_refused(requested: u64, archive: Seq<u8>, more: Seq<u8>)
    requires
        archive.len() <= u32::MAX,
        more.len() > 0,
    ensures
        reply_meaning(requested, table_reply(archive) + more) == ReplyView::TooLong,
{
    lemma_table_reply_parts(archive);
    let whole = table_reply(archive);
    let reply = whole + more;
    assert(reply[0] == whole[0]);
    assert(reply.skip(1).take(4) =~= whole.subrange(1, 5));
}

/// Of the status, only whether it is the one before an epoch counts; and what is said does
/// not depend on which epoch was asked for, but for naming it.
pub proof fn lemma_status_and_request_decide_no_more(
    requested: u64,
    other: u64,
    reply: Seq<u8>,
    status: u8,
)
    requires
        reply.len() > 0,
        reply[0] != 1,
        status != 1,
    ensures
        reply_meaning(requested, reply.update(0, status)) == reply_meaning(other, reply),
{
    assert(reply.update(0, status).skip(1) =~= reply.skip(1));
}

/// What came of reading a reply is one thing: a table in it is the table that it says, and
/// an epoch in it is the epoch that it says.
pub proof fn lemma_reply_says_one_thing(reply: Reply, view: ReplyView)
    requires
        reply.says(view),
    ensures
        view matches ReplyView::Table(table) ==> reply matches Reply::Answer(Ok(read)) && read@
            == table,
        view matches ReplyView::EpochMismatch { requested, server } ==> reply matches Reply::Answer(
            Err(OrbitStreamError::EpochMismatch { requested: asked, server: named }),
        ) && asked == requested && named == server,
        view is Undecodable <==> reply matches Reply::Answer(
            Err(OrbitStreamError::Deserialization(_)),
        ),
        view is Truncated <==> reply is Truncated,
        view is TooLong <==> reply is TooLong,
{
}

/// What a client asks for next is what the reply has at that place: the status in one
/// byte, an epoch in eight, a length in four, and as many bytes as were announced; and it
/// takes everything that was asked for.
pub proof fn lemma_reader_takes_what_it_asked_for(reader: ReplyReader, bytes: Seq<u8>)
    ensures
        match reader.stage {
            ReplyStage::Status => reader.wants() == Wanted::Exactly(1),
            ReplyStage::ServerEpoch => reader.wants() == Wanted::Exactly(8),
            ReplyStage::Length => reader.wants() == Wanted::Exactly(4),
            ReplyStage::Body(limit) => reader.wants() == Wanted::ToEnd(limit),
            ReplyStage::Finished => reader.wants() == Wanted::Exactly(0),
        },
        reader.wants() matches Wanted::Exactly(count) ==> (reader.accepts(bytes) <==> bytes.len()
            == count),
        reader.wants() matches Wanted::ToEnd(limit) ==> (reader.accepts(bytes) <==> bytes.len()
            <= limit && bytes.len() <= isize::MAX - 15),
{
}

/// Behind any status but the one before an epoch come four bytes that say how long the
/// archive may be, and what comes behind them is read as an archive if it is no longer.
pub proof fn lemma_archive_within_the_announced_length(
    requested: u64,
    status: u8,
    length: Seq<u8>,
    body: Seq<u8>,
)
    requires
        status != 1,
        length.len() == 4,
    ensures
        reply_meaning(requested, seq![status] + length + body) == (if body.len() > be_nat(length) {
            ReplyView::TooLong
        } else {
            match archived_table(body) {
                Some(table) => ReplyView::Table(table),
                None => ReplyView::Undecodable,
            }
        }),
{
    let reply = seq![status] + length + body;
    assert(reply.skip(1).take(4) =~= length);
    assert(reply.skip(1).skip(4) =~= body);
}

/// Behind the status before an epoch come eight bytes that spell it.
pub proof fn lemma_server_epoch_is_spelled(requested: u64, epoch: Seq<u8>, more: Seq<u8>)
    requires
        epoch.len() == 8,
    ensures
        reply_meaning(requested, seq![1u8] + epoch + more) matches ReplyView::EpochMismatch {
            requested: asked,
            server,
        } && asked == requested && server == be_nat(epoch),
{
    let reply = seq![1u8] + epoch + more;
    assert(reply.skip(1).take(8) =~= epoch);
    crate::bytes::lemma_be_nat_bound(epoch);
    crate::bytes::lemma_radix_values();
}

} // verus!
