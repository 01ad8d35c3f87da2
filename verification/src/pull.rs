//! A pull from end to end: what a node makes of a request, and what its successor makes
//! of the reply.

use crate::archive::{archive_len, epoch_pairs};
use crate::bytes::be_nat;
use crate::node::Orbit;
use crate::stream::{
    decode_request, encode_request, mismatch_reply, read_reply, reply_meaning, respond,
    table_reply, OrbitStreamError, Reply, ReplyView,
};
use crate::usage::TableView;
use vstd::prelude::*;

verus! {

/// Whether a table that may be missing can be sent, with the five bytes that go ahead of
/// it, in one piece.
pub open spec fn sendable(table: Option<TableView>) -> bool {
    table matches Some(table) ==> table.archivable() && archive_len(epoch_pairs(table.tables)) + 5
        <= isize::MAX - 15
}

/// Answers a request for the table of an epoch.
///
/// A request for another epoch is answered with the epoch that this node has; the table
/// goes out once; and where there is none, nothing goes out.
pub fn serve(node: &mut Orbit, request: &[u8]) -> (result: Result<Vec<u8>, OrbitStreamError>)
    requires
        request@.len() == 8,
        sendable(old(node)@.send),
    ensures
        ({
            let epoch = be_nat(request@);
            if epoch != old(node)@.data_epoch {
                &&& final(node)@ == old(node)@
                &&& result matches Ok(reply) && reply@ == mismatch_reply(old(node)@.data_epoch)
            } else {
                &&& final(node)@ == old(node)@.pulled()
                &&& match old(node)@.send {
                    Some(table) => result matches Ok(reply) && reply@ == table_reply(
                        table.archive(),
                    ) && table.archive().len() == archive_len(epoch_pairs(table.tables)),
                    None => result matches Err(error) && error
                        == OrbitStreamError::TableNotExist(old(node)@.data_epoch),
                }
            }
        }),
{
    proof {
        crate::bytes::lemma_radix_values();
        crate::bytes::lemma_be_nat_bound(request@);
    }
    let epoch: u64 = decode_request(request);
    proof {
        crate::bytes::lemma_be_bytes_read_back(epoch as nat, 8);
    }
    respond(node.get_usage_table(epoch))
}

/// Pulls the table of an epoch from a node in the same process: what goes between the
/// two is the bytes of the request and of the reply.
///
/// The table comes out as it went in.
pub fn pull(server: &mut Orbit, epoch: u64) -> (reply: Reply)
    requires
        sendable(old(server)@.send),
    ensures
        if epoch != old(server)@.data_epoch {
            &&& final(server)@ == old(server)@
            &&& reply.says(
                (ReplyView::EpochMismatch { requested: epoch, server: old(server)@.data_epoch }),
            )
        } else {
            &&& final(server)@ == old(server)@.pulled()
            &&& match old(server)@.send {
                Some(table) => {
                    &&& reply.says(reply_meaning(epoch, table_reply(table.archive())))
                    &&& table.node_count <= u32::MAX && archive_len(epoch_pairs(table.tables))
                        <= u32::MAX ==> reply.says(ReplyView::Table(table))
                },
                None => reply == Reply::Truncated,
            }
        },
        epoch != old(server)@.data_epoch ==> (reply matches Reply::Answer(
            Err(OrbitStreamError::EpochMismatch { requested, server: named }),
        ) && requested == epoch && named == old(server)@.data_epoch),
        epoch != old(server)@.data_epoch ==> final(server)@ == old(server)@,
        epoch == old(server)@.data_epoch ==> final(server)@ == (crate::node::NodeView {
            send: None,
            ..old(server)@
        }),
        epoch == old(server)@.data_epoch ==> (old(server)@.send matches Some(table) ==> (
        table.node_count <= u32::MAX && archive_len(epoch_pairs(table.tables)) <= u32::MAX ==> (
        reply matches Reply::Answer(Ok(read)) && read@ == table))),
{
    let request = encode_request(epoch);
    proof {
        crate::bytes::lemma_radix_values();
        crate::bytes::lemma_be_bytes_read_back(epoch as nat, 8);
        crate::bytes::lemma_be_bytes_read_back(server@.data_epoch as nat, 8);
        crate::stream::lemma_mismatch_is_reported(epoch, server@.data_epoch);
        if let Some(table) = server@.send {
            crate::stream::lemma_table_reply_parts(table.archive());
        }
    }
    match serve(server, request.as_slice()) {
        Ok(sent) => read_reply(epoch, sent.as_slice()),
        Err(_) => Reply::Truncated,
    }
}

/// Every table whose archive takes no more than 2 GiB, less what goes ahead of it and what
/// its placement may take, can be sent, and so can no table.
pub proof fn lemma_tables_up_to_the_offsets_can_be_sent(table: TableView)
    requires
        24 * crate::sum::sum_of(
            |i: int| table.tables[i].usages.len(),
            table.tables.len() as int,
        ) + 16 * table.tables.len() + 24 <= 0x7fff_ffe0,
    ensures
        sendable(Some(table)),
        sendable(None),
{
    crate::archive::lemma_archive_len_adds_up(table);
    crate::archive::lemma_tables_up_to_the_offsets_fit(table);
}

} // verus!
