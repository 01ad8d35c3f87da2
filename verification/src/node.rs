//! One node of the ring: what it admits, what it passes on, and when an epoch turns.

use crate::stream::OrbitStreamError;
use crate::sum::sum_of;
use crate::usage::{
    amount_in, key_of, listing, EpochUsage, EpochUsageTable, EpochView, TableView, Uuid,
    EPOCH_USAGE_SIZE,
};
use std::collections::BTreeMap;
use vstd::prelude::*;

verus! {

/// Rate limit configuration of a ring.
#[derive(Debug, Clone, Copy, PartialEq, Eq, Structural)]
pub struct OrbitConfig {
    /// Allocation per epoch across all nodes.
    /// The limit is strict: `orbit_limit * node_count` is not exceeded within
    /// `node_count * epoch_duration_ms`, so that `orbit_limit` is the average per epoch.
    pub orbit_limit: u64,
    /// Number of nodes in the ring.
    pub node_count: u64,
    /// Epoch duration in milliseconds.
    pub epoch_duration_ms: u64,
}

impl Default for OrbitConfig {
    fn default() -> (config: Self)
        ensures
            config == (OrbitConfig { orbit_limit: 1000, node_count: 10, epoch_duration_ms: 1000 }),
    {
        OrbitConfig { orbit_limit: 1000, node_count: 10, epoch_duration_ms: 1000 }
    }
}

/// The epoch at a time in milliseconds, of which 64 bits count.
pub open spec fn epoch_at(now_ms: u128, epoch_duration_ms: u64) -> nat {
    ((now_ms % 0x1_0000_0000_0000_0000) as nat) / (epoch_duration_ms as nat)
}

/// The milliseconds from a time to the next epoch boundary.
pub open spec fn wait_at(now_ms: u128, epoch_duration_ms: u64) -> int {
    epoch_duration_ms - ((now_ms % 0x1_0000_0000_0000_0000) as nat) % (epoch_duration_ms as nat)
}

/// `a - b`, or zero where that is negative.
pub open spec fn minus_or_zero(a: nat, b: nat) -> nat {
    if a >= b {
        (a - b) as nat
    } else {
        0
    }
}

/// The state of a node, as contracts speak of it.
#[verifier::ext_equal]
pub struct NodeView {
    pub config: OrbitConfig,
    /// The epoch that is being counted.
    pub current_epoch: u64,
    /// The epoch that the outgoing table is of.
    pub data_epoch: u64,
    /// What was admitted in the current epoch, by what each identifier spells.
    pub usage: Map<u128, u64>,
    /// The predecessor's table, against which requests are admitted.
    pub received: Option<TableView>,
    /// The table for the successor, until it is pulled.
    pub send: Option<TableView>,
    /// Whether the predecessor's table is outstanding, so that requests wait.
    pub receiving: bool,
    /// Whether no node before could be reached, so that this node goes by its own
    /// allowance and hands nothing on in this epoch.
    pub isolated: bool,
}

/// A request, and what is reserved of the remaining limit when it is decided.
pub struct RequestView {
    pub id: Uuid,
    pub amount: u64,
    pub reserved: u64,
}

impl NodeView {
    /// A node that has just started.
    pub open spec fn started(config: OrbitConfig, epoch: u64) -> NodeView {
        NodeView {
            config,
            current_epoch: epoch,
            data_epoch: 0,
            usage: Map::empty(),
            received: None,
            send: None,
            receiving: false,
            isolated: false,
        }
    }

    /// The usage of an identifier at the nodes before this one.
    pub open spec fn total(self, id: Uuid) -> nat {
        match self.received {
            Some(table) => table.total(id),
            None => 0,
        }
    }

    /// What the nodes before this one leave of the limit.
    pub open spec fn remaining(self, id: Uuid) -> nat {
        minus_or_zero(self.config.orbit_limit as nat, self.total(id))
    }

    /// What this node may admit in the epoch when it reserves an amount for the nodes
    /// after it.
    pub open spec fn quota(self, id: Uuid, reserved: u64) -> nat {
        minus_or_zero(self.remaining(id), reserved as nat)
    }

    /// Whether a request stays within the quota.
    pub open spec fn admits(self, id: Uuid, amount: u64, reserved: u64) -> bool {
        amount_in(self.usage, id) + amount <= self.quota(id, reserved)
    }

    /// The node after it admitted a request.
    pub open spec fn admitted(self, id: Uuid, amount: u64) -> NodeView {
        NodeView {
            usage: self.usage.insert(
                crate::usage::uuid_key(id),
                (amount_in(self.usage, id) + amount) as u64,
            ),
            ..self
        }
    }

    /// What the node makes of a request.
    pub open spec fn decision(self, id: Uuid, amount: u64, reserved: u64) -> Admission {
        if self.receiving {
            Admission::Wait
        } else if self.admits(id, amount, reserved) {
            Admission::Allowed
        } else {
            Admission::RateLimited
        }
    }

    /// The node after a request.
    pub open spec fn asked(self, id: Uuid, amount: u64, reserved: u64) -> NodeView {
        if self.decision(id, amount, reserved) == Admission::Allowed {
            self.admitted(id, amount)
        } else {
            self
        }
    }

    /// The node after requests.
    pub open spec fn asked_all(self, requests: Seq<RequestView>) -> NodeView
        decreases requests.len(),
    {
        if requests.len() == 0 {
            self
        } else {
            let last = requests.last();
            self.asked_all(requests.drop_last()).asked(last.id, last.amount, last.reserved)
        }
    }

    /// The sum of the amounts that requests for an identifier were allowed.
    pub open spec fn allowed_sum(self, requests: Seq<RequestView>, id: Uuid) -> nat
        decreases requests.len(),
    {
        if requests.len() == 0 {
            0
        } else {
            let last = requests.last();
            let before = self.asked_all(requests.drop_last());
            self.allowed_sum(requests.drop_last(), id) + (if last.id == id && before.decision(
                last.id,
                last.amount,
                last.reserved,
            ) == Admission::Allowed {
                last.amount as nat
            } else {
                0
            })
        }
    }

    /// This node's record of the current epoch.
    pub open spec fn own_record(self) -> EpochView {
        EpochView { epoch: self.current_epoch, usages: listing(self.usage) }
    }

    /// The table to which this node adds its record: the one that it received, or a new
    /// one.
    pub open spec fn incoming(self) -> TableView {
        match self.received {
            Some(table) => table,
            None => TableView {
                recent_epoch: self.current_epoch,
                node_count: self.config.node_count as usize,
                tables: Seq::empty(),
            },
        }
    }

    /// Whether the table that is handed on has room for the node's record.
    pub open spec fn can_turn(self) -> bool {
        self.isolated || {
            &&& self.incoming().node_count >= 1
            &&& self.received is None ==> self.incoming().node_count * EPOCH_USAGE_SIZE
                <= isize::MAX
        }
    }

    /// The node once the epoch has turned: its record is in the outgoing table, nothing
    /// is counted yet, and the predecessor's table is outstanding. A node that was
    /// isolated has no outgoing table.
    pub open spec fn turned(self) -> NodeView {
        NodeView {
            data_epoch: self.current_epoch,
            usage: Map::empty(),
            received: None,
            send: if self.isolated {
                None
            } else {
                Some(self.incoming().pushed(self.own_record()))
            },
            receiving: true,
            isolated: false,
            ..self
        }
    }

    /// The node once the predecessor's table is there.
    pub open spec fn supplied(self, table: TableView) -> NodeView {
        NodeView { received: Some(table), receiving: false, ..self }
    }

    /// The node once it has given up waiting for a table: it admits requests by its own
    /// allowance, and will hand nothing on.
    pub open spec fn released(self) -> NodeView {
        NodeView { receiving: false, isolated: true, ..self }
    }

    /// The node in another epoch.
    pub open spec fn in_epoch(self, epoch: u64) -> NodeView {
        NodeView { current_epoch: epoch, ..self }
    }

    /// The node after its outgoing table was pulled.
    pub open spec fn pulled(self) -> NodeView {
        NodeView { send: None, ..self }
    }
}

/// What a node makes of a request.
#[derive(Debug, Clone, Copy, PartialEq, Eq, Structural)]
pub enum Admission {
    /// It is counted.
    Allowed,
    /// It would exceed the quota, and is not counted.
    RateLimited,
    /// The predecessor's table is outstanding; ask again when it is there.
    Wait,
}

/// A node of the ring.
pub struct Orbit {
    config: OrbitConfig,
    current_epoch: u64,
    data_epoch: u64,
    current_epoch_usage: BTreeMap<u128, u64>,
    received_table: Option<EpochUsageTable>,
    send_table: Option<EpochUsageTable>,
    receiving: bool,
    isolated: bool,
}

/// The view of a table that may be missing.
pub open spec fn table_view(table: Option<EpochUsageTable>) -> Option<TableView> {
    match table {
        Some(table) => Some(table@),
        None => None,
    }
}

impl View for Orbit {
    type V = NodeView;

    closed spec fn view(&self) -> NodeView {
        NodeView {
            config: self.config,
            current_epoch: self.current_epoch,
            data_epoch: self.data_epoch,
            usage: self.current_epoch_usage@,
            received: table_view(self.received_table),
            send: table_view(self.send_table),
            receiving: self.receiving,
            isolated: self.isolated,
        }
    }
}

impl Orbit {
    /// Starts a node at a time in milliseconds since the Unix epoch.
    pub fn new(config: OrbitConfig, now_ms: u128) -> (node: Self)
        requires
            config.epoch_duration_ms > 0,
        ensures
            node@ == NodeView::started(config, epoch_at(now_ms, config.epoch_duration_ms) as u64),
            node@.config == config,
            node@.current_epoch == epoch_at(now_ms, config.epoch_duration_ms),
            !node@.receiving,
            !node@.isolated,
            node@.received is None,
            node@.send is None,
            node@.data_epoch == 0,
            forall|id: Uuid| #[trigger] amount_in(node@.usage, id) == 0,
    {
        proof {
            lemma_epoch_contains_its_time(now_ms, config.epoch_duration_ms);
        }
        Orbit {
            config,
            current_epoch: Self::calculate_epoch(now_ms, config.epoch_duration_ms),
            data_epoch: 0,
            current_epoch_usage: BTreeMap::new(),
            received_table: None,
            send_table: None,
            receiving: false,
            isolated: false,
        }
    }

    /// The epoch at a time: the milliseconds since the Unix epoch, divided by the
    /// duration of an epoch.
    pub fn calculate_epoch(now_ms: u128, epoch_duration_ms: u64) -> (epoch: u64)
        requires
            epoch_duration_ms > 0,
        ensures
            epoch == epoch_at(now_ms, epoch_duration_ms),
            epoch * epoch_duration_ms <= now_ms % 0x1_0000_0000_0000_0000 < (epoch + 1)
                * epoch_duration_ms,
    {
        proof {
            lemma_epoch_contains_its_time(now_ms, epoch_duration_ms);
            assert(now_ms as u64 == now_ms % 0x1_0000_0000_0000_0000) by (bit_vector);
        }
        (#[verifier::truncate] (now_ms as u64)) / epoch_duration_ms
    }

    /// The milliseconds until the next epoch boundary.
    pub fn ms_until_next_epoch(now_ms: u128, epoch_duration_ms: u64) -> (wait: u64)
        requires
            epoch_duration_ms > 0,
        ensures
            wait == wait_at(now_ms, epoch_duration_ms),
            1 <= wait <= epoch_duration_ms,
            (now_ms % 0x1_0000_0000_0000_0000 + wait) % (epoch_duration_ms as int) == 0,
    {
        proof {
            lemma_wait_ends_at_a_boundary(now_ms, epoch_duration_ms);
            assert(now_ms as u64 == now_ms % 0x1_0000_0000_0000_0000) by (bit_vector);
        }
        let current_ms: u64 = #[verifier::truncate] (now_ms as u64);
        epoch_duration_ms - (current_ms % epoch_duration_ms)
    }

    /// The configuration.
    pub fn config(&self) -> (config: OrbitConfig)
        ensures
            config == self@.config,
    {
        self.config
    }

    /// The epoch that is being counted.
    pub fn current_epoch(&self) -> (epoch: u64)
        ensures
            epoch == self@.current_epoch,
    {
        self.current_epoch
    }

    /// Whether requests have to wait for the predecessor's table.
    pub fn is_receiving(&self) -> (receiving: bool)
        ensures
            receiving == self@.receiving,
    {
        self.receiving
    }

    /// What this node admitted for an identifier in the current epoch.
    pub fn current_usage(&self, uuid: &Uuid) -> (usage: u64)
        ensures
            usage == amount_in(self@.usage, *uuid),
    {
        let key: u128 = key_of(uuid);
        match self.current_epoch_usage.get(&key) {
            Some(usage) => *usage,
            None => 0,
        }
    }

    /// What the nodes before this one leave of the limit.
    pub fn remaining(&self, uuid: &Uuid) -> (remaining: u64)
        ensures
            remaining == self@.remaining(*uuid),
            ({
                let seen = match self@.received {
                    Some(table) => sum_of(
                        |i: int| table.tables[i].amount(*uuid),
                        table.tables.len() as int,
                    ),
                    None => 0,
                };
                &&& seen <= self@.config.orbit_limit ==> remaining + seen
                    == self@.config.orbit_limit
                &&& seen > self@.config.orbit_limit ==> remaining == 0
            }),
    {
        proof {
            lemma_remaining_and_seen_make_the_limit(self@, *uuid);
        }
        match &self.received_table {
            Some(table) => match table.checked_usage(uuid) {
                Some(total) => self.config.orbit_limit.saturating_sub(total),
                None => 0,
            },
            None => self.config.orbit_limit,
        }
    }

    /// Counts a request if it stays within the quota, which is what remains of the limit
    /// less an amount reserved for the nodes after this one.
    pub fn check_and_increment(&mut self, uuid: &Uuid, amount: u64, reserved: u64) -> (admission:
        Admission)
        ensures
            admission == old(self)@.decision(*uuid, amount, reserved),
            final(self)@ == old(self)@.asked(*uuid, amount, reserved),
            ({
                let seen = match old(self)@.received {
                    Some(table) => sum_of(
                        |i: int| table.tables[i].amount(*uuid),
                        table.tables.len() as int,
                    ),
                    None => 0,
                };
                let counted = amount_in(old(self)@.usage, *uuid);
                &&& admission == Admission::Wait <==> old(self)@.receiving
                &&& admission == Admission::Allowed <==> !old(self)@.receiving && (counted + amount
                    == 0 || seen + counted + amount + reserved <= old(self)@.config.orbit_limit)
            }),
            forall|id: Uuid| #[trigger]
                amount_in(final(self)@.usage, id) == amount_in(old(self)@.usage, id) + (if id
                    == *uuid && admission == Admission::Allowed {
                    amount as int
                } else {
                    0
                }),
            final(self)@ == (NodeView { usage: final(self)@.usage, ..old(self)@ }),
    {
        proof {
            lemma_decision_by_the_sums(self@, *uuid, amount, reserved);
            lemma_request_moves_one_count(self@, *uuid, amount, reserved);
        }
        if self.receiving {
            return Admission::Wait;
        }
        let available_quota: u64 = self.remaining(uuid).saturating_sub(reserved);
        let current_usage: u64 = self.current_usage(uuid);
        if current_usage <= available_quota && amount <= available_quota - current_usage {
            let key: u128 = key_of(uuid);
            self.current_epoch_usage.insert(key, current_usage + amount);
            Admission::Allowed
        } else {
            Admission::RateLimited
        }
    }

    /// Whether the table has room for the node's record, so that the epoch can turn.
    pub fn can_turn_epoch(&self) -> (ready: bool)
        ensures
            ready == self@.can_turn(),
    {
        if self.isolated {
            return true;
        }
        match &self.received_table {
            Some(table) => table.node_count >= 1,
            None => {
                let node_count: usize = #[verifier::truncate] (self.config.node_count as usize);
                node_count >= 1 && node_count <= isize::MAX as usize / EPOCH_USAGE_SIZE
            },
        }
    }

    /// Turns the epoch: adds the node's record to the table that it received, or to a new
    /// one, makes that the outgoing table, and begins to count anew. Until a table of the
    /// nodes before is there, requests wait. A node that was isolated hands nothing on.
    pub fn turn_epoch(&mut self)
        requires
            old(self)@.can_turn(),
        ensures
            final(self)@ == old(self)@.turned(),
            crate::usage::lists(old(self)@.own_record().usages, old(self)@.usage),
            forall|id: Uuid| #[trigger] amount_in(final(self)@.usage, id) == 0,
            final(self)@.receiving,
            final(self)@.received is None,
            !final(self)@.isolated,
            final(self)@.config == old(self)@.config,
            final(self)@.current_epoch == old(self)@.current_epoch,
            final(self)@.data_epoch == old(self)@.current_epoch,
            final(self)@.send is Some <==> !old(self)@.isolated,
            final(self)@.send matches Some(table) ==> table.recent_epoch
                == old(self)@.current_epoch && table.tables[0].epoch == old(self)@.current_epoch
                && forall|id: Uuid| #[trigger]
                table.tables[0].amount(id) == amount_in(old(self)@.usage, id),
    {
        proof {
            crate::usage::lemma_listing_exists(self@.usage);
            lemma_turn_starts_anew(self@);
            if !self@.isolated {
                lemma_turn_hands_the_record_on(self@);
            }
        }
        let received = self.received_table.take();
        if self.isolated {
            self.send_table = None;
            self.isolated = false;
        } else {
            let record = EpochUsage::from_btree_map(self.current_epoch, &self.current_epoch_usage);
            let mut table = match received {
                Some(table) => table,
                None => EpochUsageTable::new(
                    self.current_epoch,
                    #[verifier::truncate] (self.config.node_count as usize),
                ),
            };
            table.push_epoch(record);
            self.send_table = Some(table);
        }
        self.data_epoch = self.current_epoch;
        self.current_epoch_usage.clear();
        self.receiving = true;
    }

    /// Takes in the predecessor's table, and lets requests in again.
    pub fn receive_table(&mut self, table: EpochUsageTable)
        ensures
            final(self)@ == old(self)@.supplied(table@),
            final(self)@ == (NodeView { received: Some(table@), receiving: false, ..old(self)@ }),
    {
        self.received_table = Some(table);
        self.receiving = false;
    }

    /// Gives up waiting for a table, and lets requests in again without one.
    pub fn release(&mut self)
        ensures
            final(self)@ == old(self)@.released(),
            final(self)@ == (NodeView { receiving: false, isolated: true, ..old(self)@ }),
    {
        self.receiving = false;
        self.isolated = true;
    }

    /// Begins to count for the epoch at a time.
    pub fn start_epoch(&mut self, now_ms: u128)
        requires
            old(self)@.config.epoch_duration_ms > 0,
        ensures
            final(self)@ == old(self)@.in_epoch(
                epoch_at(now_ms, old(self)@.config.epoch_duration_ms) as u64,
            ),
            final(self)@ == (NodeView { current_epoch: final(self)@.current_epoch, ..old(self)@ }),
            final(self)@.current_epoch * old(self)@.config.epoch_duration_ms <= now_ms
                % 0x1_0000_0000_0000_0000 < (final(self)@.current_epoch + 1)
                * old(self)@.config.epoch_duration_ms,
    {
        self.current_epoch = Self::calculate_epoch(now_ms, self.config.epoch_duration_ms);
    }

    /// Whether the outgoing table, if there is one, can be sent in one piece.
    pub fn can_send(&self) -> (ready: bool)
        ensures
            ready == crate::pull::sendable(self@.send),
    {
        match &self.send_table {
            Some(table) => match crate::archive::archive_size(table) {
                Some(size) => size <= (isize::MAX - 20) as u64,
                None => false,
            },
            None => true,
        }
    }

    /// Hands the outgoing table to the successor, once. The successor has to ask for the
    /// epoch that the table is of.
    pub fn get_usage_table(&mut self, epoch: u64) -> (answer: Result<
        EpochUsageTable,
        OrbitStreamError,
    >)
        ensures
            match answer {
                Ok(table) => epoch == old(self)@.data_epoch && old(self)@.send == Some(table@),
                Err(OrbitStreamError::EpochMismatch { requested, server }) => epoch
                    != old(self)@.data_epoch && requested == epoch && server
                    == old(self)@.data_epoch,
                Err(OrbitStreamError::TableNotExist(of)) => epoch == old(self)@.data_epoch
                    && old(self)@.send is None && of == epoch,
                Err(_) => false,
            },
            final(self)@ == (if epoch == old(self)@.data_epoch {
                old(self)@.pulled()
            } else {
                old(self)@
            }),
            final(self)@ == (NodeView { send: final(self)@.send, ..old(self)@ }),
            final(self)@.send == (if epoch == old(self)@.data_epoch {
                None
            } else {
                old(self)@.send
            }),
    {
        let data_epoch: u64 = self.data_epoch;
        if epoch != data_epoch {
            return Err(OrbitStreamError::EpochMismatch { requested: epoch, server: data_epoch });
        }
        match self.send_table.take() {
            Some(table) => Ok(table),
            None => Err(OrbitStreamError::TableNotExist(data_epoch)),
        }
    }
}

/// The wait leads to an epoch boundary, and from any time within an epoch to the
/// beginning of the next.
pub proof fn lemma_wait_leads_to_next_epoch(now_ms: u128, epoch_duration_ms: u64)
    requires
        epoch_duration_ms > 0,
        now_ms + wait_at(now_ms, epoch_duration_ms) <= u64::MAX,
    ensures
        1 <= wait_at(now_ms, epoch_duration_ms) <= epoch_duration_ms,
        (now_ms + wait_at(now_ms, epoch_duration_ms)) % (epoch_duration_ms as int) == 0,
        epoch_at((now_ms + wait_at(now_ms, epoch_duration_ms)) as u128, epoch_duration_ms)
            == epoch_at(now_ms, epoch_duration_ms) + 1,
{
    let d = epoch_duration_ms as int;
    let now = now_ms as int;
    let counted = (now_ms % 0x1_0000_0000_0000_0000) as int;
    assert(0 <= counted % d < d) by (nonlinear_arith)
        requires
            d > 0,
    ;
    assert(counted == now);
    let next = now + wait_at(now_ms, epoch_duration_ms);
    vstd::arithmetic::div_mod::lemma_fundamental_div_mod(now, d);
    let q = now / d;
    assert(next == d * q + d);
    assert(d * q + d == d * (q + 1)) by (nonlinear_arith);
    vstd::arithmetic::div_mod::lemma_fundamental_div_mod_converse(next, d, q + 1, 0);
}

/// Time that passes within an epoch does not change the epoch.
pub proof fn lemma_epoch_lasts_until_boundary(now_ms: u128, later_ms: u128, epoch_duration_ms: u64)
    requires
        epoch_duration_ms > 0,
        now_ms <= later_ms <= u64::MAX,
        later_ms < now_ms + wait_at(now_ms, epoch_duration_ms),
    ensures
        epoch_at(later_ms, epoch_duration_ms) == epoch_at(now_ms, epoch_duration_ms),
{
    let d = epoch_duration_ms as int;
    let now = now_ms as int;
    let later = later_ms as int;
    vstd::arithmetic::div_mod::lemma_fundamental_div_mod(now, d);
    let q = now / d;
    assert(0 <= now % d < d) by (nonlinear_arith)
        requires
            d > 0,
    ;
    assert(q * d == d * q) by (nonlinear_arith);
    vstd::arithmetic::div_mod::lemma_fundamental_div_mod_converse(later, d, q, later - d * q);
}

/// An admitted request counts for its identifier by its amount, and for no other.
pub proof fn lemma_admission_counts(node: NodeView, id: Uuid, amount: u64, reserved: u64, other: Uuid)
    requires
        node.admits(id, amount, reserved),
    ensures
        amount_in(node.admitted(id, amount).usage, id) == amount_in(node.usage, id) + amount,
        other != id ==> amount_in(node.admitted(id, amount).usage, other) == amount_in(
            node.usage,
            other,
        ),
{
    if other != id && crate::usage::uuid_key(other) == crate::usage::uuid_key(id) {
        crate::usage::lemma_uuid_key_injective(other, id);
    }
}

/// What is admitted for an identifier never exceeds what the nodes before leave of the
/// limit, whatever is reserved.
pub proof fn lemma_admission_stays_within_limit(
    node: NodeView,
    id: Uuid,
    amount: u64,
    reserved: u64,
)
    requires
        node.admits(id, amount, reserved),
        amount_in(node.usage, id) + amount > 0,
    ensures
        node.total(id) + amount_in(node.admitted(id, amount).usage, id) + reserved
            <= node.config.orbit_limit,
{
}

/// The more is reserved for the nodes after, the less is admitted: a request that is
/// admitted with a greater reserve is admitted with a smaller one.
pub proof fn lemma_reserve_only_restricts(
    node: NodeView,
    id: Uuid,
    amount: u64,
    reserved: u64,
    less: u64,
)
    requires
        less <= reserved,
        node.admits(id, amount, reserved),
    ensures
        node.quota(id, reserved) <= node.quota(id, less),
        node.admits(id, amount, less),
{
}

/// What goes to the successor says of every identifier what this node admitted, and
/// what the table that it received keeps.
pub proof fn lemma_turn_passes_usage_on(node: NodeView, id: Uuid)
    requires
        node.usage.dom().finite(),
        !node.isolated,
    ensures
        node.turned().send matches Some(table) && table.total(id) == amount_in(node.usage, id)
            + crate::usage::usage_sum(node.incoming().kept(), id) && table.tables[0]
            == node.own_record() && table.recent_epoch == node.current_epoch,
        node.own_record().amount(id) == amount_in(node.usage, id),
{
    crate::usage::lemma_listing_exists(node.usage);
    crate::usage::lemma_listing_gives_back(node.usage, listing(node.usage), id);
    crate::usage::lemma_excluding_oldest_is_what_a_push_keeps(
        node.incoming(),
        node.own_record(),
        id,
    );
}

/// What a node reserves is there for its successor: as long as the node keeps to its
/// quota, the table that it hands on leaves at least the reserve.
pub proof fn lemma_reserve_reaches_the_successor(
    node: NodeView,
    successor: NodeView,
    id: Uuid,
    reserved: u64,
)
    requires
        node.usage.dom().finite(),
        !node.isolated,
        amount_in(node.usage, id) <= node.quota(id, reserved),
        reserved <= node.remaining(id),
        successor.config == node.config,
    ensures
        successor.supplied(node.turned().send->Some_0).remaining(id) >= reserved,
{
    lemma_turn_passes_usage_on(node, id);
    crate::usage::lemma_excluding_oldest_is_no_more(node.incoming(), id);
}

/// A table is handed out once: after a pull there is none until the epoch turns again,
/// and what a turn puts there is of the epoch that it ended.
pub proof fn lemma_table_is_pulled_once(node: NodeView)
    requires
        !node.isolated,
    ensures
        node.pulled().send is None,
        node.pulled().turned().send is Some,
        node.pulled().turned().data_epoch == node.current_epoch,
{
}

/// A node that reached no node before it decides by its own allowance alone, hands
/// nothing on for that epoch, and takes part again from the next turn on.
pub proof fn lemma_isolated_node(node: NodeView, id: Uuid)
    requires
        node.receiving,
        node.received is None,
    ensures
        !node.released().receiving,
        node.released().remaining(id) == node.config.orbit_limit,
        node.released().can_turn(),
        node.released().turned().send is None,
        !node.released().turned().isolated,
{
}

/// Two requests one after the other are one request for the sum: both are allowed if and
/// only if the sum is, and then the node ends in the same state.
pub proof fn lemma_requests_add_up(node: NodeView, id: Uuid, a: u64, b: u64, reserved: u64)
    requires
        a + b <= u64::MAX,
    ensures
        (node.decision(id, a, reserved) == Admission::Allowed && node.asked(
            id,
            a,
            reserved,
        ).decision(id, b, reserved) == Admission::Allowed) <==> node.decision(
            id,
            (a + b) as u64,
            reserved,
        ) == Admission::Allowed,
        node.decision(id, (a + b) as u64, reserved) == Admission::Allowed ==> node.asked(
            id,
            a,
            reserved,
        ).asked(id, b, reserved) == node.asked(id, (a + b) as u64, reserved),
{
    let one = node.asked(id, a, reserved).asked(id, b, reserved);
    if node.decision(id, (a + b) as u64, reserved) == Admission::Allowed {
        assert(one.usage =~= node.asked(id, (a + b) as u64, reserved).usage);
    }
}

/// Where an amount is refused, every larger amount is.
pub proof fn lemma_refusal_covers_larger_amounts(
    node: NodeView,
    id: Uuid,
    amount: u64,
    larger: u64,
    reserved: u64,
)
    requires
        amount <= larger,
        node.decision(id, amount, reserved) == Admission::RateLimited,
    ensures
        node.decision(id, larger, reserved) == Admission::RateLimited,
        node.asked(id, larger, reserved) == node,
{
}

/// However many requests come in an epoch, for whichever identifiers: what was allowed
/// for an identifier is what its counter grew by, and no two requests spend the same
/// quota: the counter ends within the quota, unless it was over it before.
pub proof fn lemma_requests_share_the_quota(
    node: NodeView,
    requests: Seq<RequestView>,
    id: Uuid,
    reserved: u64,
)
    requires
        forall|i: int|
            0 <= i < requests.len() && (#[trigger] requests[i]).id == id ==> requests[i].reserved
                == reserved,
    ensures
        amount_in(node.asked_all(requests).usage, id) == amount_in(node.usage, id)
            + node.allowed_sum(requests, id),
        amount_in(node.asked_all(requests).usage, id) <= node.quota(id, reserved) || amount_in(
            node.asked_all(requests).usage,
            id,
        ) == amount_in(node.usage, id),
        node.asked_all(requests) == (NodeView { usage: node.asked_all(requests).usage, ..node }),
    decreases requests.len(),
{
    if requests.len() > 0 {
        let shorter = requests.drop_last();
        let last = requests.last();
        assert forall|i: int| 0 <= i < shorter.len() && (#[trigger] shorter[i]).id == id implies
            shorter[i].reserved == reserved by {
            assert(shorter[i] == requests[i]);
        }
        lemma_requests_share_the_quota(node, shorter, id, reserved);
        assert(requests[requests.len() - 1] == last);
        let before = node.asked_all(shorter);
        if before.decision(last.id, last.amount, last.reserved) == Admission::Allowed {
            lemma_admission_counts(before, last.id, last.amount, last.reserved, id);
        }
    }
}

/// A time lies within its epoch: not before the epoch begins, and before the next one
/// does. Of a time, 64 bits count.
pub proof fn lemma_epoch_contains_its_time(now_ms: u128, epoch_duration_ms: u64)
    requires
        epoch_duration_ms > 0,
    ensures
        epoch_at(now_ms, epoch_duration_ms) * epoch_duration_ms <= now_ms
            % 0x1_0000_0000_0000_0000 < (epoch_at(now_ms, epoch_duration_ms) + 1)
            * epoch_duration_ms,
        epoch_at(now_ms, epoch_duration_ms) <= u64::MAX,
{
    let d = epoch_duration_ms as int;
    let now = (now_ms % 0x1_0000_0000_0000_0000) as int;
    vstd::arithmetic::div_mod::lemma_fundamental_div_mod(now, d);
    let q = now / d;
    assert(0 <= now % d < d) by (nonlinear_arith)
        requires
            d > 0,
    ;
    assert(q * d == d * q) by (nonlinear_arith);
    assert((q + 1) * d == d * q + d) by (nonlinear_arith);
    assert(q <= now) by (nonlinear_arith)
        requires
            d > 0,
            q * d <= now,
            now >= 0,
    ;
}

/// Waiting ends at a multiple of the duration, after at least one millisecond and at most
/// one epoch.
pub proof fn lemma_wait_ends_at_a_boundary(now_ms: u128, epoch_duration_ms: u64)
    requires
        epoch_duration_ms > 0,
    ensures
        1 <= wait_at(now_ms, epoch_duration_ms) <= epoch_duration_ms,
        (now_ms % 0x1_0000_0000_0000_0000 + wait_at(now_ms, epoch_duration_ms)) % (
        epoch_duration_ms as int) == 0,
{
    let d = epoch_duration_ms as int;
    let now = (now_ms % 0x1_0000_0000_0000_0000) as int;
    vstd::arithmetic::div_mod::lemma_fundamental_div_mod(now, d);
    let q = now / d;
    assert(0 <= now % d < d) by (nonlinear_arith)
        requires
            d > 0,
    ;
    assert(d * q + d == d * (q + 1)) by (nonlinear_arith);
    vstd::arithmetic::div_mod::lemma_fundamental_div_mod_converse(
        now + wait_at(now_ms, epoch_duration_ms),
        d,
        q + 1,
        0,
    );
}

/// What remains of the limit and what the nodes before have used are the limit together,
/// unless they have used more.
pub proof fn lemma_remaining_and_seen_make_the_limit(node: NodeView, id: Uuid)
    ensures
        node.received is None ==> node.remaining(id) == node.config.orbit_limit,
        node.received matches Some(table) ==> ({
            let seen = sum_of(
                |i: int| table.tables[i].amount(id),
                table.tables.len() as int,
            );
            &&& seen <= node.config.orbit_limit ==> node.remaining(id) + seen
                == node.config.orbit_limit
            &&& seen > node.config.orbit_limit ==> node.remaining(id) == 0
        }),
{
    if let Some(table) = node.received {
        crate::usage::lemma_total_adds_up_the_epochs(table, id);
    }
}

/// Requests are decided by sums alone. A node that does not wait allows every request for
/// which the usage in the received table, what it has counted, the amount and the reserve
/// together stay within the limit, and no other but an empty one of an identifier for
/// which nothing is counted.
pub proof fn lemma_decision_by_the_sums(node: NodeView, id: Uuid, amount: u64, reserved: u64)
    ensures
        ({
            let seen = match node.received {
                Some(table) => sum_of(
                    |i: int| table.tables[i].amount(id),
                    table.tables.len() as int,
                ),
                None => 0,
            };
            let counted = amount_in(node.usage, id);
            let decision = node.decision(id, amount, reserved);
            &&& decision == Admission::Wait <==> node.receiving
            &&& decision == Admission::Allowed <==> !node.receiving && (counted + amount == 0
                || seen + counted + amount + reserved <= node.config.orbit_limit)
        }),
{
    if let Some(table) = node.received {
        crate::usage::lemma_total_adds_up_the_epochs(table, id);
    }
}

/// Bursts are allowed as long as there is capacity: whatever is left of the limit beyond
/// the reserve can be had at once.
pub proof fn lemma_what_is_left_can_be_had_at_once(
    node: NodeView,
    id: Uuid,
    amount: u64,
    reserved: u64,
)
    requires
        !node.receiving,
        node.received is None ==> amount_in(node.usage, id) + amount + reserved
            <= node.config.orbit_limit,
        node.received matches Some(table) ==> sum_of(
            |i: int| table.tables[i].amount(id),
            table.tables.len() as int,
        ) + amount_in(node.usage, id) + amount + reserved <= node.config.orbit_limit,
    ensures
        node.decision(id, amount, reserved) == Admission::Allowed,
        amount_in(node.asked(id, amount, reserved).usage, id) == amount_in(node.usage, id) + amount,
{
    lemma_decision_by_the_sums(node, id, amount, reserved);
    lemma_request_moves_one_count(node, id, amount, reserved);
}

/// A request moves the count of its identifier by its amount if it is allowed; it moves no
/// other count, none if it is not allowed, and nothing else of the node.
pub proof fn lemma_request_moves_one_count(node: NodeView, id: Uuid, amount: u64, reserved: u64)
    ensures
        ({
            let after = node.asked(id, amount, reserved);
            let allowed = node.decision(id, amount, reserved) == Admission::Allowed;
            &&& forall|other: Uuid| #[trigger]
                amount_in(after.usage, other) == amount_in(node.usage, other) + (if other == id
                    && allowed {
                    amount as int
                } else {
                    0
                })
            &&& after == (NodeView { usage: after.usage, ..node })
            &&& !allowed ==> after == node
        }),
{
    if node.decision(id, amount, reserved) == Admission::Allowed {
        assert forall|other: Uuid| #[trigger]
            amount_in(node.asked(id, amount, reserved).usage, other) == amount_in(node.usage, other)
                + (if other == id {
                amount as int
            } else {
                0
            }) by {
            lemma_admission_counts(node, id, amount, reserved, other);
        }
    }
}

/// A fresh node has the whole limit, less the reserve, to give for every identifier.
pub proof fn lemma_fresh_node_gives_the_limit(
    config: OrbitConfig,
    epoch: u64,
    id: Uuid,
    amount: u64,
    reserved: u64,
)
    ensures
        ({
            let node = NodeView::started(config, epoch);
            let decision = node.decision(id, amount, reserved);
            &&& amount_in(node.usage, id) == 0
            &&& node.config == config && node.current_epoch == epoch && node.data_epoch == 0
            &&& node.received is None && node.send is None && !node.receiving && !node.isolated
            &&& amount + reserved <= config.orbit_limit ==> decision == Admission::Allowed
            &&& amount > 0 && amount + reserved > config.orbit_limit ==> decision
                == Admission::RateLimited
        }),
{
}

/// Between two turns nothing but an allowed request changes what is counted: not a pull,
/// not a table that comes in, not giving up on one, and not the clock.
pub proof fn lemma_only_requests_are_counted(node: NodeView, table: TableView, epoch: u64, id: Uuid)
    ensures
        amount_in(node.pulled().usage, id) == amount_in(node.usage, id),
        amount_in(node.supplied(table).usage, id) == amount_in(node.usage, id),
        amount_in(node.released().usage, id) == amount_in(node.usage, id),
        amount_in(node.in_epoch(epoch).usage, id) == amount_in(node.usage, id),
{
}

/// A pull by the successor takes the outgoing table and nothing else, and changes no
/// decision.
pub proof fn lemma_pull_takes_only_the_table(node: NodeView, id: Uuid, amount: u64, reserved: u64)
    ensures
        node.pulled().send is None,
        node.pulled().config == node.config,
        node.pulled().current_epoch == node.current_epoch,
        node.pulled().data_epoch == node.data_epoch,
        node.pulled().usage == node.usage,
        node.pulled().received == node.received,
        node.pulled().receiving == node.receiving,
        node.pulled().isolated == node.isolated,
        node.pulled().decision(id, amount, reserved) == node.decision(id, amount, reserved),
        node.pulled().pulled() == node.pulled(),
{
}

/// A table that comes in replaces the one that was there and lets requests in; giving up
/// lets requests in without one; the clock changes the epoch. Each leaves the rest.
pub proof fn lemma_each_event_changes_its_part(node: NodeView, table: TableView, epoch: u64)
    ensures
        node.supplied(table).received == Some(table),
        !node.supplied(table).receiving,
        node.supplied(table).config == node.config,
        node.supplied(table).current_epoch == node.current_epoch,
        node.supplied(table).data_epoch == node.data_epoch,
        node.supplied(table).send == node.send,
        node.supplied(table).isolated == node.isolated,
        !node.released().receiving,
        node.released().isolated,
        node.released().received == node.received,
        node.released().config == node.config,
        node.released().current_epoch == node.current_epoch,
        node.released().data_epoch == node.data_epoch,
        node.released().send == node.send,
        node.in_epoch(epoch).current_epoch == epoch,
        node.in_epoch(epoch).config == node.config,
        node.in_epoch(epoch).data_epoch == node.data_epoch,
        node.in_epoch(epoch).received == node.received,
        node.in_epoch(epoch).send == node.send,
        node.in_epoch(epoch).receiving == node.receiving,
        node.in_epoch(epoch).isolated == node.isolated,
{
}

/// After a turn a node has counted nothing for any identifier, whether or not it had a
/// table in the epoch that ended; requests wait for a table of the nodes before.
pub proof fn lemma_turn_starts_anew(node: NodeView)
    ensures
        forall|id: Uuid| #[trigger] amount_in(node.turned().usage, id) == 0,
        forall|id: Uuid, amount: u64, reserved: u64| #[trigger]
            node.turned().decision(id, amount, reserved) == Admission::Wait,
        node.turned().receiving,
        node.turned().received is None,
        !node.turned().isolated,
        node.turned().config == node.config,
        node.turned().current_epoch == node.current_epoch,
        node.turned().data_epoch == node.current_epoch,
        node.turned().send is Some <==> !node.isolated,
{
}

/// A turn hands on, in front, what was counted in the epoch that ended, and behind it what
/// was received, in its order; at most the oldest epoch is left out, and only where there
/// are as many as a table has room for.
pub proof fn lemma_turn_hands_the_record_on(node: NodeView)
    requires
        node.usage.dom().finite(),
        !node.isolated,
    ensures
        node.turned().send matches Some(table) && ({
            &&& table.recent_epoch == node.current_epoch
            &&& table.tables[0].epoch == node.current_epoch
            &&& forall|id: Uuid| #[trigger]
                table.tables[0].amount(id) == amount_in(node.usage, id)
            &&& node.received is None ==> table.tables.len() == 1 && table.node_count
                == node.config.node_count as usize
            &&& node.received matches Some(received) ==> ({
                let held = received.tables.len();
                &&& table.node_count == received.node_count
                &&& held == 0 || held + 1 < received.node_count ==> table.tables.len() == held + 1
                &&& held > 0 && held + 1 >= received.node_count ==> table.tables.len() == held
                &&& forall|i: int|
                    #![trigger table.tables[i]]
                    1 <= i < table.tables.len() ==> table.tables[i] == received.tables[i - 1]
            })
        }),
{
    let table = node.turned().send->Some_0;
    assert forall|id: Uuid| #[trigger] table.tables[0].amount(id) == amount_in(node.usage, id) by {
        lemma_turn_passes_usage_on(node, id);
    }
    crate::usage::lemma_push_moves_epochs_back(node.incoming(), node.own_record());
}

/// A node can turn whenever a table has room for it: with a received table that is for at
/// least one node, or with a ring of a size for which a table can be made.
pub proof fn lemma_turn_is_possible(node: NodeView)
    requires
        node.isolated || (node.received is Some && node.received->Some_0.node_count >= 1) || (
        node.received is None && 1 <= node.config.node_count && node.config.node_count * 32
            <= isize::MAX),
    ensures
        node.can_turn(),
{
}

/// Something that happens to a node.
pub enum NodeStep {
    Ask(RequestView),
    Pull,
    Supply(TableView),
    Release,
    Clock(u64),
    Turn,
}

impl NodeView {
    /// The node after something has happened to it.
    pub open spec fn after_step(self, step: NodeStep) -> NodeView {
        match step {
            NodeStep::Ask(request) => self.asked(request.id, request.amount, request.reserved),
            NodeStep::Pull => self.pulled(),
            NodeStep::Supply(table) => self.supplied(table),
            NodeStep::Release => self.released(),
            NodeStep::Clock(epoch) => self.in_epoch(epoch),
            NodeStep::Turn => self.turned(),
        }
    }

    /// The node after things have happened to it.
    pub open spec fn after_steps(self, steps: Seq<NodeStep>) -> NodeView
        decreases steps.len(),
    {
        if steps.len() == 0 {
            self
        } else {
            self.after_steps(steps.drop_last()).after_step(steps.last())
        }
    }

    /// What a requester who keeps count of the answers was allowed since the last turn.
    pub open spec fn answered(self, steps: Seq<NodeStep>, id: Uuid) -> nat
        decreases steps.len(),
    {
        if steps.len() == 0 {
            0
        } else {
            let before = self.answered(steps.drop_last(), id);
            match steps.last() {
                NodeStep::Turn => 0,
                NodeStep::Ask(request) => if request.id == id && self.after_steps(
                    steps.drop_last(),
                ).decision(request.id, request.amount, request.reserved) == Admission::Allowed {
                    before + request.amount as nat
                } else {
                    before
                },
                _ => before,
            }
        }
    }
}

/// Whatever happens to a node, in whatever order: what it has counted for an identifier is
/// what it has answered with leave since the last turn.
pub proof fn lemma_counts_are_the_answers(node: NodeView, steps: Seq<NodeStep>, id: Uuid)
    requires
        amount_in(node.usage, id) == 0,
    ensures
        amount_in(node.after_steps(steps).usage, id) == node.answered(steps, id),
    decreases steps.len(),
{
    if steps.len() > 0 {
        lemma_counts_are_the_answers(node, steps.drop_last(), id);
        let before = node.after_steps(steps.drop_last());
        if let NodeStep::Ask(request) = steps.last() {
            lemma_request_moves_one_count(before, request.id, request.amount, request.reserved);
        }
    }
}

/// A node cannot turn where there is no room for its record: with a received table that is
/// for no node, or in a ring of no nodes.
pub proof fn lemma_turn_needs_room(node: NodeView)
    requires
        !node.isolated,
        (node.received is Some && node.received->Some_0.node_count == 0) || (node.received is None
            && node.config.node_count == 0),
    ensures
        !node.can_turn(),
{
}

} // verus!
