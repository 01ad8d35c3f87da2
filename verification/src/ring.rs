//! The ring as a whole: nodes that each pull from the one before, and what they admit
//! together.
//!
//! Nodes act in any order. What a node admits in its successive epochs is remembered
//! here, so that the strict cap can be stated over all of them.

use crate::epoch::{EpochEvent, EpochTask};
use crate::node::{epoch_at, Admission, NodeView, OrbitConfig};
use crate::sum::sum_of;
use crate::usage::{
    amount_in, usage_sum, EpochUsageTable, EpochView, TableView, Uuid, EPOCH_USAGE_SIZE,
};
use vstd::prelude::*;

verus! {

/// A ring of nodes.
#[verifier::ext_equal]
pub struct RingView {
    /// The epoch in which the ring started.
    pub first: u64,
    /// The nodes, each followed by its successor and the last by the first.
    pub nodes: Seq<NodeView>,
    /// For each node, what it admitted in each epoch that it has ended.
    pub past: Seq<Seq<Map<u128, u64>>>,
}

/// Something that happens to one node of a ring, by its place in the ring.
pub enum RingStep {
    /// It admits a request, reserving some amount for the nodes after it.
    Admit { at: int, id: Uuid, amount: u64, reserved: u64 },
    /// Its epoch turns.
    Turn { at: int },
    /// It pulls the table of its predecessor, and then reads the clock.
    Pull { at: int, now_ms: u128 },
}

/// Whether a ring of such nodes can be: it has at least one node, and a table has room
/// for the nodes.
pub open spec fn ring_config(config: OrbitConfig) -> bool {
    &&& 1 <= config.node_count
    &&& config.node_count * EPOCH_USAGE_SIZE <= isize::MAX
    &&& config.epoch_duration_ms > 0
}

/// A ring whose nodes have all just started, in the same epoch.
pub open spec fn ring_started(config: OrbitConfig, first: u64) -> RingView {
    RingView {
        first,
        nodes: Seq::new(config.node_count as nat, |k: int| NodeView::started(config, first)),
        past: Seq::new(config.node_count as nat, |k: int| Seq::empty()),
    }
}

impl RingView {
    /// How many nodes there are.
    pub open spec fn size(self) -> int {
        self.nodes.len() as int
    }

    /// The place before another.
    pub open spec fn before(self, at: int) -> int {
        (at - 1) % self.size()
    }

    /// Whether a step can happen while the protocol operates correctly. A node admits
    /// and turns when it does not wait for a table. It pulls when it waits, its
    /// predecessor has the table of the same epoch, and the next epoch has begun by the
    /// time that the table is there.
    pub open spec fn allows(self, step: RingStep) -> bool {
        match step {
            RingStep::Admit { at, id, amount, reserved } => {
                &&& 0 <= at < self.size()
                &&& !self.nodes[at].receiving
                &&& self.nodes[at].admits(id, amount, reserved)
            },
            RingStep::Turn { at } => {
                &&& 0 <= at < self.size()
                &&& !self.nodes[at].receiving
            },
            RingStep::Pull { at, now_ms } => {
                &&& 0 <= at < self.size()
                &&& self.nodes[at].receiving
                &&& self.nodes[self.before(at)].data_epoch == self.nodes[at].current_epoch
                &&& self.nodes[self.before(at)].send is Some
                &&& epoch_at(now_ms, self.nodes[at].config.epoch_duration_ms)
                    == self.nodes[at].current_epoch + 1
            },
        }
    }

    /// The ring after a step.
    pub open spec fn after(self, step: RingStep) -> RingView {
        match step {
            RingStep::Admit { at, id, amount, reserved } => RingView {
                nodes: self.nodes.update(at, self.nodes[at].admitted(id, amount)),
                ..self
            },
            RingStep::Turn { at } => RingView {
                nodes: self.nodes.update(at, self.nodes[at].turned()),
                past: self.past.update(at, self.past[at].push(self.nodes[at].usage)),
                ..self
            },
            RingStep::Pull { at, now_ms } => {
                let table = self.nodes[self.before(at)].send->Some_0;
                let emptied = self.nodes.update(
                    self.before(at),
                    self.nodes[self.before(at)].pulled(),
                );
                let epoch = epoch_at(now_ms, self.nodes[at].config.epoch_duration_ms) as u64;
                RingView {
                    nodes: emptied.update(at, emptied[at].supplied(table).in_epoch(epoch)),
                    ..self
                }
            },
        }
    }

    /// Whether steps can happen one after the other.
    pub open spec fn allows_all(self, steps: Seq<RingStep>) -> bool
        decreases steps.len(),
    {
        steps.len() > 0 ==> {
            &&& self.allows_all(steps.drop_last())
            &&& self.after_all(steps.drop_last()).allows(steps.last())
        }
    }

    /// The ring after steps.
    pub open spec fn after_all(self, steps: Seq<RingStep>) -> RingView
        decreases steps.len(),
    {
        if steps.len() == 0 {
            self
        } else {
            self.after_all(steps.drop_last()).after(steps.last())
        }
    }

    /// What the node at a place (round and round the ring) has admitted for an
    /// identifier in the epoch `round` epochs after the first.
    pub open spec fn admitted(self, at: int, round: int, id: Uuid) -> nat {
        let k = at % self.size();
        if 0 <= round < self.past[k].len() {
            amount_in(self.past[k][round], id) as nat
        } else if round == self.past[k].len() {
            amount_in(self.nodes[k].usage, id) as nat
        } else {
            0
        }
    }

    /// What all nodes have admitted for an identifier in an epoch.
    pub open spec fn admitted_by_all(self, round: int, id: Uuid) -> nat {
        sum_of(|at: int| self.admitted(at, round, id), self.size())
    }

    /// What all nodes have admitted for an identifier in as many epochs as there are
    /// nodes, the last of them being `last`.
    pub open spec fn admitted_in_window(self, last: int, id: Uuid) -> nat {
        sum_of(|back: int| self.admitted_by_all(last - back, id), self.size())
    }

    /// What a node admitted in an epoch, its predecessor in the epoch before, and so on
    /// back through `count` nodes.
    pub open spec fn admitted_backwards(self, at: int, round: int, count: int, id: Uuid) -> nat {
        sum_of(|back: int| self.admitted(at - back, round - back, id), count)
    }

    /// How many epochs a table holds that has gone through `turns` turns.
    pub open spec fn held(self, turns: int) -> int {
        let window = if self.size() <= 2 {
            1
        } else {
            self.size() - 1
        };
        if turns <= window {
            turns
        } else {
            window
        }
    }

    /// Whether an epoch of a table says what the node at a place admitted in an epoch
    /// that it has ended.
    pub open spec fn record_is(self, record: EpochView, at: int, round: int) -> bool {
        let k = at % self.size();
        &&& 0 <= round < self.past[k].len()
        &&& forall|id: Uuid| #[trigger]
            record.amount(id) == amount_in(self.past[k][round], id)
    }

    /// Whether a table says, from its newest epoch on, what the node at a place admitted
    /// in an epoch, its predecessor in the epoch before, and so on.
    pub open spec fn table_is(self, table: TableView, at: int, round: int) -> bool {
        &&& table.node_count == self.size()
        &&& table.tables.len() == self.held(round + 1)
        &&& forall|back: int|
            #![trigger table.tables[back]]
            0 <= back < table.tables.len() ==> self.record_is(
                table.tables[back],
                at - back,
                round - back,
            )
    }

    /// Whether the nodes from the one before a place backwards have ended the epochs that
    /// lead up to an epoch.
    pub open spec fn settled(self, at: int, round: int) -> bool {
        forall|back: int|
            1 <= back < self.size() && back <= round ==> round - back < self.past[#[trigger] ((at
                - back) % self.size())].len()
    }

    /// Whether the epoch of a node is bounded: the nodes before have ended the epochs
    /// that lead up to it, and together they stay within the limit.
    pub open spec fn bounded(self, at: int, round: int) -> bool {
        &&& self.settled(at, round)
        &&& forall|id: Uuid| #[trigger]
            self.admitted_backwards(at, round, self.size(), id)
                <= self.nodes[at].config.orbit_limit
    }

    /// What holds of a node of the ring.
    pub open spec fn node_valid(self, at: int) -> bool {
        let node = self.nodes[at];
        let turns = self.past[at].len() as int;
        &&& node.usage.dom().finite()
        &&& !node.isolated
        &&& node.current_epoch == self.first + turns - (if node.receiving {
            1int
        } else {
            0
        })
        &&& node.receiving ==> turns >= 1 && node.received is None && node.usage == Map::<
            u128,
            u64,
        >::empty()
        &&& turns >= 1 ==> node.data_epoch == self.first + turns - 1
        &&& turns == 0 ==> node.received is None && node.send is None
        &&& turns >= 1 && !node.receiving ==> node.received is Some
        &&& node.send matches Some(table) ==> self.table_is(table, at, turns - 1)
        &&& node.received matches Some(table) ==> self.table_is(table, at - 1, turns - 1)
        &&& forall|round: int| 0 <= round < turns ==> #[trigger] self.bounded(at, round)
        &&& !node.receiving ==> self.bounded(at, turns)
    }

    /// What holds of a ring while the protocol operates correctly.
    pub open spec fn valid(self, config: OrbitConfig) -> bool {
        &&& ring_config(config)
        &&& self.size() == config.node_count
        &&& self.past.len() == self.size()
        &&& forall|at: int|
            0 <= at < self.size() ==> (#[trigger] self.nodes[at]).config == config
                && self.node_valid(at)
    }
}

/// Going back in a ring can be done in two parts.
proof fn lemma_back_in_parts(at: int, back: int, size: int)
    requires
        0 < size,
    ensures
        ((at % size) - back) % size == (at - back) % size,
{
    vstd::arithmetic::div_mod::lemma_sub_mod_noop_right(at % size, back, size);
    vstd::arithmetic::div_mod::lemma_sub_mod_noop(at, back, size);
}

/// Whether a ring has come out of another: what was ended there is remembered.
spec fn remembers(later: RingView, ring: RingView) -> bool {
    &&& later.first == ring.first
    &&& later.size() == ring.size()
    &&& later.past.len() == ring.past.len() == ring.size()
    &&& forall|k: int|
        #![trigger later.past[k]]
        0 <= k < ring.size() ==> ring.past[k].len() <= later.past[k].len() && forall|round: int|
            #![trigger later.past[k][round]]
            0 <= round < ring.past[k].len() ==> later.past[k][round] == ring.past[k][round]
}

proof fn lemma_table_remembered(
    later: RingView,
    ring: RingView,
    table: TableView,
    at: int,
    round: int,
)
    requires
        0 < ring.size(),
        remembers(later, ring),
        ring.table_is(table, at, round),
    ensures
        later.table_is(table, at, round),
{
    assert forall|back: int|
        #![trigger table.tables[back]]
        0 <= back < table.tables.len() implies later.record_is(
        table.tables[back],
        at - back,
        round - back,
    ) by {
        let k = (at - back) % ring.size();
        assert(ring.record_is(table.tables[back], at - back, round - back));
        assert(later.past[k][round - back] == ring.past[k][round - back]);
    }
}

proof fn lemma_settled_remembered(later: RingView, ring: RingView, at: int, round: int)
    requires
        0 <= at < ring.size(),
        remembers(later, ring),
        ring.settled(at, round),
    ensures
        later.settled(at, round),
{
    let size = ring.size();
    assert forall|back: int| 1 <= back < size && back <= round implies round - back
        < later.past[#[trigger] ((at - back) % size)].len() by {
        assert(ring.past[(at - back) % size].len() <= later.past[(at - back) % size].len());
    }
}

/// What led up to an epoch does not change any more.
proof fn lemma_backwards_remembered(
    later: RingView,
    ring: RingView,
    at: int,
    round: int,
    id: Uuid,
)
    requires
        0 <= at < ring.size(),
        remembers(later, ring),
        ring.settled(at, round),
        later.admitted(at, round, id) == ring.admitted(at, round, id),
    ensures
        later.admitted_backwards(at, round, ring.size(), id) == ring.admitted_backwards(
            at,
            round,
            ring.size(),
            id,
        ),
{
    let size = ring.size();
    let f = |back: int| later.admitted(at - back, round - back, id);
    let g = |back: int| ring.admitted(at - back, round - back, id);
    assert forall|back: int|
        #![trigger later.admitted(at - back, round - back, id)]
        0 <= back < size implies later.admitted(at - back, round - back, id) == ring.admitted(
        at - back,
        round - back,
        id,
    ) by {
        if back >= 1 && back <= round {
            let k = (at - back) % size;
            assert(round - back < ring.past[k].len());
            assert(later.past[k][round - back] == ring.past[k][round - back]);
        }
    }
    crate::sum::lemma_sum_agree(f, g, size);
}

proof fn lemma_bounded_remembered(later: RingView, ring: RingView, at: int, round: int)
    requires
        0 <= at < ring.size(),
        remembers(later, ring),
        ring.bounded(at, round),
        later.nodes[at].config == ring.nodes[at].config,
        forall|id: Uuid| #[trigger]
            later.admitted(at, round, id) == ring.admitted(at, round, id),
    ensures
        later.bounded(at, round),
{
    assert forall|id: Uuid| #[trigger]
        later.admitted_backwards(at, round, later.size(), id)
            <= later.nodes[at].config.orbit_limit by {
        lemma_backwards_remembered(later, ring, at, round, id);
        assert(ring.admitted_backwards(at, round, ring.size(), id)
            <= ring.nodes[at].config.orbit_limit);
    }
    lemma_settled_remembered(later, ring, at, round);
}

/// What a node admitted in an epoch can be split off from what led up to it.
proof fn lemma_backwards_front(ring: RingView, at: int, round: int, count: int, id: Uuid)
    requires
        0 < ring.size(),
        0 < count,
    ensures
        ring.admitted_backwards(at, round, count, id) == ring.admitted(at, round, id)
            + ring.admitted_backwards(at - 1, round - 1, count - 1, id),
        ring.admitted_backwards(at - 1, round - 1, count - 1, id) == ring.admitted_backwards(
            ring.before(at),
            round - 1,
            count - 1,
            id,
        ),
{
    let f = |back: int| ring.admitted(at - back, round - back, id);
    let g = |back: int| ring.admitted(at - 1 - back, round - 1 - back, id);
    let h = |back: int| ring.admitted(ring.before(at) - back, round - 1 - back, id);
    crate::sum::lemma_sum_front(f, count);
    crate::sum::lemma_sum_agree(|back: int| f(back + 1), g, count - 1);
    assert forall|back: int|
        #![trigger ring.admitted(at - 1 - back, round - 1 - back, id)]
        0 <= back < count - 1 implies ring.admitted(at - 1 - back, round - 1 - back, id)
        == ring.admitted(ring.before(at) - back, round - 1 - back, id) by {
        lemma_back_in_parts(at - 1, back, ring.size());
    }
    crate::sum::lemma_sum_agree(g, h, count - 1);
}

/// The total of a table is what the nodes whose epochs it holds admitted in them.
proof fn lemma_table_total(
    ring: RingView,
    table: TableView,
    at: int,
    round: int,
    count: int,
    id: Uuid,
)
    requires
        ring.table_is(table, at, round),
        0 <= count <= table.tables.len(),
    ensures
        usage_sum(table.tables.take(count), id) == ring.admitted_backwards(at, round, count, id),
    decreases count,
{
    if count > 0 {
        let part = table.tables.take(count);
        assert(part.drop_last() =~= table.tables.take(count - 1));
        lemma_table_total(ring, table, at, round, count - 1, id);
        let back = count - 1;
        assert(part.last() == table.tables[back]);
        assert(ring.record_is(table.tables[back], at - back, round - back));
        assert(table.tables[back].amount(id) == ring.admitted(at - back, round - back, id));
    }
}

/// What a node sees of the nodes before it is exactly what they admitted: its
/// predecessor in the epoch before, and so on, as far back as a table reaches.
pub proof fn lemma_node_sees_the_nodes_before(
    ring: RingView,
    config: OrbitConfig,
    at: int,
    id: Uuid,
)
    requires
        ring.valid(config),
        0 <= at < ring.size(),
        !ring.nodes[at].receiving,
    ensures
        ring.nodes[at].total(id) == ring.admitted_backwards(
            at - 1,
            ring.past[at].len() - 1,
            ring.held(ring.past[at].len() as int),
            id,
        ),
{
    let node = ring.nodes[at];
    let turns = ring.past[at].len() as int;
    if turns > 0 {
        let table = node.received->Some_0;
        lemma_table_total(ring, table, at - 1, turns - 1, ring.held(turns), id);
        assert(table.tables.take(ring.held(turns)) =~= table.tables);
    }
}

/// All that leads up to the epoch that a node is counting is in the total that it sees.
proof fn lemma_total_covers(ring: RingView, config: OrbitConfig, at: int, id: Uuid)
    requires
        ring.valid(config),
        0 <= at < ring.size(),
        !ring.nodes[at].receiving,
    ensures
        ring.admitted_backwards(at - 1, ring.past[at].len() - 1, ring.size() - 1, id)
            <= ring.nodes[at].total(id),
{
    lemma_node_sees_the_nodes_before(ring, config, at, id);
    let turns = ring.past[at].len() as int;
    let held = ring.held(turns);
    let f = |back: int| ring.admitted(at - 1 - back, turns - 1 - back, id);
    if held < ring.size() - 1 {
        crate::sum::lemma_sum_zero_end(f, held, ring.size() - 1);
    } else {
        crate::sum::lemma_sum_grows(f, ring.size() - 1, held);
    }
}

/// A node to which nothing happened stays valid.
proof fn lemma_bystander_stays_valid(later: RingView, ring: RingView, at: int)
    requires
        0 <= at < ring.size(),
        remembers(later, ring),
        ring.node_valid(at),
        later.past[at] == ring.past[at],
        later.nodes[at] == (NodeView { send: later.nodes[at].send, ..ring.nodes[at] }),
        later.nodes[at].send == ring.nodes[at].send || later.nodes[at].send is None,
    ensures
        later.node_valid(at),
{
    let node = ring.nodes[at];
    let turns = ring.past[at].len() as int;
    vstd::arithmetic::div_mod::lemma_small_mod(at as nat, ring.size() as nat);
    if let Some(table) = later.nodes[at].send {
        lemma_table_remembered(later, ring, table, at, turns - 1);
    }
    if let Some(table) = node.received {
        lemma_table_remembered(later, ring, table, at - 1, turns - 1);
    }
    assert forall|round: int| 0 <= round < turns implies #[trigger] later.bounded(at, round) by {
        assert(ring.bounded(at, round));
        lemma_bounded_remembered(later, ring, at, round);
    }
    if !node.receiving {
        lemma_bounded_remembered(later, ring, at, turns);
    }
}

proof fn lemma_admit_keeps_valid(
    ring: RingView,
    config: OrbitConfig,
    at: int,
    id: Uuid,
    amount: u64,
    reserved: u64,
)
    requires
        ring.valid(config),
        ring.allows(RingStep::Admit { at, id, amount, reserved }),
    ensures
        ring.after(RingStep::Admit { at, id, amount, reserved }).valid(config),
{
    let later = ring.after(RingStep::Admit { at, id, amount, reserved });
    let size = ring.size();
    let turns = ring.past[at].len() as int;
    assert(remembers(later, ring));
    assert forall|k: int| 0 <= k < size implies (#[trigger] later.nodes[k]).config == config
        && later.node_valid(k) by {
        assert(ring.nodes[k].config == config && ring.node_valid(k));
        vstd::arithmetic::div_mod::lemma_small_mod(k as nat, size as nat);
        if k != at {
            lemma_bystander_stays_valid(later, ring, k);
        } else {
            if let Some(table) = ring.nodes[at].send {
                lemma_table_remembered(later, ring, table, at, turns - 1);
            }
            if let Some(table) = ring.nodes[at].received {
                lemma_table_remembered(later, ring, table, at - 1, turns - 1);
            }
            assert forall|round: int| 0 <= round < turns implies #[trigger] later.bounded(
                at,
                round,
            ) by {
                assert(ring.bounded(at, round));
                lemma_bounded_remembered(later, ring, at, round);
            }
            lemma_settled_remembered(later, ring, at, turns);
            assert forall|other: Uuid| #[trigger]
                later.admitted_backwards(at, turns, size, other) <= config.orbit_limit by {
                crate::node::lemma_admission_counts(ring.nodes[at], id, amount, reserved, other);
                assert(ring.admitted_backwards(at, turns, size, other) <= config.orbit_limit);
                if other != id {
                    lemma_backwards_remembered(later, ring, at, turns, other);
                } else {
                    lemma_total_covers(ring, config, at, id);
                    lemma_backwards_front(ring, at, turns, size, id);
                    lemma_backwards_front(later, at, turns, size, id);
                    let f = |back: int| later.admitted(at - 1 - back, turns - 1 - back, id);
                    let g = |back: int| ring.admitted(at - 1 - back, turns - 1 - back, id);
                    assert forall|back: int|
                        #![trigger later.admitted(at - 1 - back, turns - 1 - back, id)]
                        0 <= back < size - 1 implies later.admitted(
                        at - 1 - back,
                        turns - 1 - back,
                        id,
                    ) == ring.admitted(at - 1 - back, turns - 1 - back, id) by {
                        if back + 1 <= turns {
                            let k = (at - (back + 1)) % size;
                            assert(turns - (back + 1) < ring.past[k].len());
                            assert(at - 1 - back == at - (back + 1));
                        }
                    }
                    crate::sum::lemma_sum_agree(f, g, size - 1);
                }
            }
        }
    }
}

proof fn lemma_turn_keeps_valid(ring: RingView, config: OrbitConfig, at: int)
    requires
        ring.valid(config),
        ring.allows(RingStep::Turn { at }),
    ensures
        ring.after(RingStep::Turn { at }).valid(config),
{
    let later = ring.after(RingStep::Turn { at });
    let size = ring.size();
    let node = ring.nodes[at];
    let turns = ring.past[at].len() as int;
    assert(ring.node_valid(at));
    assert(remembers(later, ring));
    vstd::arithmetic::div_mod::lemma_small_mod(at as nat, size as nat);
    assert forall|id: Uuid| #[trigger] later.admitted(at, turns, id) == ring.admitted(
        at,
        turns,
        id,
    ) by {}
    lemma_bounded_remembered(later, ring, at, turns);
    let table = node.turned().send->Some_0;
    assert(later.table_is(table, at, turns)) by {
        assert forall|back: int|
            #![trigger table.tables[back]]
            0 <= back < table.tables.len() implies later.record_is(
            table.tables[back],
            at - back,
            turns - back,
        ) by {
            if back == 0 {
                assert forall|id: Uuid| #[trigger]
                    table.tables[0].amount(id) == amount_in(later.past[at][turns], id) by {
                    crate::node::lemma_turn_passes_usage_on(node, id);
                }
            } else {
                let received = node.received->Some_0;
                lemma_table_remembered(later, ring, received, at - 1, turns - 1);
                assert(table.tables[back] == received.tables[back - 1]);
                assert(at - 1 - (back - 1) == at - back);
            }
        }
    }
    assert forall|k: int| 0 <= k < size implies (#[trigger] later.nodes[k]).config == config
        && later.node_valid(k) by {
        assert(ring.nodes[k].config == config && ring.node_valid(k));
        if k != at {
            lemma_bystander_stays_valid(later, ring, k);
        } else {
            assert forall|round: int| 0 <= round < turns + 1 implies #[trigger] later.bounded(
                at,
                round,
            ) by {
                if round < turns {
                    assert(ring.bounded(at, round));
                    lemma_bounded_remembered(later, ring, at, round);
                }
            }
        }
    }
}

proof fn lemma_pull_keeps_valid(ring: RingView, config: OrbitConfig, at: int, now_ms: u128)
    requires
        ring.valid(config),
        ring.allows(RingStep::Pull { at, now_ms }),
    ensures
        ring.after(RingStep::Pull { at, now_ms }).valid(config),
{
    let later = ring.after(RingStep::Pull { at, now_ms });
    let size = ring.size();
    let turns = ring.past[at].len() as int;
    let from = ring.before(at);
    assert(ring.node_valid(at));
    assert(0 <= from < size);
    assert(ring.nodes[from].config == config && ring.node_valid(from));
    assert(ring.past[from].len() == turns);
    assert(remembers(later, ring));
    vstd::arithmetic::div_mod::lemma_small_mod(at as nat, size as nat);
    let table = ring.nodes[from].send->Some_0;
    assert(later.table_is(table, at - 1, turns - 1)) by {
        lemma_table_remembered(later, ring, table, from, turns - 1);
        assert forall|back: int|
            #![trigger table.tables[back]]
            0 <= back < table.tables.len() implies later.record_is(
            table.tables[back],
            at - 1 - back,
            turns - 1 - back,
        ) by {
            lemma_back_in_parts(at - 1, back, size);
            assert(later.record_is(table.tables[back], from - back, turns - 1 - back));
        }
    }
    assert(later.bounded(at, turns)) by {
        assert forall|back: int| 1 <= back < size && back <= turns implies turns - back
            < later.past[#[trigger] ((at - back) % size)].len() by {
            assert(later.record_is(
                table.tables[back - 1],
                at - 1 - (back - 1),
                turns - 1 - (back - 1),
            ));
            assert(at - 1 - (back - 1) == at - back);
        }
        assert forall|id: Uuid| #[trigger]
            later.admitted_backwards(at, turns, size, id) <= config.orbit_limit by {
            lemma_backwards_front(later, at, turns, size, id);
            assert(ring.bounded(from, turns - 1));
            assert(ring.admitted_backwards(from, turns - 1, size, id) <= config.orbit_limit);
            let f = |back: int| later.admitted(from - back, turns - 1 - back, id);
            let g = |back: int| ring.admitted(from - back, turns - 1 - back, id);
            crate::sum::lemma_sum_agree(f, g, size);
            crate::sum::lemma_sum_grows(f, size - 1, size);
        }
    }
    assert forall|k: int| 0 <= k < size implies (#[trigger] later.nodes[k]).config == config
        && later.node_valid(k) by {
        assert(ring.nodes[k].config == config && ring.node_valid(k));
        if k != at {
            lemma_bystander_stays_valid(later, ring, k);
        } else {
            if let Some(sent) = later.nodes[at].send {
                lemma_table_remembered(later, ring, sent, at, turns - 1);
            }
            assert forall|round: int| 0 <= round < turns implies #[trigger] later.bounded(
                at,
                round,
            ) by {
                assert(ring.bounded(at, round));
                lemma_bounded_remembered(later, ring, at, round);
            }
        }
    }
}

/// Every step of a ring keeps it valid.
pub proof fn lemma_step_keeps_ring_valid(ring: RingView, config: OrbitConfig, step: RingStep)
    requires
        ring.valid(config),
        ring.allows(step),
    ensures
        ring.after(step).valid(config),
{
    match step {
        RingStep::Admit { at, id, amount, reserved } => {
            lemma_admit_keeps_valid(ring, config, at, id, amount, reserved);
        },
        RingStep::Turn { at } => {
            lemma_turn_keeps_valid(ring, config, at);
        },
        RingStep::Pull { at, now_ms } => {
            lemma_pull_keeps_valid(ring, config, at, now_ms);
        },
    }
}

/// The epoch that a waiting node asks for is the one that its predecessor has if and
/// only if both have ended as many epochs.
pub proof fn lemma_epochs_match_in_step(ring: RingView, config: OrbitConfig, at: int)
    requires
        ring.valid(config),
        0 <= at < ring.size(),
        ring.nodes[at].receiving,
        ring.past[ring.before(at)].len() > 0,
    ensures
        ring.nodes[ring.before(at)].data_epoch == ring.nodes[at].current_epoch <==> ring.past[
            ring.before(at)].len() == ring.past[at].len(),
{
    assert(ring.node_valid(at));
    assert(0 <= ring.before(at) < ring.size());
    assert(ring.nodes[ring.before(at)].config == config && ring.node_valid(ring.before(at)));
}

/// The steps of a ring are what the epoch task of a node does to it: a turn at a
/// boundary, and a pull with the predecessor's table and the clock.
pub proof fn lemma_epoch_task_makes_the_steps(
    ring: RingView,
    task: EpochTask,
    at: int,
    table: EpochUsageTable,
    now_ms: u128,
)
    requires
        0 <= at < ring.size(),
        ring.nodes[ring.before(at)].send == Some(table@),
    ensures
        ring.after(RingStep::Turn { at }).nodes[at] == task.node_after(
            ring.nodes[at],
            EpochEvent::BoundaryReached,
        ),
        ring.after(RingStep::Pull { at, now_ms }).nodes[at] == task.node_after(
            task.node_after(
                if ring.before(at) == at {
                    ring.nodes[at].pulled()
                } else {
                    ring.nodes[at]
                },
                EpochEvent::TablePulled(table),
            ),
            EpochEvent::ClockRead(now_ms),
        ),
{
    assert(0 <= ring.before(at) < ring.size());
}

/// A ring that has just started is valid.
pub proof fn lemma_started_ring_is_valid(config: OrbitConfig, first: u64)
    requires
        ring_config(config),
    ensures
        ring_started(config, first).valid(config),
{
    let ring = ring_started(config, first);
    let size = ring.size();
    assert forall|at: int| 0 <= at < size implies (#[trigger] ring.nodes[at]).config == config
        && ring.node_valid(at) by {
        assert forall|id: Uuid| #[trigger]
            ring.admitted_backwards(at, 0, size, id) <= config.orbit_limit by {
            let f = |back: int| ring.admitted(at - back, 0 - back, id);
            assert forall|back: int|
                #![trigger ring.admitted(at - back, 0 - back, id)]
                0 <= back < size implies ring.admitted(at - back, 0 - back, id) == 0 by {
                assert(0 <= (at - back) % size < size);
            }
            crate::sum::lemma_sum_zero_end(f, 0, size);
        }
        assert(ring.bounded(at, 0));
    }
}

/// While the protocol operates correctly, a ring stays valid.
pub proof fn lemma_ring_stays_valid(config: OrbitConfig, first: u64, steps: Seq<RingStep>)
    requires
        ring_config(config),
        ring_started(config, first).allows_all(steps),
    ensures
        ring_started(config, first).after_all(steps).valid(config),
    decreases steps.len(),
{
    if steps.len() == 0 {
        lemma_started_ring_is_valid(config, first);
    } else {
        lemma_ring_stays_valid(config, first, steps.drop_last());
        lemma_step_keeps_ring_valid(
            ring_started(config, first).after_all(steps.drop_last()),
            config,
            steps.last(),
        );
    }
}

/// What a node admitted in an epoch, its predecessor in the epoch before, and so on once
/// round the ring, stays within the limit, whatever the node and the epoch.
pub proof fn lemma_once_round_is_within_limit(
    ring: RingView,
    config: OrbitConfig,
    at: int,
    round: int,
    count: int,
    id: Uuid,
)
    requires
        ring.valid(config),
        0 <= at < ring.size(),
        0 <= count <= ring.size(),
    ensures
        ring.admitted_backwards(at, round, count, id) <= config.orbit_limit,
    decreases round,
{
    let node = ring.nodes[at];
    let turns = ring.past[at].len() as int;
    let f = |back: int| ring.admitted(at - back, round - back, id);
    assert(node.config == config && ring.node_valid(at));
    vstd::arithmetic::div_mod::lemma_small_mod(at as nat, ring.size() as nat);
    if round < 0 {
        crate::sum::lemma_sum_zero_end(f, 0, count);
    } else if round < turns || (round == turns && !node.receiving) {
        assert(ring.bounded(at, round));
        assert(ring.admitted_backwards(at, round, ring.size(), id) <= config.orbit_limit);
        crate::sum::lemma_sum_grows(f, count, ring.size());
    } else if count > 0 {
        lemma_backwards_front(ring, at, round, count, id);
        lemma_once_round_is_within_limit(
            ring,
            config,
            ring.before(at),
            round - 1,
            count - 1,
            id,
        );
    }
}

proof fn lemma_window_by_diagonals(ring: RingView, last: int, id: Uuid)
    requires
        0 < ring.size(),
    ensures
        ring.admitted_in_window(last, id) == sum_of(
            |at: int| ring.admitted_backwards(at, last, ring.size(), id),
            ring.size(),
        ),
{
    let size = ring.size();
    let cell = |back: int, at: int| ring.admitted(at - back, last - back, id);
    let rows = |back: int| ring.admitted_by_all(last - back, id);
    let shifted_rows = |back: int| sum_of(|at: int| cell(back, at), size);
    assert forall|back: int|
        #![trigger ring.admitted_by_all(last - back, id)]
        0 <= back < size implies ring.admitted_by_all(last - back, id) == sum_of(
        |at: int| cell(back, at),
        size,
    ) by {
        let row = |at: int| ring.admitted(at, last - back, id);
        crate::sum::lemma_sum_turn(row, size, back);
        assert forall|at: int|
            #![trigger ring.admitted(at - back, last - back, id)]
            0 <= at < size implies row((at - back) % size) == ring.admitted(
            at - back,
            last - back,
            id,
        ) by {
            vstd::arithmetic::div_mod::lemma_mod_twice(at - back, size);
        }
        crate::sum::lemma_sum_agree(
            |at: int| row((at - back) % size),
            |at: int| cell(back, at),
            size,
        );
    }
    crate::sum::lemma_sum_agree(rows, shifted_rows, size);
    crate::sum::lemma_sum_swap(cell, size, size);
    let by_columns = |at: int| sum_of(|back: int| cell(back, at), size);
    let diagonals = |at: int| ring.admitted_backwards(at, last, size, id);
    assert forall|at: int|
        #![trigger ring.admitted_backwards(at, last, size, id)]
        0 <= at < size implies sum_of(|back: int| cell(back, at), size) == ring.admitted_backwards(
        at,
        last,
        size,
        id,
    ) by {
        crate::sum::lemma_sum_agree(
            |back: int| cell(back, at),
            |back: int| ring.admitted(at - back, last - back, id),
            size,
        );
    }
    crate::sum::lemma_sum_agree(by_columns, diagonals, size);
}

/// The global cap is strict: at no point while the protocol operates correctly have all
/// nodes together admitted more for an identifier than `orbit_limit * node_count` within
/// any `node_count` successive epochs, whatever requests come, whatever the nodes reserve
/// and in whatever order they act.
pub proof fn lemma_global_cap_is_strict(
    config: OrbitConfig,
    first: u64,
    steps: Seq<RingStep>,
    last: int,
    id: Uuid,
)
    requires
        ring_config(config),
        ring_started(config, first).allows_all(steps),
    ensures
        ring_started(config, first).after_all(steps).admitted_in_window(last, id)
            <= config.orbit_limit * config.node_count,
{
    let ring = ring_started(config, first).after_all(steps);
    lemma_ring_stays_valid(config, first, steps);
    lemma_window_by_diagonals(ring, last, id);
    let f = |at: int| ring.admitted_backwards(at, last, ring.size(), id);
    assert forall|at: int|
        #![trigger ring.admitted_backwards(at, last, ring.size(), id)]
        0 <= at < ring.size() implies ring.admitted_backwards(at, last, ring.size(), id)
        <= config.orbit_limit by {
        lemma_once_round_is_within_limit(ring, config, at, last, ring.size(), id);
    }
    crate::sum::lemma_sum_bound(f, ring.size(), config.orbit_limit as nat);
    assert(config.orbit_limit * config.node_count == config.node_count * config.orbit_limit)
        by (nonlinear_arith);
}

/// While the protocol operates correctly, a node that does not wait can always turn, and
/// what it sees of the nodes before and what it admitted stay within the limit, so that
/// no sum that it forms of them overflows.
pub proof fn lemma_ring_never_overflows(ring: RingView, config: OrbitConfig, at: int, id: Uuid)
    requires
        ring.valid(config),
        0 <= at < ring.size(),
        !ring.nodes[at].receiving,
    ensures
        ring.nodes[at].can_turn(),
        ring.nodes[at].total(id) <= config.orbit_limit,
        amount_in(ring.nodes[at].usage, id) <= config.orbit_limit,
        ring.nodes[at].remaining(id) == config.orbit_limit - ring.nodes[at].total(id),
{
    let turns = ring.past[at].len() as int;
    assert(ring.nodes[at].config == config && ring.node_valid(at));
    lemma_node_sees_the_nodes_before(ring, config, at, id);
    vstd::arithmetic::div_mod::lemma_small_mod(at as nat, ring.size() as nat);
    if turns > 0 {
        lemma_backwards_front(ring, at, turns, ring.held(turns) + 1, id);
        lemma_once_round_is_within_limit(
            ring,
            config,
            ring.before(at),
            turns - 1,
            ring.held(turns),
            id,
        );
    }
    lemma_backwards_front(ring, at, turns, 1, id);
    lemma_once_round_is_within_limit(ring, config, at, turns, 1, id);
}

/// How often the epoch of the node at a place has turned in some steps.
pub open spec fn turns_in(steps: Seq<RingStep>, at: int) -> nat
    decreases steps.len(),
{
    if steps.len() == 0 {
        0
    } else {
        turns_in(steps.drop_last(), at) + (match steps.last() {
            RingStep::Turn { at: here } => if here == at {
                1nat
            } else {
                0
            },
            _ => 0,
        })
    }
}

/// The sum of the amounts that the node at a place has given leave for, to requests of an
/// identifier in the epoch `round` epochs after the first. It is kept from the answers
/// alone, without a look at the nodes.
pub open spec fn granted(steps: Seq<RingStep>, at: int, round: int, id: Uuid) -> nat
    decreases steps.len(),
{
    if steps.len() == 0 {
        0
    } else {
        granted(steps.drop_last(), at, round, id) + (match steps.last() {
            RingStep::Admit { at: here, id: asker, amount, reserved } => if here == at && asker
                == id && turns_in(steps.drop_last(), at) == round {
                amount as nat
            } else {
                0
            },
            _ => 0,
        })
    }
}

/// What the nodes have counted is what they have given leave for: no step but an admission
/// adds to it, and none takes from it.
pub proof fn lemma_counted_is_granted(
    config: OrbitConfig,
    first: u64,
    steps: Seq<RingStep>,
    at: int,
    round: int,
    id: Uuid,
)
    requires
        ring_config(config),
        ring_started(config, first).allows_all(steps),
        0 <= at < config.node_count,
    ensures
        ring_started(config, first).after_all(steps).past[at].len() == turns_in(steps, at),
        ring_started(config, first).after_all(steps).admitted(at, round, id) == granted(
            steps,
            at,
            round,
            id,
        ),
    decreases steps.len(),
{
    let ring = ring_started(config, first).after_all(steps);
    lemma_ring_stays_valid(config, first, steps);
    vstd::arithmetic::div_mod::lemma_small_mod(at as nat, ring.size() as nat);
    if steps.len() > 0 {
        let shorter = steps.drop_last();
        let before = ring_started(config, first).after_all(shorter);
        lemma_ring_stays_valid(config, first, shorter);
        lemma_counted_is_granted(config, first, shorter, at, round, id);
        match steps.last() {
            RingStep::Admit { at: here, id: asker, amount, reserved } => {
                crate::node::lemma_admission_counts(
                    before.nodes[here],
                    asker,
                    amount,
                    reserved,
                    id,
                );
            },
            RingStep::Turn { at: here } => {
                crate::node::lemma_turn_starts_anew(before.nodes[here]);
                assert(amount_in(before.nodes[here].turned().usage, id) == 0);
            },
            RingStep::Pull { at: here, now_ms } => {
                assert(0 <= before.before(here) < before.size());
            },
        }
    }
}

/// The strict cap over the answers: at no point while the protocol operates correctly have
/// all nodes together given leave for more of an identifier than `orbit_limit *
/// node_count` within any `node_count` successive epochs.
pub proof fn lemma_granted_stays_within_cap(
    config: OrbitConfig,
    first: u64,
    steps: Seq<RingStep>,
    last: int,
    id: Uuid,
)
    requires
        ring_config(config),
        ring_started(config, first).allows_all(steps),
    ensures
        sum_of(
            |back: int|
                sum_of(
                    |at: int| granted(steps, at, last - back, id),
                    config.node_count as int,
                ),
            config.node_count as int,
        ) <= config.orbit_limit * config.node_count,
{
    let ring = ring_started(config, first).after_all(steps);
    let size = config.node_count as int;
    lemma_global_cap_is_strict(config, first, steps, last, id);
    lemma_ring_stays_valid(config, first, steps);
    let answers = |back: int| sum_of(|at: int| granted(steps, at, last - back, id), size);
    let counts = |back: int| ring.admitted_by_all(last - back, id);
    assert forall|back: int|
        #![trigger ring.admitted_by_all(last - back, id)]
        0 <= back < size implies sum_of(|at: int| granted(steps, at, last - back, id), size)
        == ring.admitted_by_all(last - back, id) by {
        let f = |at: int| granted(steps, at, last - back, id);
        let g = |at: int| ring.admitted(at, last - back, id);
        assert forall|at: int|
            #![trigger granted(steps, at, last - back, id)]
            0 <= at < size implies granted(steps, at, last - back, id) == ring.admitted(
            at,
            last - back,
            id,
        ) by {
            lemma_counted_is_granted(config, first, steps, at, last - back, id);
        }
        crate::sum::lemma_sum_agree(f, g, size);
    }
    crate::sum::lemma_sum_agree(answers, counts, size);
}

/// The steps that a ring knows are those of its nodes: an admission is a request that its
/// node allows, for all requests that fit; a turn can come whenever the node does not
/// wait; and a pull can come whenever the node waits, the one before has the table of the
/// same epoch, and the next epoch has begun.
pub proof fn lemma_steps_are_those_of_the_nodes(
    ring: RingView,
    at: int,
    id: Uuid,
    amount: u64,
    reserved: u64,
    now_ms: u128,
)
    requires
        0 <= at < ring.nodes.len(),
    ensures
        ({
            let node = ring.nodes[at];
            let from = ring.nodes[if at == 0 {
                ring.nodes.len() - 1
            } else {
                at - 1
            }];
            let leave = RingStep::Admit { at, id, amount, reserved };
            &&& ring.allows(leave) <==> node.decision(id, amount, reserved) == Admission::Allowed
            &&& ring.allows(leave) ==> ring.after(leave).nodes[at] == node.asked(
                id,
                amount,
                reserved,
            )
            &&& ring.allows(RingStep::Turn { at }) <==> !node.receiving
            &&& ring.allows(RingStep::Pull { at, now_ms }) <==> {
                &&& node.receiving
                &&& from.data_epoch == node.current_epoch
                &&& from.send is Some
                &&& epoch_at(now_ms, node.config.epoch_duration_ms) == node.current_epoch + 1
            }
        }),
{
    let n = ring.nodes.len() as int;
    if at == 0 {
        vstd::arithmetic::div_mod::lemma_mod_add_multiples_vanish(-1, n);
        vstd::arithmetic::div_mod::lemma_small_mod((n - 1) as nat, n as nat);
    } else {
        vstd::arithmetic::div_mod::lemma_small_mod((at - 1) as nat, n as nat);
    }
}

/// A ring of any number of nodes for which tables can be made can be started, and its nodes
/// have then counted nothing and wait for nothing.
pub proof fn lemma_ring_can_be_started(config: OrbitConfig, first: u64, at: int)
    requires
        1 <= config.node_count,
        config.node_count * 32 <= isize::MAX,
        config.epoch_duration_ms > 0,
        0 <= at < config.node_count,
    ensures
        ring_config(config),
        ring_started(config, first).nodes.len() == config.node_count,
        ring_started(config, first).nodes[at] == NodeView::started(config, first),
        ring_started(config, first).allows_all(Seq::empty()),
        ring_started(config, first).after_all(Seq::empty()) == ring_started(config, first),
{
}

/// Steps go on from where they were: one more can follow if and only if the ring allows it
/// then.
pub proof fn lemma_steps_go_on(ring: RingView, steps: Seq<RingStep>, step: RingStep)
    ensures
        ring.allows_all(steps.push(step)) <==> ring.allows_all(steps) && ring.after_all(
            steps,
        ).allows(step),
        ring.after_all(steps.push(step)) == ring.after_all(steps).after(step),
{
    assert(steps.push(step).drop_last() =~= steps);
}

/// A step is one of one node: no other node is touched, but that a pull takes the outgoing
/// table of the node before.
pub proof fn lemma_step_touches_no_other_node(
    ring: RingView,
    at: int,
    other: int,
    id: Uuid,
    amount: u64,
    reserved: u64,
    now_ms: u128,
)
    requires
        0 <= at < ring.nodes.len(),
        0 <= other < ring.nodes.len(),
        other != at,
    ensures
        ring.after(RingStep::Admit { at, id, amount, reserved }).nodes[other] == ring.nodes[other],
        ring.after(RingStep::Turn { at }).nodes[other] == ring.nodes[other],
        ring.after(RingStep::Pull { at, now_ms }).nodes[other] == (if other == at - 1 || (at == 0
            && other == ring.nodes.len() - 1) {
            ring.nodes[other].pulled()
        } else {
            ring.nodes[other]
        }),
{
    let n = ring.nodes.len() as int;
    if at == 0 {
        vstd::arithmetic::div_mod::lemma_mod_add_multiples_vanish(-1, n);
        vstd::arithmetic::div_mod::lemma_small_mod((n - 1) as nat, n as nat);
    } else {
        vstd::arithmetic::div_mod::lemma_small_mod((at - 1) as nat, n as nat);
    }
}

} // verus!
