//! The epoch task of a node: what to do at each epoch boundary, step by step.
//!
//! The task does no waiting and no networking. It says what is to be done next, and is
//! told what came of it.
//!
//! The ring is virtual: where the node before cannot be pulled from, the node before that
//! one is tried, and so on backwards. Only if none can be, the node goes by its own
//! allowance.

use crate::node::{epoch_at, NodeView, Orbit};
use crate::usage::EpochUsageTable;
use vstd::prelude::*;

verus! {

/// How long a node lets the nodes before prepare their tables after a boundary.
pub const SETTLE_MS: u64 = 50;

/// What the epoch task waits for. `back` says how many places back in the ring the node
/// is that is tried, the predecessor being at 1.
#[derive(Debug, Clone, Copy, PartialEq, Eq, Structural)]
pub enum EpochPhase {
    /// The next epoch boundary, or a shutdown.
    Waiting,
    /// The end of the delay after the boundary.
    Settling,
    /// A connection to a node before.
    Connecting { back: u64 },
    /// The table of a node before.
    Pulling { back: u64 },
    /// The time at which the new epoch starts.
    ReadingClock,
    /// Nothing any more.
    Stopped,
}

/// What came of an action.
#[derive(Debug)]
pub enum EpochEvent {
    BoundaryReached,
    ShutdownRequested,
    Settled,
    Connected,
    ConnectFailed,
    TablePulled(EpochUsageTable),
    PullFailed,
    /// The time in milliseconds since the Unix epoch.
    ClockRead(u128),
}

/// What is to be done next.
#[derive(Debug, Clone, Copy, PartialEq, Eq, Structural)]
pub enum EpochAction {
    /// Sleep until the next epoch boundary, or until a shutdown is requested.
    AwaitBoundary,
    /// Sleep for some milliseconds.
    Settle { ms: u64 },
    /// Connect to the node that is some places back.
    Connect { back: u64, timeout_ms: u64 },
    /// Request the table of an epoch over the connection.
    Pull { epoch: u64 },
    /// Read the system time.
    ReadClock,
    /// End the task.
    Stop,
}

/// What is to be done next, and whether to close the connection before.
#[derive(Debug, Clone, Copy, PartialEq, Eq, Structural)]
pub struct EpochOrder {
    pub close: bool,
    pub action: EpochAction,
}

/// The state of the epoch task.
#[derive(Debug, Clone, Copy, PartialEq, Eq, Structural)]
pub struct EpochTask {
    pub phase: EpochPhase,
    /// Whether there is a connection: to the predecessor or, while its table is pulled, to
    /// the node that is tried.
    pub connected: bool,
}

/// An action without closing the connection.
pub open spec fn just(action: EpochAction) -> EpochOrder {
    EpochOrder { close: false, action }
}

impl EpochTask {
    /// A task that has just started.
    pub open spec fn started() -> EpochTask {
        EpochTask { phase: EpochPhase::Waiting, connected: false }
    }

    /// How many places back the node is that is tried.
    pub open spec fn back(self) -> u64 {
        match self.phase {
            EpochPhase::Connecting { back } => back,
            EpochPhase::Pulling { back } => back,
            _ => 1,
        }
    }

    /// Whether there is another node to try behind the one that is tried.
    pub open spec fn has_another(self, node_count: u64) -> bool {
        self.back() + 1 < node_count
    }

    /// Whether an event can come in this phase.
    pub open spec fn expects(self, event: EpochEvent) -> bool {
        match event {
            EpochEvent::BoundaryReached => self.phase is Waiting,
            EpochEvent::ShutdownRequested => self.phase is Waiting,
            EpochEvent::Settled => self.phase is Settling,
            EpochEvent::Connected => self.phase is Connecting,
            EpochEvent::ConnectFailed => self.phase is Connecting,
            EpochEvent::TablePulled(_) => self.phase is Pulling,
            EpochEvent::PullFailed => self.phase is Pulling,
            EpochEvent::ClockRead(_) => self.phase is ReadingClock,
        }
    }

    /// The task after the node that was tried gave no table: the next one back is tried,
    /// if there is one.
    pub open spec fn after_failure(self, node_count: u64) -> EpochTask {
        EpochTask {
            phase: if self.has_another(node_count) {
                EpochPhase::Connecting { back: (self.back() + 1) as u64 }
            } else {
                EpochPhase::ReadingClock
            },
            connected: false,
        }
    }

    /// The task after an event, in a ring of so many nodes.
    pub open spec fn next(self, node_count: u64, event: EpochEvent) -> EpochTask {
        match event {
            EpochEvent::BoundaryReached => EpochTask { phase: EpochPhase::Settling, ..self },
            EpochEvent::ShutdownRequested => EpochTask {
                phase: EpochPhase::Stopped,
                connected: false,
            },
            EpochEvent::Settled => EpochTask {
                phase: if self.connected {
                    EpochPhase::Pulling { back: 1 }
                } else {
                    EpochPhase::Connecting { back: 1 }
                },
                ..self
            },
            EpochEvent::Connected => EpochTask {
                phase: EpochPhase::Pulling { back: self.back() },
                connected: true,
            },
            EpochEvent::ConnectFailed => self.after_failure(node_count),
            EpochEvent::TablePulled(_) => EpochTask {
                phase: EpochPhase::ReadingClock,
                connected: self.connected && self.back() == 1,
            },
            EpochEvent::PullFailed => self.after_failure(node_count),
            EpochEvent::ClockRead(_) => EpochTask { phase: EpochPhase::Waiting, ..self },
        }
    }

    /// What an event makes of the node. Where no node before gives a table, requests are
    /// let in without one.
    pub open spec fn node_after(self, node: NodeView, event: EpochEvent) -> NodeView {
        match event {
            EpochEvent::BoundaryReached => node.turned(),
            EpochEvent::TablePulled(table) => node.supplied(table@),
            EpochEvent::ConnectFailed | EpochEvent::PullFailed => if self.has_another(
                node.config.node_count,
            ) {
                node
            } else {
                node.released()
            },
            EpochEvent::ClockRead(now_ms) => node.in_epoch(
                epoch_at(now_ms, node.config.epoch_duration_ms) as u64,
            ),
            _ => node,
        }
    }

    /// The action that tries the node some places back.
    pub open spec fn connect(node: NodeView, back: u64) -> EpochAction {
        EpochAction::Connect { back, timeout_ms: node.config.epoch_duration_ms / 5 }
    }

    /// What is to be done after the node that was tried gave no table.
    pub open spec fn action_after_failure(self, node: NodeView) -> EpochAction {
        if self.has_another(node.config.node_count) {
            Self::connect(node, (self.back() + 1) as u64)
        } else {
            EpochAction::ReadClock
        }
    }

    /// What is to be done after an event.
    pub open spec fn order_after(self, node: NodeView, event: EpochEvent) -> EpochOrder {
        let pull = EpochAction::Pull { epoch: node.current_epoch };
        match event {
            EpochEvent::BoundaryReached => just(EpochAction::Settle { ms: SETTLE_MS }),
            EpochEvent::ShutdownRequested => EpochOrder {
                close: self.connected,
                action: EpochAction::Stop,
            },
            EpochEvent::Settled => just(
                if self.connected {
                    pull
                } else {
                    Self::connect(node, 1)
                },
            ),
            EpochEvent::Connected => just(pull),
            EpochEvent::ConnectFailed => just(self.action_after_failure(node)),
            EpochEvent::TablePulled(_) => EpochOrder {
                close: self.back() != 1,
                action: EpochAction::ReadClock,
            },
            EpochEvent::PullFailed => EpochOrder {
                close: true,
                action: self.action_after_failure(node),
            },
            EpochEvent::ClockRead(_) => just(EpochAction::AwaitBoundary),
        }
    }

    /// Starts the task of a node at a time: its epoch is taken from the clock, and the
    /// first thing to do is to wait for a boundary.
    pub fn start(node: &mut Orbit, now_ms: u128) -> (begun: (Self, EpochOrder))
        requires
            old(node)@.config.epoch_duration_ms > 0,
        ensures
            begun.0 == Self::started(),
            begun.1 == just(EpochAction::AwaitBoundary),
            begun.0.phase == EpochPhase::Waiting && !begun.0.connected,
            begun.1.action == EpochAction::AwaitBoundary && !begun.1.close,
            final(node)@ == (NodeView { current_epoch: final(node)@.current_epoch, ..old(node)@ }),
            final(node)@ == old(node)@.in_epoch(
                epoch_at(now_ms, old(node)@.config.epoch_duration_ms) as u64,
            ),
    {
        node.start_epoch(now_ms);
        (
            EpochTask { phase: EpochPhase::Waiting, connected: false },
            EpochOrder { close: false, action: EpochAction::AwaitBoundary },
        )
    }

    /// Goes on after the node that was tried gave no table.
    fn fail(&mut self, node: &mut Orbit) -> (action: EpochAction)
        ensures
            *final(self) == old(self).after_failure(old(node)@.config.node_count),
            final(node)@ == old(self).node_after(old(node)@, EpochEvent::PullFailed),
            action == old(self).action_after_failure(old(node)@),
    {
        let config = node.config();
        let back: u64 = match self.phase {
            EpochPhase::Connecting { back } => back,
            EpochPhase::Pulling { back } => back,
            _ => 1,
        };
        self.connected = false;
        if config.node_count >= 1 && back < config.node_count - 1 {
            self.phase = EpochPhase::Connecting { back: back + 1 };
            EpochAction::Connect { back: back + 1, timeout_ms: config.epoch_duration_ms / 5 }
        } else {
            node.release();
            self.phase = EpochPhase::ReadingClock;
            EpochAction::ReadClock
        }
    }

    /// Takes in an event, does to the node what it calls for, and says what is to be done
    /// next.
    pub fn step(&mut self, node: &mut Orbit, event: EpochEvent) -> (order: EpochOrder)
        requires
            old(self).expects(event),
            event is BoundaryReached ==> old(node)@.can_turn(),
            old(node)@.config.epoch_duration_ms > 0,
        ensures
            *final(self) == old(self).next(old(node)@.config.node_count, event),
            final(node)@ == old(self).node_after(old(node)@, event),
            order == old(self).order_after(old(node)@, event),
            event is BoundaryReached ==> crate::usage::lists(
                old(node)@.own_record().usages,
                old(node)@.usage,
            ),
            match final(self).phase {
                EpochPhase::Waiting => order.action == EpochAction::AwaitBoundary,
                EpochPhase::Settling => order.action == (EpochAction::Settle { ms: 50 }),
                EpochPhase::Connecting { back } => order.action == (EpochAction::Connect {
                    back,
                    timeout_ms: old(node)@.config.epoch_duration_ms / 5,
                }),
                EpochPhase::Pulling { back } => order.action == (EpochAction::Pull {
                    epoch: old(node)@.current_epoch,
                }),
                EpochPhase::ReadingClock => order.action == EpochAction::ReadClock,
                EpochPhase::Stopped => order.action == EpochAction::Stop,
            },
            final(self).phase is Stopped <==> event is ShutdownRequested,
            event is BoundaryReached ==> forall|id: crate::usage::Uuid| #[trigger]
                crate::usage::amount_in(final(node)@.usage, id) == 0,
            event !is BoundaryReached ==> final(node)@.usage == old(node)@.usage
                && final(node)@.send == old(node)@.send,
            final(node)@.config == old(node)@.config,
    {
        proof {
            lemma_action_is_what_is_waited_for(*self, node@, event);
            lemma_events_change_their_part(*self, node@, event);
            crate::node::lemma_turn_starts_anew(node@);
        }
        match event {
            EpochEvent::BoundaryReached => {
                node.turn_epoch();
                self.phase = EpochPhase::Settling;
                EpochOrder { close: false, action: EpochAction::Settle { ms: SETTLE_MS } }
            },
            EpochEvent::ShutdownRequested => {
                let close = self.connected;
                self.phase = EpochPhase::Stopped;
                self.connected = false;
                EpochOrder { close, action: EpochAction::Stop }
            },
            EpochEvent::Settled => {
                if self.connected {
                    self.phase = EpochPhase::Pulling { back: 1 };
                    let epoch: u64 = node.current_epoch();
                    EpochOrder { close: false, action: EpochAction::Pull { epoch } }
                } else {
                    self.phase = EpochPhase::Connecting { back: 1 };
                    let timeout_ms: u64 = node.config().epoch_duration_ms / 5;
                    EpochOrder {
                        close: false,
                        action: EpochAction::Connect { back: 1, timeout_ms },
                    }
                }
            },
            EpochEvent::Connected => {
                if let EpochPhase::Connecting { back } = self.phase {
                    self.phase = EpochPhase::Pulling { back };
                }
                self.connected = true;
                let epoch: u64 = node.current_epoch();
                EpochOrder { close: false, action: EpochAction::Pull { epoch } }
            },
            EpochEvent::ConnectFailed => {
                let action = self.fail(node);
                EpochOrder { close: false, action }
            },
            EpochEvent::TablePulled(table) => {
                node.receive_table(table);
                let close = self.phase != (EpochPhase::Pulling { back: 1 });
                self.phase = EpochPhase::ReadingClock;
                self.connected = self.connected && !close;
                EpochOrder { close, action: EpochAction::ReadClock }
            },
            EpochEvent::PullFailed => {
                let action = self.fail(node);
                EpochOrder { close: true, action }
            },
            EpochEvent::ClockRead(now_ms) => {
                node.start_epoch(now_ms);
                self.phase = EpochPhase::Waiting;
                EpochOrder { close: false, action: EpochAction::AwaitBoundary }
            },
        }
    }

    /// The task after events.
    pub open spec fn next_all(self, node_count: u64, events: Seq<EpochEvent>) -> EpochTask
        decreases events.len(),
    {
        if events.len() == 0 {
            self
        } else {
            self.next_all(node_count, events.drop_last()).next(node_count, events.last())
        }
    }

    /// Whether events can come one after the other.
    pub open spec fn expects_all(self, node_count: u64, events: Seq<EpochEvent>) -> bool
        decreases events.len(),
    {
        events.len() > 0 ==> {
            &&& self.expects_all(node_count, events.drop_last())
            &&& self.next_all(node_count, events.drop_last()).expects(events.last())
        }
    }

    /// What events make of the node.
    pub open spec fn node_after_all(self, node: NodeView, events: Seq<EpochEvent>) -> NodeView
        decreases events.len(),
    {
        if events.len() == 0 {
            node
        } else {
            self.next_all(node.config.node_count, events.drop_last()).node_after(
                self.node_after_all(node, events.drop_last()),
                events.last(),
            )
        }
    }
}

/// Whether the outgoing table, if there is one, is of the epoch that the node says it is
/// of, and has that epoch in front.
pub open spec fn outgoing_is_current(node: NodeView) -> bool {
    node.send matches Some(table) ==> {
        &&& table.recent_epoch == node.data_epoch
        &&& table.tables.len() >= 1
        &&& table.tables[0].epoch == node.data_epoch
    }
}

/// Whether a task and its node are in step: requests wait from a boundary until a table of
/// the nodes before is there or none can be had, and meanwhile the table for the successor
/// is of the epoch that has just ended.
pub open spec fn in_step(task: EpochTask, node: NodeView) -> bool {
    &&& outgoing_is_current(node)
    &&& node.receiving ==> node.received is None && !node.isolated
    &&& node.isolated ==> node.received is None
    &&& match task.phase {
        EpochPhase::Waiting => !node.receiving,
        EpochPhase::Settling => node.receiving && node.data_epoch == node.current_epoch,
        EpochPhase::Connecting { back } => {
            &&& node.receiving
            &&& node.data_epoch == node.current_epoch
            &&& !task.connected
            &&& back == 1 || 1 < back < node.config.node_count
        },
        EpochPhase::Pulling { back } => {
            &&& node.receiving
            &&& node.data_epoch == node.current_epoch
            &&& task.connected
            &&& back == 1 || 1 < back < node.config.node_count
        },
        EpochPhase::ReadingClock => !node.receiving,
        EpochPhase::Stopped => !node.receiving && !task.connected,
    }
}

/// A task and a node that have just started are in step.
pub proof fn lemma_start_is_in_step(config: crate::node::OrbitConfig, epoch: u64)
    ensures
        in_step(EpochTask::started(), NodeView::started(config, epoch)),
{
}

/// A task and its node stay in step, whatever event comes.
pub proof fn lemma_event_keeps_in_step(task: EpochTask, node: NodeView, event: EpochEvent)
    requires
        in_step(task, node),
        task.expects(event),
    ensures
        in_step(task.next(node.config.node_count, event), task.node_after(node, event)),
{
}

/// Neither a request nor a pull by the successor brings a task and its node out of step.
pub proof fn lemma_traffic_keeps_in_step(
    task: EpochTask,
    node: NodeView,
    id: crate::usage::Uuid,
    amount: u64,
)
    requires
        in_step(task, node),
    ensures
        in_step(task, node.admitted(id, amount)),
        in_step(task, node.pulled()),
{
}

/// A node before is asked for the table of the epoch that this node has just ended.
pub proof fn lemma_pull_is_for_the_ended_epoch(task: EpochTask, node: NodeView, event: EpochEvent)
    requires
        in_step(task, node),
        task.expects(event),
    ensures
        task.order_after(node, event).action matches EpochAction::Pull { epoch } ==> epoch
            == task.node_after(node, event).data_epoch && task.next(
            node.config.node_count,
            event,
        ).phase is Pulling,
{
}

/// The connection is closed exactly where it was there and is given up.
pub proof fn lemma_connection_is_closed_when_given_up(
    task: EpochTask,
    node: NodeView,
    event: EpochEvent,
)
    requires
        in_step(task, node),
        task.expects(event),
    ensures
        task.order_after(node, event).close <==> task.connected && !task.next(
            node.config.node_count,
            event,
        ).connected,
{
}

/// A shutdown ends every wait for a boundary at once, the very first included, and
/// nothing happens to the node.
pub proof fn lemma_shutdown_ends_the_wait(task: EpochTask, node: NodeView)
    requires
        task.phase is Waiting,
    ensures
        task.expects(EpochEvent::ShutdownRequested),
        task.order_after(node, EpochEvent::ShutdownRequested).action == EpochAction::Stop,
        task.next(node.config.node_count, EpochEvent::ShutdownRequested).phase is Stopped,
        task.node_after(node, EpochEvent::ShutdownRequested) == node,
        EpochTask::started().phase is Waiting,
{
}

/// Where a node before gives no table, be it that it cannot be reached or that the pull
/// fails, the node one place further back is tried and requests wait on; where there is
/// none further back, requests are let in without a table.
pub proof fn lemma_failure_goes_further_back(task: EpochTask, node: NodeView, event: EpochEvent)
    requires
        in_step(task, node),
        task.expects(event),
        event is ConnectFailed || event is PullFailed,
    ensures
        task.back() + 1 < node.config.node_count ==> {
            &&& task.order_after(node, event).action == (EpochAction::Connect {
                back: (task.back() + 1) as u64,
                timeout_ms: node.config.epoch_duration_ms / 5,
            })
            &&& task.next(node.config.node_count, event).back() == task.back() + 1
            &&& task.node_after(node, event) == node
        },
        task.back() + 1 >= node.config.node_count ==> {
            &&& task.order_after(node, event).action == EpochAction::ReadClock
            &&& task.node_after(node, event) == node.released()
        },
{
}

/// The events of an epoch up to where nodes before gave no table, one after the other;
/// each of them either could be connected to or not.
pub open spec fn epoch_failures(task: EpochTask, connects: Seq<bool>) -> Seq<EpochEvent>
    decreases connects.len(),
{
    if connects.len() == 0 {
        Seq::empty().push(EpochEvent::BoundaryReached).push(EpochEvent::Settled)
    } else {
        let before = epoch_failures(task, connects.drop_last());
        if connects.len() == 1 && task.connected {
            before.push(EpochEvent::PullFailed)
        } else if connects.last() {
            before.push(EpochEvent::Connected).push(EpochEvent::PullFailed)
        } else {
            before.push(EpochEvent::ConnectFailed)
        }
    }
}

/// The events of an epoch in which some nodes before gave no table, and the next one did.
pub open spec fn epoch_with_table(
    task: EpochTask,
    connects: Seq<bool>,
    table: EpochUsageTable,
    now_ms: u128,
) -> Seq<EpochEvent> {
    let before = epoch_failures(task, connects);
    let reached = if connects.len() == 0 && task.connected {
        before
    } else {
        before.push(EpochEvent::Connected)
    };
    reached.push(EpochEvent::TablePulled(table)).push(EpochEvent::ClockRead(now_ms))
}

/// How many nodes before are tried at most: every other node of the ring, or the node
/// itself where it is alone.
pub open spec fn nodes_to_try(node_count: u64) -> nat {
    if node_count <= 2 {
        1
    } else {
        (node_count - 1) as nat
    }
}

proof fn lemma_one_more(task: EpochTask, node: NodeView, events: Seq<EpochEvent>, event: EpochEvent)
    ensures
        ({
            let count = node.config.node_count;
            let so_far = task.next_all(count, events);
            &&& task.next_all(count, events.push(event)) == so_far.next(count, event)
            &&& task.expects_all(count, events.push(event)) == (task.expects_all(count, events)
                && so_far.expects(event))
            &&& task.node_after_all(node, events.push(event)) == so_far.node_after(
                task.node_after_all(node, events),
                event,
            )
        }),
{
    assert(events.push(event).drop_last() =~= events);
}

proof fn lemma_epoch_failures(task: EpochTask, node: NodeView, connects: Seq<bool>)
    requires
        task.phase is Waiting,
        connects.len() <= nodes_to_try(node.config.node_count),
    ensures
        ({
            let count = node.config.node_count;
            let events = epoch_failures(task, connects);
            let tried = connects.len();
            &&& task.expects_all(count, events)
            &&& tried == 0 ==> task.next_all(count, events) == (EpochTask {
                phase: if task.connected {
                    EpochPhase::Pulling { back: 1 }
                } else {
                    EpochPhase::Connecting { back: 1 }
                },
                ..task
            })
            &&& 0 < tried < nodes_to_try(count) ==> task.next_all(count, events) == (EpochTask {
                phase: EpochPhase::Connecting { back: (tried + 1) as u64 },
                connected: false,
            })
            &&& tried < nodes_to_try(count) ==> task.node_after_all(node, events) == node.turned()
            &&& tried == nodes_to_try(count) ==> task.next_all(count, events) == (EpochTask {
                phase: EpochPhase::ReadingClock,
                connected: false,
            }) && task.node_after_all(node, events) == node.turned().released()
        }),
    decreases connects.len(),
{
    if connects.len() == 0 {
        let e0 = Seq::<EpochEvent>::empty();
        lemma_one_more(task, node, e0, EpochEvent::BoundaryReached);
        lemma_one_more(task, node, e0.push(EpochEvent::BoundaryReached), EpochEvent::Settled);
    } else {
        lemma_epoch_failures(task, node, connects.drop_last());
        let before = epoch_failures(task, connects.drop_last());
        lemma_one_more(task, node, before, EpochEvent::PullFailed);
        lemma_one_more(task, node, before, EpochEvent::ConnectFailed);
        lemma_one_more(task, node, before, EpochEvent::Connected);
        lemma_one_more(task, node, before.push(EpochEvent::Connected), EpochEvent::PullFailed);
    }
}

/// An epoch in which a node before gives its table, after the nodes between gave none,
/// leaves the node with its own usage handed on, nothing counted, that table to admit by,
/// requests let in, and the new epoch taken from the clock. A connection to the
/// predecessor stays.
pub proof fn lemma_epoch_with_table(
    task: EpochTask,
    node: NodeView,
    connects: Seq<bool>,
    table: EpochUsageTable,
    now_ms: u128,
)
    requires
        task.phase is Waiting,
        connects.len() < nodes_to_try(node.config.node_count),
    ensures
        ({
            let count = node.config.node_count;
            let events = epoch_with_table(task, connects, table, now_ms);
            &&& task.expects_all(count, events)
            &&& task.next_all(count, events) == (EpochTask {
                phase: EpochPhase::Waiting,
                connected: connects.len() == 0,
            })
            &&& task.node_after_all(node, events) == node.turned().supplied(table@).in_epoch(
                epoch_at(now_ms, node.config.epoch_duration_ms) as u64,
            )
        }),
{
    lemma_epoch_failures(task, node, connects);
    let before = epoch_failures(task, connects);
    let reached = if connects.len() == 0 && task.connected {
        before
    } else {
        before.push(EpochEvent::Connected)
    };
    lemma_one_more(task, node, before, EpochEvent::Connected);
    lemma_one_more(task, node, reached, EpochEvent::TablePulled(table));
    lemma_one_more(
        task,
        node,
        reached.push(EpochEvent::TablePulled(table)),
        EpochEvent::ClockRead(now_ms),
    );
}

/// An epoch in which no node before gives a table leaves the node to its own allowance:
/// requests are let in, against the whole limit, and nothing will be handed on at the
/// next boundary.
pub proof fn lemma_epoch_without_table(
    task: EpochTask,
    node: NodeView,
    connects: Seq<bool>,
    now_ms: u128,
    id: crate::usage::Uuid,
)
    requires
        task.phase is Waiting,
        connects.len() == nodes_to_try(node.config.node_count),
    ensures
        ({
            let count = node.config.node_count;
            let events = epoch_failures(task, connects).push(EpochEvent::ClockRead(now_ms));
            let after = task.node_after_all(node, events);
            &&& task.expects_all(count, events)
            &&& task.next_all(count, events) == (EpochTask {
                phase: EpochPhase::Waiting,
                connected: false,
            })
            &&& after == node.turned().released().in_epoch(
                epoch_at(now_ms, node.config.epoch_duration_ms) as u64,
            )
            &&& !after.receiving
            &&& after.remaining(id) == node.config.orbit_limit
            &&& after.turned().send is None
        }),
{
    lemma_epoch_failures(task, node, connects);
    lemma_one_more(task, node, epoch_failures(task, connects), EpochEvent::ClockRead(now_ms));
}

/// The action that is ordered is the one whose outcome the task waits for next, whatever
/// the event and whether or not there is a connection; the task ends on a shutdown and on
/// nothing else.
pub proof fn lemma_action_is_what_is_waited_for(
    task: EpochTask,
    node: NodeView,
    event: EpochEvent,
)
    requires
        task.expects(event),
    ensures
        ({
            let phase = task.next(node.config.node_count, event).phase;
            let action = task.order_after(node, event).action;
            &&& phase is Waiting <==> action is AwaitBoundary
            &&& phase is Settling <==> action is Settle
            &&& phase is Connecting <==> action is Connect
            &&& phase is Pulling <==> action is Pull
            &&& phase is ReadingClock <==> action is ReadClock
            &&& phase is Stopped <==> action is Stop
            &&& phase is Stopped <==> event is ShutdownRequested
            &&& action matches EpochAction::Settle { ms } ==> ms == 50
            &&& action matches EpochAction::Connect { back, timeout_ms } ==> phase == (
            EpochPhase::Connecting { back }) && timeout_ms == node.config.epoch_duration_ms / 5
            &&& action matches EpochAction::Pull { epoch } ==> epoch == node.current_epoch
        }),
{
}

/// Every phase takes the outcomes of what was ordered for it, each of them, and no others.
pub proof fn lemma_outcomes_are_expected(task: EpochTask, event: EpochEvent)
    ensures
        task.expects(event) <==> match task.phase {
            EpochPhase::Waiting => event is BoundaryReached || event is ShutdownRequested,
            EpochPhase::Settling => event is Settled,
            EpochPhase::Connecting { back } => event is Connected || event is ConnectFailed,
            EpochPhase::Pulling { back } => event is TablePulled || event is PullFailed,
            EpochPhase::ReadingClock => event is ClockRead,
            EpochPhase::Stopped => false,
        },
{
}

/// A cycle goes from one phase to the next without fail: a boundary is followed by the
/// delay, the delay by the predecessor, a connection by a pull from the node it is to, a
/// table by the clock, and the clock by the next wait. A connection to the predecessor
/// lasts through all of it.
pub proof fn lemma_phases_follow_each_other(
    task: EpochTask,
    node_count: u64,
    back: u64,
    table: EpochUsageTable,
    now_ms: u128,
)
    ensures
        task.next(node_count, EpochEvent::BoundaryReached) == (EpochTask {
            phase: EpochPhase::Settling,
            connected: task.connected,
        }),
        task.connected ==> task.next(node_count, EpochEvent::Settled) == (EpochTask {
            phase: EpochPhase::Pulling { back: 1 },
            connected: true,
        }),
        !task.connected ==> task.next(node_count, EpochEvent::Settled) == (EpochTask {
            phase: EpochPhase::Connecting { back: 1 },
            connected: false,
        }),
        task.phase == (EpochPhase::Connecting { back }) ==> task.next(
            node_count,
            EpochEvent::Connected,
        ) == (EpochTask { phase: EpochPhase::Pulling { back }, connected: true }),
        task.phase == (EpochPhase::Pulling { back }) ==> task.next(
            node_count,
            EpochEvent::TablePulled(table),
        ) == (EpochTask {
            phase: EpochPhase::ReadingClock,
            connected: task.connected && back == 1,
        }),
        task.next(node_count, EpochEvent::ClockRead(now_ms)) == (EpochTask {
            phase: EpochPhase::Waiting,
            connected: task.connected,
        }),
        task.next(node_count, EpochEvent::ShutdownRequested) == (EpochTask {
            phase: EpochPhase::Stopped,
            connected: false,
        }),
{
}

/// A node some places back that gives no table is followed by the one behind it as long
/// as that is not this node itself, and the connection to it is given up.
pub proof fn lemma_next_place_back_is_tried(
    task: EpochTask,
    node: NodeView,
    back: u64,
    event: EpochEvent,
)
    requires
        (task.phase == (EpochPhase::Connecting { back }) && event is ConnectFailed) || (task.phase
            == (EpochPhase::Pulling { back }) && event is PullFailed),
    ensures
        ({
            let after = task.next(node.config.node_count, event);
            let order = task.order_after(node, event);
            &&& !after.connected
            &&& order.close == event is PullFailed
            &&& back + 1 < node.config.node_count ==> {
                &&& after.phase == (EpochPhase::Connecting { back: (back + 1) as u64 })
                &&& order.action == (EpochAction::Connect {
                    back: (back + 1) as u64,
                    timeout_ms: node.config.epoch_duration_ms / 5,
                })
                &&& task.node_after(node, event) == node
            }
            &&& back + 1 >= node.config.node_count ==> {
                &&& after.phase == EpochPhase::ReadingClock
                &&& order.action == EpochAction::ReadClock
                &&& task.node_after(node, event) == (NodeView {
                    receiving: false,
                    isolated: true,
                    ..node
                })
            }
        }),
{
}

/// Every event changes its part of the node and leaves the rest: a boundary alone resets
/// the counts and replaces the outgoing table, a table alone is received, the clock alone
/// changes the epoch.
pub proof fn lemma_events_change_their_part(task: EpochTask, node: NodeView, event: EpochEvent)
    requires
        task.expects(event),
        node.config.epoch_duration_ms > 0,
    ensures
        ({
            let after = task.node_after(node, event);
            &&& after.config == node.config
            &&& event is BoundaryReached ==> after == node.turned()
            &&& event !is BoundaryReached ==> after.usage == node.usage && after.send == node.send
                && after.data_epoch == node.data_epoch
            &&& event matches EpochEvent::TablePulled(table) ==> after.received == Some(table@)
                && !after.receiving && after.isolated == node.isolated
            &&& event !is BoundaryReached && event !is TablePulled ==> after.received
                == node.received
            &&& event matches EpochEvent::ClockRead(now_ms) ==> after.current_epoch
                * node.config.epoch_duration_ms <= now_ms % 0x1_0000_0000_0000_0000 < (
            after.current_epoch + 1) * node.config.epoch_duration_ms
            &&& event !is ClockRead ==> after.current_epoch == node.current_epoch
            &&& event is ShutdownRequested || event is Settled || event is Connected
                || event is ClockRead ==> after.receiving == node.receiving && after.isolated
                == node.isolated
        }),
{
    if let EpochEvent::ClockRead(now_ms) = event {
        crate::node::lemma_epoch_contains_its_time(now_ms, node.config.epoch_duration_ms);
    }
}

/// What is tried is every other node of the ring, or the node itself where it is alone.
pub proof fn lemma_every_other_node_is_tried(node_count: u64)
    ensures
        node_count >= 2 ==> nodes_to_try(node_count) == node_count - 1,
        node_count < 2 ==> nodes_to_try(node_count) == 1,
{
}

} // verus!
