//! A load test of a ring: where its nodes listen, at what pace requests are made, and how
//! what was admitted compares to the limit over a sliding window.

use crate::sum::sum_of;
use std::collections::VecDeque;
use vstd::prelude::*;

verus! {

/// Where a node of a ring listens, and where the node before it does.
#[derive(Debug, Clone, Copy, PartialEq, Eq, Structural)]
pub struct RingPorts {
    pub port: u16,
    pub prev_port: u16,
}

/// The ports of a ring of nodes on one machine, which listen on successive ports.
pub fn ring_ports(base_port: u16, node_count: u64) -> (ports: Vec<RingPorts>)
    requires
        base_port + node_count <= 0x1_0000,
    ensures
        ports@.len() == node_count,
        forall|i: int|
            #![trigger ports@[i]]
            0 <= i < node_count ==> ports@[i].port == base_port + i && ports@[i].prev_port
                == base_port + (i - 1) % (node_count as int),
{
    let mut ports: Vec<RingPorts> = Vec::new();
    let mut i: u64 = 0;
    while i < node_count
        invariant
            i <= node_count,
            base_port + node_count <= 0x1_0000,
            ports@.len() == i,
            forall|j: int|
                #![trigger ports@[j]]
                0 <= j < i ==> ports@[j].port == base_port + j && ports@[j].prev_port == base_port
                    + (j - 1) % (node_count as int),
        decreases node_count - i,
    {
        let prev: u64 = (i + node_count - 1) % node_count;
        proof {
            let n = node_count as int;
            vstd::arithmetic::div_mod::lemma_mod_add_multiples_vanish(i - 1, n);
            assert(n + (i - 1) == i + n - 1);
            assert(0 <= (i + n - 1) % n < n) by (nonlinear_arith)
                requires
                    n > 0,
            ;
        }
        ports.push(RingPorts { port: base_port + i as u16, prev_port: base_port + prev as u16 });
        i = i + 1;
    }
    ports
}

/// The ports of the nodes before a node, the nearest first: of every other node of the
/// ring, or of the node itself where it is alone.
pub fn ports_before(base_port: u16, node_count: u64, at: u64) -> (ports: Vec<u16>)
    requires
        base_port + node_count <= 0x1_0000,
        at < node_count,
    ensures
        ports@.len() == crate::epoch::nodes_to_try(node_count),
        forall|i: int|
            #![trigger ports@[i]]
            0 <= i < ports@.len() ==> ports@[i] == base_port + (at - 1 - i) % (node_count as int),
{
    let count: u64 = if node_count <= 2 {
        1
    } else {
        node_count - 1
    };
    let mut ports: Vec<u16> = Vec::new();
    let mut i: u64 = 0;
    while i < count
        invariant
            i <= count,
            count == crate::epoch::nodes_to_try(node_count),
            base_port + node_count <= 0x1_0000,
            at < node_count,
            ports@.len() == i,
            forall|j: int|
                #![trigger ports@[j]]
                0 <= j < i ==> ports@[j] == base_port + (at - 1 - j) % (node_count as int),
        decreases count - i,
    {
        let place: u64 = (at + node_count - 1 - i) % node_count;
        proof {
            let n = node_count as int;
            vstd::arithmetic::div_mod::lemma_mod_add_multiples_vanish(at - 1 - i, n);
            assert(n + (at - 1 - i) == at + n - 1 - i);
            assert(0 <= (at + n - 1 - i) % n < n) by (nonlinear_arith)
                requires
                    n > 0,
            ;
        }
        ports.push(base_port + place as u16);
        i = i + 1;
    }
    ports
}

/// The ports make a ring: every node pulls from the node before it and the first from
/// the last, and no two nodes listen on the same port.
pub proof fn lemma_ports_make_a_ring(ports: Seq<RingPorts>, base_port: u16, i: int, j: int)
    requires
        forall|k: int|
            #![trigger ports[k]]
            0 <= k < ports.len() ==> ports[k].port == base_port + k && ports[k].prev_port
                == base_port + (k - 1) % (ports.len() as int),
        0 <= i < ports.len(),
        0 <= j < ports.len(),
    ensures
        ports[i].prev_port == ports[if i == 0 {
            ports.len() - 1
        } else {
            i - 1
        }].port,
        i != j ==> ports[i].port != ports[j].port && ports[i].prev_port != ports[j].prev_port,
{
    let n = ports.len() as int;
    assert forall|k: int| 0 <= k < n implies #[trigger] ((k - 1) % n) == (if k == 0 {
        n - 1
    } else {
        k - 1
    }) by {
        if k == 0 {
            vstd::arithmetic::div_mod::lemma_mod_add_multiples_vanish(-1, n);
            vstd::arithmetic::div_mod::lemma_small_mod((n - 1) as nat, n as nat);
        } else {
            vstd::arithmetic::div_mod::lemma_small_mod((k - 1) as nat, n as nat);
        }
    }
    assert((i - 1) % n == (if i == 0 {
        n - 1
    } else {
        i - 1
    }));
    assert((j - 1) % n == (if j == 0 {
        n - 1
    } else {
        j - 1
    }));
}

/// How many batches of requests are made each second, and with each target.
pub const BATCHES: u32 = 10;

/// Spreads requests over a second in batches, towards a target that is drawn anew for
/// each second.
#[derive(Debug, Clone, Copy, PartialEq, Eq, Structural)]
pub struct RequestPacer {
    /// The batches since the target was drawn.
    pub batch_count: u32,
    /// Requests per second.
    pub target_rps: u32,
}

impl RequestPacer {
    /// Whether the pacer is between two batches of a second.
    pub open spec fn valid(self) -> bool {
        self.batch_count < BATCHES
    }

    /// The pacer after one more batch has become due.
    pub open spec fn ticked(self) -> RequestPacer {
        RequestPacer {
            batch_count: ((self.batch_count + 1) % (BATCHES as int)) as u32,
            ..self
        }
    }

    /// Starts with a target.
    pub fn new(target_rps: u32) -> (pacer: Self)
        ensures
            pacer == (RequestPacer { batch_count: 0, target_rps }),
            pacer.valid(),
    {
        RequestPacer { batch_count: 0, target_rps }
    }

    /// Notes that one more batch is due, and says whether a new target is to be drawn for
    /// it.
    pub fn tick(&mut self) -> (redraw: bool)
        requires
            old(self).valid(),
        ensures
            *final(self) == old(self).ticked(),
            final(self).valid(),
            redraw == (final(self).batch_count == 0),
            final(self).target_rps == old(self).target_rps,
            redraw <==> old(self).batch_count == 9,
            !redraw ==> final(self).batch_count == old(self).batch_count + 1,
    {
        self.batch_count = self.batch_count + 1;
        if self.batch_count >= BATCHES {
            self.batch_count = 0;
            true
        } else {
            false
        }
    }

    /// Takes a new target.
    pub fn retarget(&mut self, target_rps: u32)
        ensures
            *final(self) == (RequestPacer { target_rps, ..*old(self) }),
    {
        self.target_rps = target_rps;
    }

    /// How many requests a batch has.
    pub fn batch_size(&self) -> (size: u32)
        ensures
            size == self.target_rps / BATCHES,
    {
        self.target_rps / BATCHES
    }
}

/// The pacer when some batches have become due, given the targets in the order in which
/// they are drawn.
pub open spec fn paced(draws: spec_fn(nat) -> u32, batches: nat) -> RequestPacer
    decreases batches,
{
    if batches == 0 {
        RequestPacer { batch_count: 0, target_rps: draws(0) }
    } else {
        let ticked = paced(draws, (batches - 1) as nat).ticked();
        if ticked.batch_count == 0 {
            RequestPacer { target_rps: draws(batches / BATCHES as nat), ..ticked }
        } else {
            ticked
        }
    }
}

/// A new target is drawn for every tenth batch and for no other, and each batch goes by
/// the target that was drawn last.
pub proof fn lemma_target_of_each_batch(draws: spec_fn(nat) -> u32, batches: nat)
    ensures
        paced(draws, batches).valid(),
        paced(draws, batches).batch_count == batches % BATCHES as nat,
        paced(draws, batches).target_rps == draws(batches / BATCHES as nat),
    decreases batches,
{
    if batches > 0 {
        lemma_target_of_each_batch(draws, (batches - 1) as nat);
    }
}

/// The batches of a second together do not exceed the target, and fall short of it by
/// less than one request for each batch.
pub proof fn lemma_batches_meet_target(target_rps: u32)
    ensures
        target_rps - BATCHES < BATCHES * (target_rps / BATCHES) <= target_rps,
{
}

/// How many calls were started when some batches have become due: each batch starts as
/// many as the pacer says then.
pub open spec fn calls_started(draws: spec_fn(nat) -> u32, batches: nat) -> nat
    decreases batches,
{
    if batches == 0 {
        0
    } else {
        calls_started(draws, (batches - 1) as nat) + (paced(draws, batches).target_rps
            / BATCHES) as nat
    }
}

/// Each batch starts a tenth of the target that was drawn last, and where all
/// targets are drawn from a range, no batch leaves it.
pub proof fn lemma_calls_of_each_batch(
    draws: spec_fn(nat) -> u32,
    low: u32,
    high: u32,
    batches: nat,
)
    requires
        forall|i: nat| low <= #[trigger] draws(i) <= high,
        batches > 0,
    ensures
        calls_started(draws, batches) == calls_started(draws, (batches - 1) as nat) + draws(
            batches / BATCHES as nat,
        ) / BATCHES,
        low <= paced(draws, batches).target_rps <= high,
{
    lemma_target_of_each_batch(draws, batches);
}

/// The calls to a node that have finished, by their outcome.
#[derive(Debug, Clone, Copy, PartialEq, Eq, Structural)]
pub struct RequestTally {
    pub allowed: u64,
    pub denied: u64,
}

/// One more, starting over behind the largest number.
pub open spec fn one_more(count: u64) -> u64 {
    if count == u64::MAX {
        0
    } else {
        (count + 1) as u64
    }
}

impl RequestTally {
    /// The tally after one more call has finished: one of the two counts goes up by one,
    /// and the other stays.
    pub open spec fn counted(self, allowed: bool) -> RequestTally {
        if allowed {
            RequestTally { allowed: one_more(self.allowed), ..self }
        } else {
            RequestTally { denied: one_more(self.denied), ..self }
        }
    }

    /// The tally after calls have finished.
    pub open spec fn counted_all(self, outcomes: Seq<bool>) -> RequestTally
        decreases outcomes.len(),
    {
        if outcomes.len() == 0 {
            self
        } else {
            self.counted_all(outcomes.drop_last()).counted(outcomes.last())
        }
    }

    /// Starts with no call finished.
    pub fn new() -> (tally: Self)
        ensures
            tally == (RequestTally { allowed: 0, denied: 0 }),
    {
        RequestTally { allowed: 0, denied: 0 }
    }

    /// Counts a call that has finished.
    pub fn count(&mut self, allowed: bool)
        ensures
            *final(self) == old(self).counted(allowed),
            allowed ==> final(self).denied == old(self).denied,
            !allowed ==> final(self).allowed == old(self).allowed,
            allowed && old(self).allowed < u64::MAX ==> final(self).allowed == old(self).allowed
                + 1,
            !allowed && old(self).denied < u64::MAX ==> final(self).denied == old(self).denied
                + 1,
    {
        if allowed {
            self.allowed = self.allowed.wrapping_add(1);
        } else {
            self.denied = self.denied.wrapping_add(1);
        }
    }
}

/// How many of some calls had an outcome.
pub open spec fn calls_with(outcomes: Seq<bool>, allowed: bool) -> nat
    decreases outcomes.len(),
{
    if outcomes.len() == 0 {
        0
    } else {
        calls_with(outcomes.drop_last(), allowed) + (if outcomes.last() == allowed {
            1nat
        } else {
            0
        })
    }
}

/// Every finished call is counted once, in the count of its outcome: the counts grow
/// together by the number of finished calls, as long as they do not start over.
pub proof fn lemma_calls_are_counted_once(tally: RequestTally, outcomes: Seq<bool>)
    requires
        tally.allowed + outcomes.len() <= u64::MAX,
        tally.denied + outcomes.len() <= u64::MAX,
    ensures
        tally.counted_all(outcomes).allowed == tally.allowed + calls_with(outcomes, true),
        tally.counted_all(outcomes).denied == tally.denied + calls_with(outcomes, false),
        calls_with(outcomes, true) + calls_with(outcomes, false) == outcomes.len(),
    decreases outcomes.len(),
{
    if outcomes.len() > 0 {
        lemma_calls_are_counted_once(tally, outcomes.drop_last());
    }
}

/// What one node admitted, and was asked for, since the last report.
#[derive(Debug, Clone, Copy, PartialEq, Eq, Structural)]
pub struct NodeGain {
    pub allowed: u64,
    pub requests: u64,
}

/// A report on all nodes.
#[derive(Debug)]
pub struct Report {
    pub gains: Vec<NodeGain>,
    pub total_allowed: u64,
    pub total_requests: u64,
    /// What was admitted within the sliding window.
    pub window_total: u64,
    /// How many seconds the window holds so far.
    pub window_len: usize,
}

/// The state of the reports, as contracts speak of it.
#[verifier::ext_equal]
pub struct StatsView {
    /// What each node had admitted and refused at the last report.
    pub last: Seq<(u64, u64)>,
    /// What all nodes admitted in each of the last seconds.
    pub window: Seq<u64>,
    pub window_seconds: usize,
    pub strict_limit: u64,
}

/// The sum of some amounts.
pub open spec fn total_of(amounts: Seq<u64>) -> nat {
    sum_of(|i: int| amounts[i] as nat, amounts.len() as int)
}

/// The most recent `count` amounts.
pub open spec fn recent(amounts: Seq<u64>, count: int) -> Seq<u64> {
    if amounts.len() <= count {
        amounts
    } else {
        amounts.skip(amounts.len() - count)
    }
}

impl StatsView {
    /// Whether the counters have only grown since the last report.
    pub open spec fn grown(self, now: Seq<(u64, u64)>) -> bool {
        &&& now.len() == self.last.len()
        &&& forall|i: int|
            #![trigger now[i]]
            0 <= i < now.len() ==> self.last[i].0 <= now[i].0 && self.last[i].1 <= now[i].1
    }

    /// What a node admitted since the last report.
    pub open spec fn allowed(self, now: Seq<(u64, u64)>, i: int) -> nat {
        (now[i].0 - self.last[i].0) as nat
    }

    /// What a node was asked for since the last report.
    pub open spec fn requests(self, now: Seq<(u64, u64)>, i: int) -> nat {
        ((now[i].0 - self.last[i].0) + (now[i].1 - self.last[i].1)) as nat
    }

    /// What all nodes admitted since the last report.
    pub open spec fn total_allowed(self, now: Seq<(u64, u64)>) -> nat {
        sum_of(|i: int| self.allowed(now, i), now.len() as int)
    }

    /// What all nodes were asked for since the last report.
    pub open spec fn total_requests(self, now: Seq<(u64, u64)>) -> nat {
        sum_of(|i: int| self.requests(now, i), now.len() as int)
    }

    /// The window once what the nodes admitted is in it.
    pub open spec fn next_window(self, now: Seq<(u64, u64)>) -> Seq<u64> {
        recent(self.window.push(self.total_allowed(now) as u64), self.window_seconds as int)
    }

    /// Whether a report can be made: the counters have only grown, and the sums fit.
    pub open spec fn reportable(self, now: Seq<(u64, u64)>) -> bool {
        &&& self.grown(now)
        &&& self.total_requests(now) <= u64::MAX
        &&& total_of(self.next_window(now)) <= u64::MAX
    }

    /// The state after a report.
    pub open spec fn reported(self, now: Seq<(u64, u64)>) -> StatsView {
        StatsView { last: now, window: self.next_window(now), ..self }
    }
}

/// Makes reports each second.
pub struct StatsReporter {
    last: Vec<(u64, u64)>,
    window: VecDeque<u64>,
    window_seconds: usize,
    strict_limit: u64,
}

impl View for StatsReporter {
    type V = StatsView;

    closed spec fn view(&self) -> StatsView {
        StatsView {
            last: self.last@,
            window: self.window@,
            window_seconds: self.window_seconds,
            strict_limit: self.strict_limit,
        }
    }
}

proof fn lemma_requests_cover_allowed(stats: StatsView, now: Seq<(u64, u64)>, count: int)
    requires
        stats.grown(now),
        0 <= count <= now.len(),
    ensures
        sum_of(|i: int| stats.allowed(now, i), count) <= sum_of(
            |i: int| stats.requests(now, i),
            count,
        ) <= sum_of(|i: int| stats.requests(now, i), now.len() as int),
    decreases count,
{
    if count > 0 {
        lemma_requests_cover_allowed(stats, now, count - 1);
        assert(now[count - 1] == now[count - 1]);
    }
    crate::sum::lemma_sum_grows(|i: int| stats.requests(now, i), count, now.len() as int);
}

impl StatsReporter {
    /// Starts for some nodes, none of which has counted anything yet. The window is as
    /// long as it takes a table to go once round the ring, and the limit is what may be
    /// admitted within it.
    pub fn new(nodes: usize, orbit_limit: u64, node_count: u64, epoch_duration_ms: u64) -> (stats:
        Self)
        requires
            node_count * orbit_limit <= u64::MAX,
            node_count * epoch_duration_ms <= u64::MAX,
            8 * (node_count * epoch_duration_ms / 1000 + 1) <= isize::MAX,
        ensures
            stats@ == (StatsView {
                last: Seq::new(nodes as nat, |i: int| (0u64, 0u64)),
                window: Seq::empty(),
                window_seconds: (node_count * epoch_duration_ms / 1000) as usize,
                strict_limit: (node_count * orbit_limit) as u64,
            }),
            stats@.window_seconds == node_count * epoch_duration_ms / 1000,
            stats@.strict_limit == node_count * orbit_limit,
    {
        let strict_limit: u64 = node_count * orbit_limit;
        let window_seconds: usize = (node_count * epoch_duration_ms / 1000) as usize;
        let mut last: Vec<(u64, u64)> = Vec::new();
        let mut i: usize = 0;
        while i < nodes
            invariant
                i <= nodes,
                last@ =~= Seq::new(i as nat, |j: int| (0u64, 0u64)),
            decreases nodes - i,
        {
            last.push((0, 0));
            i = i + 1;
        }
        StatsReporter {
            last,
            window: VecDeque::with_capacity(window_seconds + 1),
            window_seconds,
            strict_limit,
        }
    }

    /// What may be admitted within the window.
    pub fn strict_limit(&self) -> (limit: u64)
        ensures
            limit == self@.strict_limit,
    {
        self.strict_limit
    }

    /// How many seconds the window has.
    pub fn window_seconds(&self) -> (seconds: usize)
        ensures
            seconds == self@.window_seconds,
    {
        self.window_seconds
    }

    /// Whether a report can be made from what each node has admitted and refused by now.
    pub fn can_report(&self, now: &Vec<(u64, u64)>) -> (ready: bool)
        ensures
            ready == self@.reportable(now@),
    {
        if now.len() != self.last.len() {
            return false;
        }
        let mut total_allowed: u128 = 0;
        let mut total_requests: u128 = 0;
        let mut i: usize = 0;
        while i < now.len()
            invariant
                i <= now@.len(),
                now@.len() == self.last@.len(),
                self@.last == self.last@,
                forall|j: int|
                    #![trigger now@[j]]
                    0 <= j < i ==> self.last@[j].0 <= now@[j].0 && self.last@[j].1 <= now@[j].1,
                total_allowed == sum_of(|j: int| self@.allowed(now@, j), i as int),
                total_requests == sum_of(|j: int| self@.requests(now@, j), i as int),
                total_allowed <= total_requests <= u64::MAX,
            decreases now@.len() - i,
        {
            let (allowed, denied): (u64, u64) = now[i];
            let (last_allowed, last_denied): (u64, u64) = self.last[i];
            if allowed < last_allowed || denied < last_denied {
                proof {
                    assert(now@[i as int] == (allowed, denied));
                }
                return false;
            }
            total_allowed = total_allowed + (allowed - last_allowed) as u128;
            total_requests = total_requests + (allowed - last_allowed) as u128 + (denied
                - last_denied) as u128;
            i = i + 1;
            proof {
                assert(total_allowed == sum_of(|j: int| self@.allowed(now@, j), i as int));
                assert(total_requests == sum_of(|j: int| self@.requests(now@, j), i as int));
            }
            if total_requests > u64::MAX as u128 {
                proof {
                    crate::sum::lemma_sum_grows(
                        |j: int| self@.requests(now@, j),
                        i as int,
                        now@.len() as int,
                    );
                }
                return false;
            }
        }
        let ghost next = self@.next_window(now@);
        if self.window_seconds == 0 {
            return true;
        }
        let mut j: usize = if self.window.len() < self.window_seconds {
            0
        } else {
            self.window.len() - (self.window_seconds - 1)
        };
        let ghost from = j as int;
        proof {
            assert(next =~= self@.window.skip(from).push(total_allowed as u64));
        }
        let mut window_total: u128 = 0;
        while j < self.window.len()
            invariant
                0 <= from <= j <= self.window@.len(),
                self@.window == self.window@,
                next == self.window@.skip(from).push(total_allowed as u64),
                next == self@.next_window(now@),
                window_total == sum_of(|k: int| next[k] as nat, j - from),
                window_total <= u64::MAX,
            decreases self.window@.len() - j,
        {
            window_total = window_total + self.window[j] as u128;
            j = j + 1;
            proof {
                assert(next[j - from - 1] == self.window@[j - 1]);
                assert(window_total == sum_of(|k: int| next[k] as nat, j - from));
            }
            if window_total > u64::MAX as u128 {
                proof {
                    crate::sum::lemma_sum_grows(
                        |k: int| next[k] as nat,
                        j - from,
                        next.len() as int,
                    );
                }
                return false;
            }
        }
        proof {
            assert(next[j - from] == total_allowed as u64);
            assert(total_of(next) == window_total + total_allowed);
        }
        window_total + total_allowed <= u64::MAX as u128
    }

    /// Makes a report from what each node has admitted and refused by now.
    pub fn report(&mut self, now: &Vec<(u64, u64)>) -> (report: Report)
        requires
            old(self)@.reportable(now@),
        ensures
            final(self)@ == old(self)@.reported(now@),
            report.gains@.len() == now@.len(),
            forall|i: int|
                #![trigger report.gains@[i]]
                0 <= i < now@.len() ==> report.gains@[i].allowed == old(self)@.allowed(now@, i)
                    && report.gains@[i].requests == old(self)@.requests(now@, i),
            report.total_allowed == old(self)@.total_allowed(now@),
            report.total_requests == old(self)@.total_requests(now@),
            report.window_total == total_of(final(self)@.window),
            report.window_len == final(self)@.window.len(),
            forall|i: int|
                #![trigger report.gains@[i]]
                0 <= i < now@.len() ==> report.gains@[i].allowed == now@[i].0 - old(self)@.last[i].0
                    && report.gains@[i].requests == (now@[i].0 - old(self)@.last[i].0) + (now@[i].1
                    - old(self)@.last[i].1),
            report.total_allowed == sum_of(
                |i: int| report.gains@[i].allowed as nat,
                report.gains@.len() as int,
            ),
            report.total_requests == sum_of(
                |i: int| report.gains@[i].requests as nat,
                report.gains@.len() as int,
            ),
            report.window_total == sum_of(
                |i: int| final(self)@.window[i] as nat,
                final(self)@.window.len() as int,
            ),
            final(self)@.window_seconds > 0 ==> final(self)@.window.len() > 0
                && final(self)@.window.last() == report.total_allowed,
            final(self)@.last == now@,
            final(self)@.window_seconds == old(self)@.window_seconds,
            final(self)@.strict_limit == old(self)@.strict_limit,
    {
        let ghost before = self@;
        let mut gains: Vec<NodeGain> = Vec::new();
        let mut total_allowed: u64 = 0;
        let mut total_requests: u64 = 0;
        let mut i: usize = 0;
        while i < now.len()
            invariant
                i <= now@.len(),
                before.reportable(now@),
                self@.window == before.window,
                self@.window_seconds == before.window_seconds,
                self@.strict_limit == before.strict_limit,
                self.last@.len() == now@.len(),
                self@.last == self.last@,
                forall|j: int| #![trigger self.last@[j]] 0 <= j < i ==> self.last@[j] == now@[j],
                forall|j: int|
                    #![trigger self.last@[j]]
                    i <= j < now@.len() ==> self.last@[j] == before.last[j],
                gains@.len() == i,
                forall|j: int|
                    #![trigger gains@[j]]
                    0 <= j < i ==> gains@[j].allowed == before.allowed(now@, j)
                        && gains@[j].requests == before.requests(now@, j),
                total_allowed == sum_of(|j: int| before.allowed(now@, j), i as int),
                total_requests == sum_of(|j: int| before.requests(now@, j), i as int),
            decreases now@.len() - i,
        {
            let allowed: u64 = now[i].0;
            let denied: u64 = now[i].1;
            let (last_allowed, last_denied): (u64, u64) = self.last[i];
            proof {
                assert(self.last@[i as int] == before.last[i as int]);
                assert(now@[i as int] == now@[i as int]);
                lemma_requests_cover_allowed(before, now@, i + 1);
                assert(sum_of(|j: int| before.requests(now@, j), i + 1) == sum_of(
                    |j: int| before.requests(now@, j),
                    i as int,
                ) + before.requests(now@, i as int));
                assert(sum_of(|j: int| before.allowed(now@, j), i + 1) == sum_of(
                    |j: int| before.allowed(now@, j),
                    i as int,
                ) + before.allowed(now@, i as int));
            }
            let delta_allowed: u64 = allowed - last_allowed;
            let delta_denied: u64 = denied - last_denied;
            let delta_total: u64 = delta_allowed + delta_denied;
            gains.push(NodeGain { allowed: delta_allowed, requests: delta_total });
            total_allowed = total_allowed + delta_allowed;
            total_requests = total_requests + delta_total;
            self.last.set(i, (allowed, denied));
            i = i + 1;
        }
        proof {
            assert(self.last@ =~= now@);
        }
        self.window.push_back(total_allowed);
        let ghost all = before.window.push(total_allowed);
        let ghost mut dropped: int = 0;
        while self.window.len() > self.window_seconds
            invariant
                0 <= dropped <= all.len(),
                dropped > 0 ==> self.window@.len() >= self.window_seconds,
                self.window@ == all.skip(dropped),
                self.last@ == now@,
                self@.last == self.last@,
                self.window_seconds == before.window_seconds,
                self.strict_limit == before.strict_limit,
            decreases self.window@.len(),
        {
            self.window.pop_front();
            proof {
                dropped = dropped + 1;
                assert(self.window@ =~= all.skip(dropped));
            }
        }
        proof {
            assert(self.window@ =~= before.next_window(now@));
        }
        let mut window_total: u64 = 0;
        let mut j: usize = 0;
        while j < self.window.len()
            invariant
                j <= self.window@.len(),
                self@ == before.reported(now@),
                total_of(self.window@) <= u64::MAX,
                window_total == sum_of(|k: int| self.window@[k] as nat, j as int),
            decreases self.window@.len() - j,
        {
            proof {
                crate::sum::lemma_sum_grows(
                    |k: int| self.window@[k] as nat,
                    j + 1,
                    self.window@.len() as int,
                );
            }
            window_total = window_total + self.window[j];
            j = j + 1;
        }
        proof {
            assert forall|k: int| #![trigger gains@[k]] 0 <= k < gains@.len() implies gains@[k].allowed
                == now@[k].0 - before.last[k].0 && gains@[k].requests == (now@[k].0
                - before.last[k].0) + (now@[k].1 - before.last[k].1) by {
                assert(now@[k] == now@[k]);
            }
            crate::sum::lemma_sum_agree(
                |k: int| before.allowed(now@, k),
                |k: int| gains@[k].allowed as nat,
                gains@.len() as int,
            );
            crate::sum::lemma_sum_agree(
                |k: int| before.requests(now@, k),
                |k: int| gains@[k].requests as nat,
                gains@.len() as int,
            );
        }
        Report {
            gains,
            total_allowed,
            total_requests,
            window_total,
            window_len: self.window.len(),
        }
    }
}

/// The window slides: dropping what is too old each second leaves the most recent of all
/// that was ever put in.
pub proof fn lemma_window_slides(amounts: Seq<u64>, amount: u64, seconds: usize)
    ensures
        recent(recent(amounts, seconds as int).push(amount), seconds as int) == recent(
            amounts.push(amount),
            seconds as int,
        ),
        recent(amounts, seconds as int).len() <= seconds,
{
    assert(recent(recent(amounts, seconds as int).push(amount), seconds as int) =~= recent(
        amounts.push(amount),
        seconds as int,
    ));
}

impl StatsView {
    /// The state after reports on readings of the counters.
    pub open spec fn reported_all(self, readings: Seq<Seq<(u64, u64)>>) -> StatsView
        decreases readings.len(),
    {
        if readings.len() == 0 {
            self
        } else {
            self.reported_all(readings.drop_last()).reported(readings.last())
        }
    }

    /// Whether reports can be made on readings of the counters, one after the other.
    pub open spec fn reportable_all(self, readings: Seq<Seq<(u64, u64)>>) -> bool
        decreases readings.len(),
    {
        readings.len() > 0 ==> {
            &&& self.reportable_all(readings.drop_last())
            &&& self.reported_all(readings.drop_last()).reportable(readings.last())
        }
    }

    /// What all nodes admitted before each reading since the one before it.
    pub open spec fn growth(self, readings: Seq<Seq<(u64, u64)>>) -> Seq<u64>
        decreases readings.len(),
    {
        if readings.len() == 0 {
            Seq::empty()
        } else {
            self.growth(readings.drop_last()).push(
                self.reported_all(readings.drop_last()).total_allowed(readings.last()) as u64,
            )
        }
    }
}

/// Over any number of reports: the window holds what was admitted in the last seconds, as
/// many of them as there were, but no more than the window has; each report compares with
/// the reading before; and the limit stays.
pub proof fn lemma_reports_over_time(stats: StatsView, readings: Seq<Seq<(u64, u64)>>)
    requires
        stats.window.len() == 0,
        stats.reportable_all(readings),
    ensures
        ({
            let after = stats.reported_all(readings);
            &&& after.window == recent(stats.growth(readings), stats.window_seconds as int)
            &&& stats.growth(readings).len() == readings.len()
            &&& after.window.len() == (if readings.len() <= stats.window_seconds {
                readings.len()
            } else {
                stats.window_seconds as nat
            })
            &&& total_of(after.window) <= u64::MAX
            &&& after.last == (if readings.len() == 0 {
                stats.last
            } else {
                readings.last()
            })
            &&& after.strict_limit == stats.strict_limit
            &&& after.window_seconds == stats.window_seconds
        }),
    decreases readings.len(),
{
    if readings.len() == 0 {
        assert(stats.window =~= recent(stats.growth(readings), stats.window_seconds as int));
        assert(total_of(stats.window) == 0);
    } else {
        let before = readings.drop_last();
        lemma_reports_over_time(stats, before);
        let amount = stats.reported_all(before).total_allowed(readings.last()) as u64;
        lemma_window_slides(stats.growth(before), amount, stats.window_seconds);
    }
}

/// The most recent amounts are the last ones, in their order: all of them where there are
/// no more than asked for, and as many as asked for otherwise.
pub proof fn lemma_recent_are_the_last(amounts: Seq<u64>, count: usize)
    ensures
        amounts.len() <= count ==> recent(amounts, count as int).len() == amounts.len(),
        amounts.len() > count ==> recent(amounts, count as int).len() == count,
        forall|back: int|
            #![trigger amounts[amounts.len() - 1 - back]]
            0 <= back < recent(amounts, count as int).len() ==> recent(amounts, count as int)[recent(
                amounts,
                count as int,
            ).len() - 1 - back] == amounts[amounts.len() - 1 - back],
{
}

/// What is reported of all nodes is the sum of what each node has gained since the reading
/// before, whatever the number of nodes, and the newest second of the window is what all
/// nodes admitted.
pub proof fn lemma_report_adds_up_all_nodes(stats: StatsView, now: Seq<(u64, u64)>)
    requires
        stats.reportable(now),
    ensures
        now.len() == stats.last.len(),
        stats.total_allowed(now) == sum_of(
            |i: int| (now[i].0 - stats.last[i].0) as nat,
            now.len() as int,
        ),
        stats.total_requests(now) == sum_of(
            |i: int| ((now[i].0 - stats.last[i].0) + (now[i].1 - stats.last[i].1)) as nat,
            now.len() as int,
        ),
        stats.window_seconds > 0 ==> stats.reported(now).window.len() > 0 && stats.reported(
            now,
        ).window.last() == sum_of(
            |i: int| (now[i].0 - stats.last[i].0) as nat,
            now.len() as int,
        ),
        stats.window_seconds == 0 ==> stats.reported(now).window.len() == 0,
        stats.reported(now).last == now,
        stats.reported(now).strict_limit == stats.strict_limit,
        stats.reported(now).window_seconds == stats.window_seconds,
{
    crate::sum::lemma_sum_agree(
        |i: int| stats.allowed(now, i),
        |i: int| (now[i].0 - stats.last[i].0) as nat,
        now.len() as int,
    );
    crate::sum::lemma_sum_agree(
        |i: int| stats.requests(now, i),
        |i: int| ((now[i].0 - stats.last[i].0) + (now[i].1 - stats.last[i].1)) as nat,
        now.len() as int,
    );
    lemma_requests_cover_allowed(stats, now, now.len() as int);
}

/// A report moves the seconds before back by one place; the oldest goes only where the
/// window is full.
pub proof fn lemma_report_moves_the_window(stats: StatsView, now: Seq<(u64, u64)>)
    requires
        stats.window.len() <= stats.window_seconds,
    ensures
        ({
            let after = stats.reported(now).window;
            let held = stats.window.len();
            &&& held < stats.window_seconds ==> after.len() == held + 1
            &&& held == stats.window_seconds ==> after.len() == held
            &&& forall|back: int|
                #![trigger after[after.len() - 1 - back]]
                1 <= back < after.len() ==> after[after.len() - 1 - back] == stats.window[held
                    - back]
        }),
{
}

proof fn lemma_suffix_is_no_more(amounts: Seq<u64>, from: int)
    requires
        0 <= from <= amounts.len(),
    ensures
        total_of(amounts.skip(from)) <= total_of(amounts),
    decreases from,
{
    if from == 0 {
        assert(amounts.skip(0) =~= amounts);
    } else {
        lemma_suffix_is_no_more(amounts, from - 1);
        let longer = amounts.skip(from - 1);
        let shorter = amounts.skip(from);
        let f = |i: int| longer[i] as nat;
        let g = |i: int| shorter[i] as nat;
        crate::sum::lemma_sum_front(f, longer.len() as int);
        assert forall|i: int| 0 <= i < shorter.len() implies #[trigger] shorter[i] == longer[i
            + 1] by {}
        crate::sum::lemma_sum_agree(|i: int| f(i + 1), g, shorter.len() as int);
    }
}

/// A report can be made whenever no counter has shrunk and the sums fit, for any number of
/// nodes.
pub proof fn lemma_report_is_possible(stats: StatsView, now: Seq<(u64, u64)>)
    requires
        now.len() == stats.last.len(),
        forall|i: int|
            #![trigger now[i]]
            0 <= i < now.len() ==> stats.last[i].0 <= now[i].0 && stats.last[i].1 <= now[i].1,
        sum_of(
            |i: int| ((now[i].0 - stats.last[i].0) + (now[i].1 - stats.last[i].1)) as nat,
            now.len() as int,
        ) <= u64::MAX,
        sum_of(|i: int| stats.window[i] as nat, stats.window.len() as int) + sum_of(
            |i: int| (now[i].0 - stats.last[i].0) as nat,
            now.len() as int,
        ) <= u64::MAX,
    ensures
        stats.reportable(now),
{
    crate::sum::lemma_sum_agree(
        |i: int| stats.allowed(now, i),
        |i: int| (now[i].0 - stats.last[i].0) as nat,
        now.len() as int,
    );
    crate::sum::lemma_sum_agree(
        |i: int| stats.requests(now, i),
        |i: int| ((now[i].0 - stats.last[i].0) + (now[i].1 - stats.last[i].1)) as nat,
        now.len() as int,
    );
    let newest = stats.total_allowed(now) as u64;
    let all = stats.window.push(newest);
    crate::sum::lemma_sum_agree(
        |i: int| all[i] as nat,
        |i: int| stats.window[i] as nat,
        stats.window.len() as int,
    );
    assert(total_of(all) == total_of(stats.window) + newest);
    lemma_suffix_is_no_more(
        all,
        if all.len() <= stats.window_seconds {
            0
        } else {
            all.len() - stats.window_seconds
        },
    );
    assert(all.skip(0) =~= all);
}

/// Nothing is lost between reports and nothing is reported twice: what the reports say was
/// admitted is, over any number of them, what the counters of all nodes have grown by.
pub proof fn lemma_reports_account_for_all(stats: StatsView, readings: Seq<Seq<(u64, u64)>>)
    requires
        readings.len() > 0,
        stats.reportable_all(readings),
    ensures
        readings.last().len() == stats.last.len(),
        forall|i: int|
            #![trigger readings.last()[i]]
            0 <= i < stats.last.len() ==> stats.last[i].0 <= readings.last()[i].0,
        total_of(stats.growth(readings)) == sum_of(
            |i: int| (readings.last()[i].0 - stats.last[i].0) as nat,
            stats.last.len() as int,
        ),
    decreases readings.len(),
{
    let before = readings.drop_last();
    let prior = stats.reported_all(before);
    let now = readings.last();
    lemma_report_adds_up_all_nodes(prior, now);
    lemma_requests_cover_allowed(prior, now, now.len() as int);
    let growth = stats.growth(readings);
    let earlier = stats.growth(before);
    assert(growth.drop_last() =~= earlier);
    crate::sum::lemma_sum_agree(
        |i: int| growth[i] as nat,
        |i: int| earlier[i] as nat,
        earlier.len() as int,
    );
    assert(total_of(growth) == total_of(earlier) + prior.total_allowed(now));
    if before.len() == 0 {
        assert(prior == stats);
    } else {
        lemma_reports_account_for_all(stats, before);
        assert(prior.last == before.last());
        let n = stats.last.len() as int;
        let f = |i: int| (prior.last[i].0 - stats.last[i].0) as nat;
        let g = |i: int| (now[i].0 - prior.last[i].0) as nat;
        crate::sum::lemma_sum_plus(f, g, n);
        assert forall|i: int| #![trigger now[i]] 0 <= i < n implies stats.last[i].0 <= now[i].0
            && prior.last[i].0 <= now[i].0 && stats.last[i].0 <= prior.last[i].0 by {
            assert(before.last()[i] == prior.last[i]);
        }
        crate::sum::lemma_sum_agree(
            |i: int| f(i) + g(i),
            |i: int| (now[i].0 - stats.last[i].0) as nat,
            n,
        );
    }
}

} // verus!
