use orbit::epoch::{EpochAction, EpochEvent, EpochOrder, EpochPhase, EpochTask, SETTLE_MS};
use orbit::node::Admission;
use orbit::pull::{pull, serve};
use orbit::stream::{encode_request, OrbitStreamError, Reply};
use orbit::usage::{EpochUsage, EpochUsageTable};
use orbit::{Orbit, OrbitConfig, Uuid};

const NOW: u128 = 1_700_000_000_250;
const EPOCH: u64 = 1_700_000_000;

const A: Uuid = [1u8; 16];
const B: Uuid = [2u8; 16];

fn config(limit: u64, nodes: u64) -> OrbitConfig {
    OrbitConfig { orbit_limit: limit, node_count: nodes, epoch_duration_ms: 1000 }
}

fn table_of(nodes: usize, epoch: u64, entries: &[(Uuid, u64)]) -> EpochUsageTable {
    let mut table = EpochUsageTable::new(epoch, nodes);
    table.push_epoch(EpochUsage::from_vec(epoch, entries.to_vec()));
    table
}

fn pulled(reply: Reply) -> EpochUsageTable {
    match reply {
        Reply::Answer(Ok(table)) => table,
        other => panic!("unexpected reply: {:?}", other),
    }
}

#[test]
fn default_config() {
    let config = OrbitConfig::default();
    assert_eq!(config.orbit_limit, 1000);
    assert_eq!(config.node_count, 10);
    assert_eq!(config.epoch_duration_ms, 1000);
}

#[test]
fn epochs_are_counted_from_the_unix_epoch() {
    assert_eq!(Orbit::calculate_epoch(0, 1000), 0);
    assert_eq!(Orbit::calculate_epoch(999, 1000), 0);
    assert_eq!(Orbit::calculate_epoch(1000, 1000), 1);
    assert_eq!(Orbit::calculate_epoch(NOW, 1000), EPOCH);
    assert_eq!(Orbit::calculate_epoch(NOW, 1), NOW as u64);
    assert_eq!(Orbit::calculate_epoch((1u128 << 64) + 5000, 1000), 5);
}

#[test]
fn the_wait_for_a_boundary_is_never_zero() {
    assert_eq!(Orbit::ms_until_next_epoch(0, 1000), 1000);
    assert_eq!(Orbit::ms_until_next_epoch(1, 1000), 999);
    assert_eq!(Orbit::ms_until_next_epoch(999, 1000), 1);
    assert_eq!(Orbit::ms_until_next_epoch(NOW, 1000), 750);
    assert_eq!(Orbit::ms_until_next_epoch(NOW, 60_000), 39_750);
}

#[test]
fn the_wait_leads_to_the_next_epoch() {
    for now in [0u128, 1, 499, 999, 1000, 1001, NOW] {
        for duration in [1, 7, 1000, 60_000] {
            let wait = Orbit::ms_until_next_epoch(now, duration) as u128;
            let epoch = Orbit::calculate_epoch(now, duration);
            assert_eq!(Orbit::calculate_epoch(now + wait - 1, duration), epoch);
            assert_eq!(Orbit::calculate_epoch(now + wait, duration), epoch + 1);
        }
    }
}

#[test]
fn a_fresh_node_has_the_whole_limit() {
    let mut node = Orbit::new(config(100, 3), NOW);
    assert_eq!(node.current_epoch(), EPOCH);
    assert_eq!(node.config(), config(100, 3));
    assert!(!node.is_receiving());
    assert_eq!(node.remaining(&A), 100);
    assert_eq!(node.check_and_increment(&A, 100, 0), Admission::Allowed);
    assert_eq!(node.check_and_increment(&A, 1, 0), Admission::RateLimited);
}

#[test]
fn requests_are_counted_by_identifier() {
    let mut node = Orbit::new(config(10, 3), NOW);
    assert_eq!(node.check_and_increment(&A, 7, 0), Admission::Allowed);
    assert_eq!(node.check_and_increment(&B, 9, 0), Admission::Allowed);
    assert_eq!(node.check_and_increment(&A, 4, 0), Admission::RateLimited);
    assert_eq!(node.current_usage(&A), 7);
    assert_eq!(node.check_and_increment(&A, 3, 0), Admission::Allowed);
    assert_eq!(node.current_usage(&A), 10);
    assert_eq!(node.current_usage(&B), 9);
}

#[test]
fn the_reserve_is_left_to_the_nodes_after() {
    let mut node = Orbit::new(config(100, 3), NOW);
    assert_eq!(node.check_and_increment(&A, 86, 15), Admission::RateLimited);
    assert_eq!(node.check_and_increment(&A, 85, 15), Admission::Allowed);
    assert_eq!(node.check_and_increment(&A, 1, 15), Admission::RateLimited);
    assert_eq!(node.check_and_increment(&B, 1, 1000), Admission::RateLimited);
    assert_eq!(node.check_and_increment(&B, 0, 1000), Admission::Allowed);
}

#[test]
fn the_reserve_reaches_the_successor() {
    let mut node = Orbit::new(config(100, 4), NOW);
    node.receive_table(table_of(4, EPOCH - 1, &[(A, 60)]));
    let reserved = 12;
    while node.check_and_increment(&A, 1, reserved) == Admission::Allowed {}
    assert_eq!(node.current_usage(&A), 28);
    node.turn_epoch();
    let mut successor = Orbit::new(config(100, 4), NOW);
    successor.receive_table(pulled(pull(&mut node, EPOCH)));
    assert_eq!(successor.remaining(&A), reserved);
}

#[test]
fn usage_of_the_nodes_before_is_taken_off_the_limit() {
    let mut node = Orbit::new(config(100, 4), NOW);
    node.receive_table(table_of(4, EPOCH - 1, &[(A, 60), (B, 150)]));
    assert_eq!(node.remaining(&A), 40);
    assert_eq!(node.remaining(&B), 0);
    assert_eq!(node.check_and_increment(&A, 41, 0), Admission::RateLimited);
    assert_eq!(node.check_and_increment(&A, 40, 0), Admission::Allowed);
    assert_eq!(node.check_and_increment(&B, 1, 0), Admission::RateLimited);
}

#[test]
fn usage_before_that_does_not_fit_leaves_nothing() {
    let mut node = Orbit::new(config(100, 4), NOW);
    let mut table = table_of(4, EPOCH - 2, &[(A, u64::MAX)]);
    table.push_epoch(EpochUsage::from_vec(EPOCH - 1, vec![(A, 1)]));
    node.receive_table(table);
    assert_eq!(node.remaining(&A), 0);
    assert_eq!(node.check_and_increment(&A, 1, 0), Admission::RateLimited);
    assert_eq!(node.remaining(&B), 100);
}

#[test]
fn a_request_that_would_overflow_the_counter_is_refused() {
    let mut node = Orbit::new(config(100, 4), NOW);
    assert_eq!(node.check_and_increment(&A, 1, 25), Admission::Allowed);
    assert_eq!(node.check_and_increment(&A, u64::MAX, 25), Admission::RateLimited);
    assert_eq!(node.current_usage(&A), 1);
    let mut node = Orbit::new(config(u64::MAX, 4), NOW);
    assert_eq!(node.check_and_increment(&A, u64::MAX, 0), Admission::Allowed);
    assert_eq!(node.check_and_increment(&A, 1, 0), Admission::RateLimited);
    assert_eq!(node.current_usage(&A), u64::MAX);
}

#[test]
fn two_requests_are_one_for_the_sum() {
    for a in 0..12u64 {
        for b in 0..12u64 {
            let mut two = Orbit::new(config(10, 4), NOW);
            let mut one = Orbit::new(config(10, 4), NOW);
            let both = two.check_and_increment(&A, a, 1) == Admission::Allowed
                && two.check_and_increment(&A, b, 1) == Admission::Allowed;
            assert_eq!(both, one.check_and_increment(&A, a + b, 1) == Admission::Allowed);
            if both {
                assert_eq!(two.current_usage(&A), one.current_usage(&A));
            }
        }
    }
}

#[test]
fn requests_share_the_quota() {
    let mut node = Orbit::new(config(100, 4), NOW);
    let mut allowed = 0;
    for amount in [30, 80, 7, 0, 50, 13, 40, 1] {
        node.check_and_increment(&B, amount, 0);
        if node.check_and_increment(&A, amount, 20) == Admission::Allowed {
            allowed += amount;
        }
        assert_eq!(node.current_usage(&A), allowed);
    }
    assert_eq!(allowed, 51);
}

#[test]
fn nothing_is_admitted_while_the_table_is_outstanding() {
    let mut node = Orbit::new(config(100, 3), NOW);
    node.check_and_increment(&A, 5, 0);
    node.turn_epoch();
    assert!(node.is_receiving());
    assert_eq!(node.check_and_increment(&A, 1, 0), Admission::Wait);
    assert_eq!(node.current_usage(&A), 0);
    node.receive_table(table_of(3, EPOCH, &[]));
    assert_eq!(node.check_and_increment(&A, 1, 0), Admission::Allowed);
}

#[test]
fn a_table_is_pulled_once() {
    let mut node = Orbit::new(config(100, 3), NOW);
    node.check_and_increment(&B, 9, 0);
    node.check_and_increment(&A, 5, 0);
    node.turn_epoch();
    let table = pulled(pull(&mut node, EPOCH));
    assert_eq!(table.recent_epoch, EPOCH);
    assert_eq!(table.node_count, 3);
    assert_eq!(table.tables.len(), 1);
    assert_eq!(table.tables[0].usages, vec![(A, 5), (B, 9)]);
    assert!(matches!(pull(&mut node, EPOCH), Reply::Truncated));
    match node.get_usage_table(EPOCH) {
        Err(OrbitStreamError::TableNotExist(epoch)) => assert_eq!(epoch, EPOCH),
        _ => panic!("expected no table"),
    }
}

#[test]
fn a_request_for_another_epoch_leaves_the_table() {
    let mut node = Orbit::new(config(100, 3), NOW);
    match node.get_usage_table(EPOCH) {
        Err(OrbitStreamError::EpochMismatch { requested, server }) => {
            assert_eq!((requested, server), (EPOCH, 0));
        }
        _ => panic!("expected a mismatch"),
    }
    assert!(matches!(node.get_usage_table(0), Err(OrbitStreamError::TableNotExist(0))));
    node.turn_epoch();
    match pull(&mut node, EPOCH + 1) {
        Reply::Answer(Err(OrbitStreamError::EpochMismatch { requested, server })) => {
            assert_eq!((requested, server), (EPOCH + 1, EPOCH));
        }
        other => panic!("unexpected reply: {:?}", other),
    }
    pulled(pull(&mut node, EPOCH));
}

#[test]
fn what_can_be_sent_is_told() {
    let mut node = Orbit::new(config(100, 3), NOW);
    assert!(node.can_send());
    node.check_and_increment(&A, 5, 0);
    node.turn_epoch();
    assert!(node.can_send());
    pulled(pull(&mut node, EPOCH));
    assert!(node.can_send());
}

#[test]
fn serving_a_missing_table_is_an_error() {
    let mut node = Orbit::new(config(100, 3), NOW);
    match serve(&mut node, &encode_request(0)) {
        Err(OrbitStreamError::TableNotExist(epoch)) => assert_eq!(epoch, 0),
        _ => panic!("expected no table"),
    }
    assert_eq!(
        serve(&mut node, &encode_request(7)).unwrap(),
        vec![1, 0, 0, 0, 0, 0, 0, 0, 0]
    );
}

#[test]
fn what_was_received_is_passed_on_behind_the_own_record() {
    let mut node = Orbit::new(config(1000, 4), NOW);
    let mut table = table_of(4, EPOCH - 3, &[(A, 1)]);
    table.push_epoch(EpochUsage::from_vec(EPOCH - 2, vec![(A, 20)]));
    table.push_epoch(EpochUsage::from_vec(EPOCH - 1, vec![(A, 300)]));
    node.receive_table(table);
    assert!(node.can_turn_epoch());
    node.check_and_increment(&A, 5, 0);
    node.turn_epoch();
    let table = pulled(pull(&mut node, EPOCH));
    let epochs: Vec<u64> = table.tables.iter().map(|record| record.epoch).collect();
    assert_eq!(epochs, vec![EPOCH, EPOCH - 1, EPOCH - 2]);
    assert_eq!(table.get_usage(&A), 325);
}

#[test]
fn a_table_without_room_cannot_be_turned() {
    let mut node = Orbit::new(config(10, 3), NOW);
    assert!(node.can_turn_epoch());
    node.receive_table(EpochUsageTable::new(0, 0));
    assert!(!node.can_turn_epoch());
    assert!(!Orbit::new(config(10, 0), NOW).can_turn_epoch());
    assert!(!Orbit::new(config(10, u64::MAX), NOW).can_turn_epoch());
}

fn order(action: EpochAction) -> EpochOrder {
    EpochOrder { close: false, action }
}

fn waiting(connected: bool) -> EpochTask {
    EpochTask { phase: EpochPhase::Waiting, connected }
}

#[test]
fn an_epoch_goes_from_boundary_to_boundary() {
    let mut node = Orbit::new(config(100, 3), NOW);
    let (mut task, first) = EpochTask::start(&mut node, NOW + 1000);
    assert_eq!(node.current_epoch(), EPOCH + 1);
    assert_eq!(first, order(EpochAction::AwaitBoundary));
    node.check_and_increment(&A, 3, 0);

    let next = task.step(&mut node, EpochEvent::BoundaryReached);
    assert_eq!(next, order(EpochAction::Settle { ms: 50 }));
    assert_eq!(SETTLE_MS, 50);
    assert_eq!(node.check_and_increment(&A, 1, 0), Admission::Wait);

    let next = task.step(&mut node, EpochEvent::Settled);
    assert_eq!(next, order(EpochAction::Connect { back: 1, timeout_ms: 200 }));
    let next = task.step(&mut node, EpochEvent::Connected);
    assert_eq!(next, order(EpochAction::Pull { epoch: EPOCH + 1 }));

    let table = table_of(3, EPOCH + 1, &[(A, 90)]);
    let next = task.step(&mut node, EpochEvent::TablePulled(table));
    assert_eq!(next, order(EpochAction::ReadClock));
    let next = task.step(&mut node, EpochEvent::ClockRead(NOW + 2000));
    assert_eq!(next, order(EpochAction::AwaitBoundary));
    assert_eq!(node.current_epoch(), EPOCH + 2);
    assert_eq!(node.remaining(&A), 10);
    assert_eq!(task, waiting(true));
}

#[test]
fn a_connection_is_used_again() {
    let mut node = Orbit::new(config(100, 3), NOW);
    let mut task = EpochTask { phase: EpochPhase::Settling, connected: true };
    let next = task.step(&mut node, EpochEvent::Settled);
    assert_eq!(next, order(EpochAction::Pull { epoch: EPOCH }));
    assert_eq!(task.phase, EpochPhase::Pulling { back: 1 });
}

#[test]
fn failed_nodes_are_skipped() {
    let mut node = Orbit::new(config(100, 4), NOW);
    let mut task = waiting(true);
    task.step(&mut node, EpochEvent::BoundaryReached);
    task.step(&mut node, EpochEvent::Settled);
    let next = task.step(&mut node, EpochEvent::PullFailed);
    let connect = EpochAction::Connect { back: 2, timeout_ms: 200 };
    assert_eq!(next, EpochOrder { close: true, action: connect });
    assert!(node.is_receiving());
    let next = task.step(&mut node, EpochEvent::ConnectFailed);
    assert_eq!(next, order(EpochAction::Connect { back: 3, timeout_ms: 200 }));
    let next = task.step(&mut node, EpochEvent::Connected);
    assert_eq!(next, order(EpochAction::Pull { epoch: EPOCH }));

    let table = table_of(4, EPOCH, &[(A, 70)]);
    let next = task.step(&mut node, EpochEvent::TablePulled(table));
    assert_eq!(next, EpochOrder { close: true, action: EpochAction::ReadClock });
    task.step(&mut node, EpochEvent::ClockRead(NOW + 1000));
    assert_eq!(task, waiting(false));
    assert_eq!(node.remaining(&A), 30);
    task.step(&mut node, EpochEvent::BoundaryReached);
    assert_eq!(pulled(pull(&mut node, EPOCH + 1)).tables.len(), 2);
}

#[test]
fn without_a_table_a_node_goes_by_its_own_allowance() {
    let mut node = Orbit::new(config(100, 3), NOW);
    let (mut task, _) = EpochTask::start(&mut node, NOW);
    task.step(&mut node, EpochEvent::BoundaryReached);
    task.step(&mut node, EpochEvent::Settled);
    let next = task.step(&mut node, EpochEvent::ConnectFailed);
    assert_eq!(next, order(EpochAction::Connect { back: 2, timeout_ms: 200 }));
    task.step(&mut node, EpochEvent::Connected);
    let next = task.step(&mut node, EpochEvent::PullFailed);
    assert_eq!(next, EpochOrder { close: true, action: EpochAction::ReadClock });
    task.step(&mut node, EpochEvent::ClockRead(NOW + 1000));
    assert_eq!(task, waiting(false));
    assert_eq!(node.check_and_increment(&A, 100, 0), Admission::Allowed);
    assert_eq!(node.check_and_increment(&A, 1, 0), Admission::RateLimited);

    assert!(node.can_turn_epoch());
    task.step(&mut node, EpochEvent::BoundaryReached);
    assert!(matches!(pull(&mut node, EPOCH + 1), Reply::Truncated));
    node.receive_table(table_of(3, EPOCH + 1, &[]));
    node.turn_epoch();
    pulled(pull(&mut node, EPOCH + 1));
}

#[test]
fn a_node_alone_tries_itself_only() {
    let mut node = Orbit::new(config(100, 1), NOW);
    let mut task = waiting(false);
    task.step(&mut node, EpochEvent::BoundaryReached);
    task.step(&mut node, EpochEvent::Settled);
    let next = task.step(&mut node, EpochEvent::ConnectFailed);
    assert_eq!(next, order(EpochAction::ReadClock));
    assert!(!node.is_receiving());
}

#[test]
fn a_shutdown_ends_every_wait() {
    let mut node = Orbit::new(config(100, 3), NOW);
    let (mut task, _) = EpochTask::start(&mut node, NOW);
    let next = task.step(&mut node, EpochEvent::ShutdownRequested);
    assert_eq!(next, order(EpochAction::Stop));
    assert_eq!(task, EpochTask { phase: EpochPhase::Stopped, connected: false });
    assert_eq!(node.current_epoch(), EPOCH);
    assert_eq!(node.check_and_increment(&A, 1, 0), Admission::Allowed);

    let mut task = waiting(true);
    let next = task.step(&mut node, EpochEvent::ShutdownRequested);
    assert_eq!(next, EpochOrder { close: true, action: EpochAction::Stop });
}

/// Runs a ring in which each node asks for as much as it can get of a demand, and gives
/// what each node was admitted in each epoch.
fn run_ring(
    limit: u64,
    nodes: usize,
    rounds: usize,
    demand: fn(usize, usize) -> u64,
    reserve: u64,
) -> Vec<Vec<u64>> {
    let mut ring: Vec<Orbit> =
        (0..nodes).map(|_| Orbit::new(config(limit, nodes as u64), NOW)).collect();
    let mut admitted = vec![vec![0u64; nodes]; rounds];
    for round in 0..rounds {
        for (k, node) in ring.iter_mut().enumerate() {
            for _ in 0..demand(k, round) {
                if node.check_and_increment(&A, 1, reserve) == Admission::Allowed {
                    admitted[round][k] += 1;
                }
            }
            node.turn_epoch();
        }
        let epoch = EPOCH + round as u64;
        for k in 0..nodes {
            let table = pulled(pull(&mut ring[(k + nodes - 1) % nodes], epoch));
            ring[k].receive_table(table);
            ring[k].start_epoch(NOW + 1000 * (round as u128 + 1));
        }
    }
    admitted
}

fn greatest_window(admitted: &[Vec<u64>], nodes: usize) -> u64 {
    admitted.windows(nodes).map(|w| w.iter().flatten().sum()).max().unwrap()
}

#[test]
fn the_global_cap_is_strict_and_can_be_reached() {
    for nodes in 1..6usize {
        let admitted = run_ring(20, nodes, 4 * nodes, |_, _| 25, 0);
        assert_eq!(greatest_window(&admitted, nodes), 20 * nodes as u64);
        let bursts = run_ring(20, nodes, 4 * nodes, |k, round| ((k * 7 + round * 5) % 23) as u64, 3);
        assert!(greatest_window(&bursts, nodes) <= 20 * nodes as u64);
    }
}

#[test]
fn a_node_sees_its_predecessors_one_epoch_back_each() {
    let admitted = run_ring(100, 3, 4, |k, round| if round == 0 { 30 } else { 10 * k as u64 }, 0);
    assert_eq!(admitted[0], vec![30, 30, 30]);
    assert_eq!(admitted[1], vec![0, 10, 20]);
    let full = run_ring(100, 3, 3, |_, _| 200, 0);
    assert_eq!(full, vec![vec![100, 100, 100], vec![0, 0, 0], vec![0, 0, 0]]);
}
