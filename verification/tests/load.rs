use orbit::load::{ports_before, ring_ports, NodeGain, RequestPacer, RequestTally, RingPorts, StatsReporter, BATCHES};

#[test]
fn ten_nodes_listen_on_successive_ports() {
    let ports = ring_ports(1110, 10);
    assert_eq!(ports.len(), 10);
    assert_eq!(ports[0], RingPorts { port: 1110, prev_port: 1119 });
    assert_eq!(ports[1], RingPorts { port: 1111, prev_port: 1110 });
    assert_eq!(ports[9], RingPorts { port: 1119, prev_port: 1118 });
}

#[test]
fn a_ring_of_one_pulls_from_itself() {
    assert_eq!(ring_ports(65535, 1), vec![RingPorts { port: 65535, prev_port: 65535 }]);
    assert!(ring_ports(0, 0).is_empty());
}

#[test]
fn the_nodes_before_are_listed_backwards() {
    assert_eq!(ports_before(1110, 4, 0), vec![1113, 1112, 1111]);
    assert_eq!(ports_before(1110, 4, 2), vec![1111, 1110, 1113]);
    assert_eq!(ports_before(1110, 2, 1), vec![1110]);
    assert_eq!(ports_before(1110, 1, 0), vec![1110]);
    for (i, ports) in ring_ports(1110, 7).iter().enumerate() {
        assert_eq!(ports_before(1110, 7, i as u64)[0], ports.prev_port);
    }
}

#[test]
fn every_port_is_pulled_from_once() {
    let ports = ring_ports(2000, 7);
    let mut pulled: Vec<u16> = ports.iter().map(|p| p.prev_port).collect();
    pulled.sort();
    assert_eq!(pulled, ports.iter().map(|p| p.port).collect::<Vec<u16>>());
}

#[test]
fn a_target_is_drawn_for_every_tenth_batch() {
    let mut pacer = RequestPacer::new(3007);
    assert_eq!(BATCHES, 10);
    for tick in 1..=40 {
        assert_eq!(pacer.tick(), tick % 10 == 0);
    }
    assert_eq!(pacer.batch_size(), 300);
    pacer.retarget(7000);
    assert_eq!(pacer.batch_size(), 700);
    assert_eq!(RequestPacer::new(9).batch_size(), 0);
}

#[test]
fn batches_start_a_tenth_of_the_last_target() {
    let draws = [3000u32, 7000, 4505];
    let mut pacer = RequestPacer::new(draws[0]);
    let mut drawn = 1;
    let mut started = 0;
    for _ in 1..=25 {
        if pacer.tick() {
            pacer.retarget(draws[drawn]);
            drawn += 1;
        }
        started += pacer.batch_size();
    }
    assert_eq!(started, 9 * 300 + 10 * 700 + 6 * 450);
}

#[test]
fn every_finished_call_moves_one_count() {
    let mut tally = RequestTally::new();
    let outcomes = [true, false, false, true, true, false, true];
    for (i, allowed) in outcomes.iter().enumerate() {
        let before = tally;
        tally.count(*allowed);
        assert_eq!(tally.allowed - before.allowed, *allowed as u64);
        assert_eq!(tally.denied - before.denied, !*allowed as u64);
        assert_eq!(tally.allowed + tally.denied, i as u64 + 1);
    }
    assert_eq!(tally, RequestTally { allowed: 4, denied: 3 });
    let mut full = RequestTally { allowed: u64::MAX, denied: 2 };
    full.count(true);
    assert_eq!(full, RequestTally { allowed: 0, denied: 2 });
}

#[test]
fn a_report_tells_what_is_new() {
    let mut stats = StatsReporter::new(2, 100, 10, 1000);
    assert_eq!(stats.strict_limit(), 1000);
    assert_eq!(stats.window_seconds(), 10);
    let report = stats.report(&vec![(5, 1), (0, 0)]);
    assert_eq!(report.gains, vec![
        NodeGain { allowed: 5, requests: 6 },
        NodeGain { allowed: 0, requests: 0 },
    ]);
    assert_eq!((report.total_allowed, report.total_requests), (5, 6));
    assert_eq!((report.window_total, report.window_len), (5, 1));
    let report = stats.report(&vec![(7, 1), (10, 20)]);
    assert_eq!(report.gains, vec![
        NodeGain { allowed: 2, requests: 2 },
        NodeGain { allowed: 10, requests: 30 },
    ]);
    assert_eq!((report.total_allowed, report.total_requests), (12, 32));
    assert_eq!((report.window_total, report.window_len), (17, 2));
}

#[test]
fn the_window_slides() {
    let mut stats = StatsReporter::new(1, 5, 3, 1000);
    let mut counted = 0;
    let mut totals = Vec::new();
    for second in 1..=6u64 {
        counted += second;
        totals.push(stats.report(&vec![(counted, 0)]).window_total);
    }
    assert_eq!(totals, vec![1, 3, 6, 9, 12, 15]);
}

#[test]
fn a_window_shorter_than_a_second_is_empty() {
    let mut stats = StatsReporter::new(1, 5, 3, 100);
    assert_eq!(stats.window_seconds(), 0);
    let report = stats.report(&vec![(9, 0)]);
    assert_eq!((report.total_allowed, report.window_total, report.window_len), (9, 0, 0));
}

#[test]
fn counters_that_shrink_or_overflow_are_told() {
    let mut stats = StatsReporter::new(1, 5, 3, 1000);
    assert!(!stats.can_report(&vec![]));
    assert!(stats.can_report(&vec![(u64::MAX, 0)]));
    assert!(!stats.can_report(&vec![(u64::MAX, 1)]));
    assert!(stats.can_report(&vec![(4, 4)]));
    stats.report(&vec![(4, 4)]);
    assert!(!stats.can_report(&vec![(3, 4)]));
    assert!(!stats.can_report(&vec![(4, 3)]));
    assert!(stats.can_report(&vec![(u64::MAX, 4)]));
    stats.report(&vec![(u64::MAX - 1, 4)]);
    assert!(stats.can_report(&vec![(u64::MAX, 4)]));

    let mut stats = StatsReporter::new(2, 5, 3, 1000);
    stats.report(&vec![(u64::MAX, 0), (0, 0)]);
    assert!(stats.can_report(&vec![(u64::MAX, 0), (0, 7)]));
    assert!(!stats.can_report(&vec![(u64::MAX, 0), (1, 0)]));
}
