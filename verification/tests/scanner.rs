use rustscan::host::{Host, Socket};
use rustscan::input::{InputError, PortRange, ScanOrder};
use rustscan::port_strategy::PortStrategy;
use rustscan::scanner::{ProbeOutcome, Scanner};
use std::time::Duration;

const TIMEOUT: Duration = Duration::from_millis(500);
const LOCALHOST: Host = Host::V4(0x7f00_0001);
const LOCALHOST_V6: Host = Host::V6(1);

fn range(start: u16, end: u16, order: ScanOrder) -> PortStrategy {
    PortStrategy::pick(Some(PortRange { start, end }), None, order).unwrap()
}

fn scanner(hosts: &[Host], batch_size: u16, tries: u8, strategy: PortStrategy) -> Scanner {
    Scanner::new(&hosts.to_vec(), batch_size, TIMEOUT, tries, true, strategy, false).unwrap()
}

/// Runs the scan against the given listeners, with the outcomes of each
/// window handed in back to front, and returns the open sockets with the
/// sizes of the windows.
fn run(mut scanner: Scanner, listening: &[Socket]) -> (Vec<Socket>, Vec<usize>) {
    let mut windows = Vec::new();
    while !scanner.is_finished() {
        let window = scanner.window();
        assert!(!window.is_empty());
        assert!(window.len() <= scanner.batch_size() as usize);
        windows.push(window.len());
        let mut outcomes: Vec<ProbeOutcome> = window
            .iter()
            .map(|socket| {
                if listening.contains(socket) {
                    ProbeOutcome::Open(*socket)
                } else {
                    ProbeOutcome::Unreachable
                }
            })
            .collect();
        outcomes.reverse();
        scanner.record(&outcomes);
        assert!(windows.len() < 100_000);
    }
    assert!(scanner.window().is_empty());
    (scanner.into_open_sockets(), windows)
}

/// A probe that finds the given listeners.
fn listeners(listening: &[Socket]) -> impl Fn(Vec<Socket>) -> Vec<ProbeOutcome> + '_ {
    move |window| {
        window
            .into_iter()
            .map(|socket| {
                if listening.contains(&socket) {
                    ProbeOutcome::Open(socket)
                } else {
                    ProbeOutcome::Unreachable
                }
            })
            .collect()
    }
}

#[test]
fn run_finds_the_listener() {
    let port = 8080;
    let listener = Socket { host: LOCALHOST, port };
    let found = scanner(&[LOCALHOST], 1, 1, range(port, port, ScanOrder::Serial))
        .run(listeners(&[listener]));
    assert_eq!(found, [listener]);
}

#[test]
fn run_without_listeners_finds_nothing() {
    let windows = std::cell::Cell::new(0);
    let found = scanner(&[LOCALHOST], 30, 1, range(1, 100, ScanOrder::Serial)).run(|window| {
        windows.set(windows.get() + 1);
        assert!(window.len() <= 30);
        Vec::new()
    });
    assert_eq!(found, []);
    assert_eq!(windows.get(), 4);
}

#[test]
fn run_never_has_more_than_a_batch_in_flight() {
    let hosts = [LOCALHOST, LOCALHOST_V6, Host::v4(10, 0, 0, 1)];
    let in_flight = std::cell::Cell::new(0usize);
    let most = std::cell::Cell::new(0usize);
    let probed = std::cell::Cell::new(0usize);
    let found = scanner(&hosts, 16, 2, range(1, 100, ScanOrder::Random)).run(|window| {
        assert_eq!(in_flight.get(), 0);
        in_flight.set(window.len());
        most.set(most.get().max(in_flight.get()));
        probed.set(probed.get() + window.len());
        let outcomes =
            window.iter().filter(|socket| socket.port == 7).map(|s| ProbeOutcome::Open(*s));
        let outcomes = outcomes.collect();
        in_flight.set(0);
        outcomes
    });
    assert_eq!(most.get(), 16);
    assert_eq!(probed.get(), 2 * 3 * 100);
    assert_eq!(
        found,
        [
            Socket { host: hosts[0], port: 7 },
            Socket { host: hosts[1], port: 7 },
            Socket { host: hosts[2], port: 7 }
        ]
    );
}

#[test]
fn run_finds_once_what_opens_on_the_second_try() {
    let listener = Socket { host: LOCALHOST, port: 22 };
    let calls = std::cell::Cell::new(0);
    let found = scanner(&[LOCALHOST], 10, 2, range(20, 25, ScanOrder::Serial)).run(|window| {
        calls.set(calls.get() + 1);
        assert_eq!(window.len(), 6);
        if calls.get() == 1 {
            vec![ProbeOutcome::Unreachable; 6]
        } else {
            vec![ProbeOutcome::Open(listener)]
        }
    });
    assert_eq!(calls.get(), 2);
    assert_eq!(found, [listener]);
}

#[test]
fn run_finds_the_same_in_random_order() {
    let listening = [
        Socket { host: LOCALHOST, port: 2 },
        Socket { host: LOCALHOST, port: 7 },
        Socket { host: LOCALHOST, port: 10 },
    ];
    let serial =
        scanner(&[LOCALHOST], 4, 1, range(1, 10, ScanOrder::Serial)).run(listeners(&listening));
    let mut random =
        scanner(&[LOCALHOST], 4, 1, range(1, 10, ScanOrder::Random)).run(listeners(&listening));
    random.sort_by_key(|socket| socket.port);
    assert_eq!(serial, listening);
    assert_eq!(random, listening);
}

#[test]
fn run_scans_version_six_hosts_alike() {
    let port = 9000;
    let listener = Socket { host: LOCALHOST_V6, port };
    let found = scanner(&[LOCALHOST_V6], 1, 1, range(port, port, ScanOrder::Serial))
        .run(listeners(&[listener, Socket { host: LOCALHOST, port }]));
    assert_eq!(found, [listener]);
}

#[test]
fn one_listener_one_port() {
    let port = 8080;
    let scanner = scanner(&[LOCALHOST], 1, 1, range(port, port, ScanOrder::Serial));
    assert_eq!(scanner.timeout(), Duration::from_millis(500));
    assert!(scanner.greppable());
    assert!(!scanner.accessible());
    let listener = Socket { host: LOCALHOST, port };
    let (open, windows) = run(scanner, &[listener]);
    assert_eq!(open, [listener]);
    assert_eq!(windows, [1]);
}

#[test]
fn no_listeners_nothing_open() {
    let scanner = scanner(&[LOCALHOST], 30, 1, range(1, 100, ScanOrder::Serial));
    let (open, windows) = run(scanner, &[]);
    assert_eq!(open, []);
    assert_eq!(windows, [30, 30, 30, 10]);
}

#[test]
fn windows_hold_the_plan_in_its_order() {
    let hosts = [Host::v4(10, 0, 0, 1), Host::v4(10, 0, 0, 2)];
    let mut scanner = scanner(&hosts, 3, 1, range(1, 4, ScanOrder::Serial));
    let socket = |host: usize, port: u16| Socket { host: hosts[host], port };
    assert_eq!(scanner.window(), [socket(0, 1), socket(0, 2), socket(0, 3)]);
    assert_eq!(scanner.window(), [socket(0, 1), socket(0, 2), socket(0, 3)]);
    scanner.record(&vec![]);
    assert_eq!(scanner.window(), [socket(0, 4), socket(1, 1), socket(1, 2)]);
    scanner.record(&vec![ProbeOutcome::Unreachable]);
    assert_eq!(scanner.window(), [socket(1, 3), socket(1, 4)]);
    assert!(!scanner.is_finished());
    scanner.record(&vec![ProbeOutcome::Open(socket(1, 4))]);
    assert!(scanner.is_finished());
    assert_eq!(scanner.window(), []);
    assert_eq!(scanner.open_sockets(), &vec![socket(1, 4)]);
}

#[test]
fn every_try_goes_through_the_whole_plan() {
    let scanner = scanner(&[LOCALHOST, LOCALHOST_V6], 4, 3, range(1, 5, ScanOrder::Serial));
    assert_eq!(scanner.tries(), 3);
    let (open, windows) = run(scanner, &[]);
    assert_eq!(open, []);
    assert_eq!(windows, [4, 4, 2, 4, 4, 2, 4, 4, 2]);
}

#[test]
fn port_that_opens_on_the_second_try_is_found_once() {
    let port = 22;
    let listener = Socket { host: LOCALHOST, port };
    let mut scanner = scanner(&[LOCALHOST], 10, 2, range(20, 25, ScanOrder::Serial));
    assert_eq!(scanner.window().len(), 6);
    scanner.record(&vec![ProbeOutcome::Unreachable; 6]);
    assert_eq!(scanner.open_sockets(), &vec![]);
    assert!(!scanner.is_finished());
    assert_eq!(scanner.window().len(), 6);
    scanner.record(&vec![ProbeOutcome::Open(listener)]);
    assert!(scanner.is_finished());
    assert_eq!(scanner.into_open_sockets(), [listener]);
}

#[test]
fn port_that_is_open_on_every_try_is_found_once() {
    let listener = Socket { host: LOCALHOST, port: 3 };
    let scanner = scanner(&[LOCALHOST], 2, 4, range(1, 5, ScanOrder::Serial));
    let (open, windows) = run(scanner, &[listener]);
    assert_eq!(open, [listener]);
    assert_eq!(windows.len(), 12);
}

#[test]
fn the_same_outcome_twice_counts_once() {
    let listener = Socket { host: LOCALHOST, port: 2 };
    let other = Socket { host: LOCALHOST, port: 1 };
    let mut scanner = scanner(&[LOCALHOST], 5, 1, range(1, 3, ScanOrder::Serial));
    scanner.record(&vec![
        ProbeOutcome::Open(listener),
        ProbeOutcome::Open(other),
        ProbeOutcome::Open(listener),
        ProbeOutcome::Unreachable,
        ProbeOutcome::Open(other),
    ]);
    assert_eq!(scanner.into_open_sockets(), [listener, other]);
}

#[test]
fn outcomes_from_outside_the_window_count_for_nothing() {
    let mut scanner = scanner(&[LOCALHOST], 2, 1, range(1, 4, ScanOrder::Serial));
    scanner.record(&vec![
        ProbeOutcome::Open(Socket { host: LOCALHOST, port: 3 }),
        ProbeOutcome::Open(Socket { host: LOCALHOST, port: 9 }),
        ProbeOutcome::Open(Socket { host: LOCALHOST_V6, port: 1 }),
        ProbeOutcome::Open(Socket { host: LOCALHOST, port: 2 }),
    ]);
    assert_eq!(scanner.open_sockets(), &vec![Socket { host: LOCALHOST, port: 2 }]);
    scanner.record(&vec![ProbeOutcome::Open(Socket { host: LOCALHOST, port: 1 })]);
    assert!(scanner.is_finished());
    scanner.record(&vec![ProbeOutcome::Open(Socket { host: LOCALHOST, port: 4 })]);
    assert_eq!(scanner.into_open_sockets(), [Socket { host: LOCALHOST, port: 2 }]);
}

#[test]
fn random_order_finds_what_serial_order_finds() {
    let listeners = [
        Socket { host: LOCALHOST, port: 2 },
        Socket { host: LOCALHOST, port: 7 },
        Socket { host: LOCALHOST, port: 10 },
        Socket { host: LOCALHOST, port: 11 },
    ];
    let serial = scanner(&[LOCALHOST], 3, 1, range(1, 10, ScanOrder::Serial));
    let random = scanner(&[LOCALHOST], 3, 1, range(1, 10, ScanOrder::Random));
    let (mut found_serial, _) = run(serial, &listeners);
    let (mut found_random, _) = run(random, &listeners);
    assert_eq!(found_serial, listeners[..3]);
    found_serial.sort_by_key(|socket| socket.port);
    found_random.sort_by_key(|socket| socket.port);
    assert_eq!(found_serial, found_random);
}

#[test]
fn version_six_hosts_are_scanned_alike() {
    let port = 9000;
    let scanner = scanner(&[LOCALHOST_V6], 1, 1, range(port, port, ScanOrder::Serial));
    let listener = Socket { host: LOCALHOST_V6, port };
    let (open, _) = run(scanner, &[listener, Socket { host: LOCALHOST, port }]);
    assert_eq!(open, [listener]);
}

#[test]
fn open_sockets_are_of_the_hosts_and_ports_asked_for() {
    let hosts = [Host::v4(10, 0, 0, 1), Host::v4(10, 0, 0, 2), LOCALHOST_V6];
    let listeners: Vec<Socket> = (1..200)
        .map(|n: u16| Socket { host: Host::v4(10, 0, 0, (n % 4) as u8), port: n })
        .collect();
    let scanner = scanner(&hosts, 7, 2, range(50, 120, ScanOrder::Random));
    let (open, windows) = run(scanner, &listeners);
    assert!(windows.iter().all(|len| *len <= 7));
    assert_eq!(windows.len(), 2 * ((3 * 71 + 6) / 7));
    for socket in &open {
        assert!(hosts.contains(&socket.host));
        assert!(socket.port >= 50 && socket.port <= 120);
        assert!(listeners.contains(socket));
    }
    let expected = listeners
        .iter()
        .filter(|socket| hosts.contains(&socket.host) && socket.port >= 50 && socket.port <= 120)
        .count();
    assert_eq!(open.len(), expected);
}

#[test]
fn empty_plan_is_over_at_once() {
    let nothing = PortStrategy::pick(None, Some(vec![]), ScanOrder::Serial).unwrap();
    let scanner = scanner(&[LOCALHOST], 10, 3, nothing);
    assert!(scanner.is_finished());
    assert_eq!(scanner.window(), []);
    let mut scanner = Scanner::new(
        &vec![],
        10,
        TIMEOUT,
        1,
        false,
        range(1, 10, ScanOrder::Serial),
        true,
    )
    .unwrap();
    assert!(scanner.is_finished());
    assert!(!scanner.greppable());
    assert!(scanner.accessible());
    scanner.record(&vec![ProbeOutcome::Open(Socket { host: LOCALHOST, port: 1 })]);
    assert_eq!(scanner.into_open_sockets(), []);
}

#[test]
fn settings_without_sense_are_turned_down() {
    let hosts = vec![LOCALHOST];
    let new = |batch_size: u16, tries: u8| {
        Scanner::new(&hosts, batch_size, TIMEOUT, tries, false, range(1, 2, ScanOrder::Serial), false)
            .map(|scanner| scanner.batch_size())
    };
    assert_eq!(new(0, 1), Err(InputError::ZeroBatchSize));
    assert_eq!(new(0, 0), Err(InputError::ZeroBatchSize));
    assert_eq!(new(1, 0), Err(InputError::ZeroTries));
    assert_eq!(new(1, 1), Ok(1));
    assert_eq!(new(65_535, 255), Ok(65_535));
}
