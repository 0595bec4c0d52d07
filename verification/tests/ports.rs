use rustscan::host::{Host, Socket};
use rustscan::input::{parse_port, parse_ports, parse_range, InputError, PortRange, ScanOrder};
use rustscan::planner::{plan, plan_ports};
use rustscan::port_strategy::{PortSpec, PortStrategy};

fn pick(range: Option<(u16, u16)>, ports: Option<Vec<u16>>, order: ScanOrder) -> PortStrategy {
    let range = range.map(|(start, end)| PortRange { start, end });
    PortStrategy::pick(range, ports, order).unwrap()
}

fn pick_error(range: Option<(u16, u16)>, ports: Option<Vec<u16>>) -> InputError {
    let range = range.map(|(start, end)| PortRange { start, end });
    PortStrategy::pick(range, ports, ScanOrder::Serial).unwrap_err()
}

#[test]
fn serial_range_counts_up() {
    let strategy = pick(Some((1, 100)), None, ScanOrder::Serial);
    let expected: Vec<u16> = (1..=100).collect();
    assert_eq!(strategy.ports(), expected);
    assert_eq!(pick(Some((443, 443)), None, ScanOrder::Serial).ports(), [443]);
    assert_eq!(pick(Some((65_534, 65_535)), None, ScanOrder::Serial).ports(), [65_534, 65_535]);
}

#[test]
fn serial_range_is_the_same_every_time() {
    let strategy = pick(Some((20, 25)), None, ScanOrder::Serial);
    assert_eq!(strategy.ports(), [20, 21, 22, 23, 24, 25]);
    assert_eq!(strategy.ports(), strategy.ports());
}

#[test]
fn whole_range_has_every_port_once() {
    let strategy = pick(Some((1, 65_535)), None, ScanOrder::Random);
    let mut ports = strategy.ports();
    assert_eq!(ports.len(), 65_535);
    ports.sort();
    let expected: Vec<u16> = (1..=65_535).collect();
    assert_eq!(ports, expected);
}

#[test]
fn random_range_is_a_permutation() {
    let strategy = pick(Some((1, 1000)), None, ScanOrder::Random);
    let first = strategy.ports();
    let second = strategy.ports();
    let serial: Vec<u16> = (1..=1000).collect();
    assert_ne!(first, serial);
    assert_ne!(first, second);
    let mut sorted = first.clone();
    sorted.sort();
    assert_eq!(sorted, serial);
    let mut sorted = second.clone();
    sorted.sort();
    assert_eq!(sorted, serial);
}

#[test]
fn serial_list_keeps_the_order_given() {
    let strategy = pick(None, Some(vec![80, 443, 22]), ScanOrder::Serial);
    assert_eq!(strategy.ports(), [80, 443, 22]);
    assert_eq!(strategy.ports(), [80, 443, 22]);
}

#[test]
fn random_list_is_a_permutation() {
    let list: Vec<u16> = (1..=500).map(|port| port * 7).collect();
    let strategy = pick(None, Some(list.clone()), ScanOrder::Random);
    let shuffled = strategy.ports();
    assert_ne!(shuffled, list);
    let mut sorted = shuffled;
    sorted.sort();
    assert_eq!(sorted, list);
}

#[test]
fn short_lists_shuffle_too() {
    assert_eq!(pick(None, Some(vec![]), ScanOrder::Random).ports(), []);
    assert_eq!(pick(None, Some(vec![8080]), ScanOrder::Random).ports(), [8080]);
    let mut two = pick(None, Some(vec![2, 1]), ScanOrder::Random).ports();
    two.sort();
    assert_eq!(two, [1, 2]);
}

#[test]
fn list_counts_before_range() {
    let strategy = pick(Some((1, 10)), Some(vec![5, 3]), ScanOrder::Serial);
    assert_eq!(strategy.ports(), [5, 3]);
    assert!(matches!(strategy.spec, PortSpec::List(_)));
    assert_eq!(strategy.order, ScanOrder::Serial);
    let strategy = pick(Some((7, 9)), None, ScanOrder::Random);
    assert!(matches!(strategy.spec, PortSpec::Range(PortRange { start: 7, end: 9 })));
    assert_eq!(strategy.order, ScanOrder::Random);
}

#[test]
fn pick_turns_down_ports_that_cannot_be_scanned() {
    assert_eq!(pick_error(None, None), InputError::NoPorts);
    assert_eq!(pick_error(Some((0, 10)), None), InputError::PortZero);
    assert_eq!(pick_error(Some((0, 0)), None), InputError::PortZero);
    assert_eq!(pick_error(Some((10, 9)), None), InputError::EmptyRange);
    assert_eq!(pick_error(None, Some(vec![1, 0, 1])), InputError::PortZero);
    assert_eq!(pick_error(None, Some(vec![1, 2, 1])), InputError::RepeatedPort);
    assert_eq!(pick_error(Some((1, 10)), Some(vec![7, 7])), InputError::RepeatedPort);
}

#[test]
fn invalid_range_made_by_hand_yields_nothing() {
    let strategy = PortStrategy {
        spec: PortSpec::Range(PortRange { start: 10, end: 9 }),
        order: ScanOrder::Random,
    };
    assert_eq!(strategy.ports(), []);
}

#[test]
fn plan_pairs_each_host_with_each_port() {
    let hosts = vec![Host::v4(10, 0, 0, 1), Host::V6(1), Host::v4(10, 0, 0, 2)];
    let ports = vec![443, 80];
    let expected = vec![
        Socket { host: hosts[0], port: 443 },
        Socket { host: hosts[0], port: 80 },
        Socket { host: hosts[1], port: 443 },
        Socket { host: hosts[1], port: 80 },
        Socket { host: hosts[2], port: 443 },
        Socket { host: hosts[2], port: 80 },
    ];
    assert_eq!(plan_ports(&hosts, &ports), Some(expected.clone()));
    let strategy = pick(None, Some(ports), ScanOrder::Serial);
    assert_eq!(plan(&hosts, &strategy), Ok(expected));
}

#[test]
fn plan_length_is_hosts_times_ports() {
    let hosts: Vec<Host> = (0..7).map(Host::V4).collect();
    for order in [ScanOrder::Serial, ScanOrder::Random] {
        let strategy = pick(Some((100, 130)), None, order);
        let sockets = plan(&hosts, &strategy).unwrap();
        assert_eq!(sockets.len(), 7 * 31);
        for (place, socket) in sockets.iter().enumerate() {
            assert_eq!(socket.host, hosts[place / 31]);
            assert!(socket.port >= 100 && socket.port <= 130);
        }
        for host in 0..7 {
            let mut ports: Vec<u16> =
                sockets[host * 31..(host + 1) * 31].iter().map(|socket| socket.port).collect();
            ports.sort();
            let expected: Vec<u16> = (100..=130).collect();
            assert_eq!(ports, expected);
        }
    }
}

#[test]
fn plan_without_hosts_or_ports_is_empty() {
    let strategy = pick(Some((1, 10)), None, ScanOrder::Serial);
    assert_eq!(plan(&vec![], &strategy), Ok(vec![]));
    let nothing = pick(None, Some(vec![]), ScanOrder::Serial);
    assert_eq!(plan(&vec![Host::V6(1), Host::V6(2)], &nothing), Ok(vec![]));
    assert_eq!(plan_ports(&vec![], &vec![]), Some(vec![]));
}

#[test]
fn ports_are_read_from_text() {
    assert_eq!(parse_port("80"), Some(80));
    assert_eq!(parse_port("0"), Some(0));
    assert_eq!(parse_port("00443"), Some(443));
    assert_eq!(parse_port("65535"), Some(65_535));
    assert_eq!(parse_port("65536"), None);
    assert_eq!(parse_port("99999999999999999999"), None);
    assert_eq!(parse_port(""), None);
    assert_eq!(parse_port("+80"), None);
    assert_eq!(parse_port("8 0"), None);
    assert_eq!(parse_port("80a"), None);
    assert_eq!(parse_port("٣"), None);
}

#[test]
fn port_lists_are_read_from_text() {
    assert_eq!(parse_ports("80,443,8080"), Ok(vec![80, 443, 8080]));
    assert_eq!(parse_ports("22"), Ok(vec![22]));
    assert_eq!(parse_ports("1,1"), Ok(vec![1, 1]));
    assert_eq!(parse_ports(""), Err(InputError::MalformedPorts));
    assert_eq!(parse_ports("80,"), Err(InputError::MalformedPorts));
    assert_eq!(parse_ports(",80"), Err(InputError::MalformedPorts));
    assert_eq!(parse_ports("80,,443"), Err(InputError::MalformedPorts));
    assert_eq!(parse_ports("80,http"), Err(InputError::MalformedPorts));
    assert_eq!(parse_ports("http,80"), Err(InputError::MalformedPorts));
    assert_eq!(parse_ports("80, 443"), Err(InputError::MalformedPorts));
    assert_eq!(parse_ports("80,70000"), Err(InputError::MalformedPorts));
}

#[test]
fn ranges_are_read_from_text() {
    assert_eq!(parse_range("1-1000"), Ok(PortRange { start: 1, end: 1000 }));
    assert_eq!(parse_range("1-65535"), Ok(PortRange { start: 1, end: 65_535 }));
    assert_eq!(parse_range("9-3"), Ok(PortRange { start: 9, end: 3 }));
    assert_eq!(parse_range("100"), Err(InputError::MalformedRange));
    assert_eq!(parse_range("1-2-3"), Err(InputError::MalformedRange));
    assert_eq!(parse_range("-5"), Err(InputError::MalformedRange));
    assert_eq!(parse_range("5-"), Err(InputError::MalformedRange));
    assert_eq!(parse_range("1-65536"), Err(InputError::MalformedRange));
    assert_eq!(parse_range("a-b"), Err(InputError::MalformedRange));
    assert_eq!(parse_range(""), Err(InputError::MalformedRange));
}

#[test]
fn errors_tell_what_is_wrong() {
    assert_eq!(InputError::NoPorts.message(), "no ports were chosen");
    assert_eq!(InputError::PortZero.message(), "port 0 cannot be scanned");
    assert_eq!(InputError::EmptyRange.message(), "the range of ports starts above its end");
    assert_eq!(InputError::RepeatedPort.message(), "a port is listed twice");
    assert_eq!(InputError::ZeroBatchSize.message(), "the batch size must be at least 1");
    assert_eq!(InputError::ZeroTries.message(), "the number of tries must be at least 1");
    assert_eq!(
        InputError::PlanTooLarge.message(),
        "there are too many hosts and ports for one scan"
    );
    assert_eq!(
        InputError::UnclosedQuote.message(),
        "a quotation in the arguments is not closed"
    );
    assert_eq!(
        InputError::MalformedPorts.message(),
        "the ports must be numbers up to 65535 with commas between them, as in 80,443"
    );
    assert_eq!(
        InputError::MalformedRange.message(),
        "the range must be of the form start-end, as in 1-1000"
    );
}

#[test]
fn all_ports_are_scanned_where_none_were_chosen() {
    let mut opts = rustscan::input::Opts::default();
    assert_eq!(opts.chosen_range(), Some(PortRange { start: 1, end: 65_535 }));
    opts.ports = Some(vec![80]);
    assert_eq!(opts.chosen_range(), None);
    opts.range = Some(PortRange { start: 5, end: 6 });
    assert_eq!(opts.chosen_range(), Some(PortRange { start: 5, end: 6 }));
    opts.ports = None;
    assert_eq!(opts.chosen_range(), Some(PortRange { start: 5, end: 6 }));
}
