use rustscan::host::{Host, Socket};
use rustscan::input::InputError;
use rustscan::report::{
    build_nmap_arguments, greppable_line, nmap_command, open_ports, ports_per_host, ports_string,
};

fn socket(host: Host, port: u16) -> Socket {
    Socket { host, port }
}

fn strings(texts: &[&str]) -> Vec<String> {
    texts.iter().map(|text| text.to_string()).collect()
}

#[test]
fn open_ports_come_in_rising_order() {
    let a = Host::v4(10, 0, 0, 1);
    let b = Host::V6(7);
    let open = vec![
        socket(a, 8080),
        socket(b, 22),
        socket(a, 80),
        socket(a, 65_535),
        socket(a, 443),
        socket(a, 80),
        socket(a, 1),
    ];
    assert_eq!(open_ports(a, &open), [1, 80, 443, 8080, 65_535]);
    assert_eq!(open_ports(b, &open), [22]);
    assert_eq!(open_ports(Host::V4(7), &open), []);
    assert_eq!(open_ports(a, &vec![]), []);
}

#[test]
fn hosts_are_sorted_by_what_was_found() {
    let a = Host::v4(10, 0, 0, 1);
    let b = Host::v4(10, 0, 0, 2);
    let c = Host::V6(3);
    let d = Host::v4(10, 0, 0, 4);
    let open = vec![socket(c, 443), socket(a, 22), socket(c, 80), socket(Host::V4(9), 9)];
    let report = ports_per_host(&vec![a, b, c, a, d, b], &open);
    assert_eq!(report.found.len(), 2);
    assert_eq!(report.found[0].host, a);
    assert_eq!(report.found[0].ports, [22]);
    assert_eq!(report.found[1].host, c);
    assert_eq!(report.found[1].ports, [80, 443]);
    assert_eq!(report.silent, [b, d, b]);
}

#[test]
fn nothing_scanned_nothing_reported() {
    let report = ports_per_host(&vec![], &vec![socket(Host::V4(1), 1)]);
    assert!(report.found.is_empty());
    assert!(report.silent.is_empty());
}

#[test]
fn ports_are_joined_with_commas() {
    assert_eq!(ports_string(&vec![80, 443]), "80,443");
    assert_eq!(ports_string(&vec![0, 7, 10, 65_535, 1_000]), "0,7,10,65535,1000");
    assert_eq!(ports_string(&vec![22]), "22");
    assert_eq!(ports_string(&vec![]), "");
}

#[test]
fn greppable_line_names_host_and_ports() {
    assert_eq!(greppable_line("127.0.0.1", "80,443"), "127.0.0.1 -> [80,443]");
    assert_eq!(greppable_line("::1", ""), "::1 -> []");
}

#[test]
fn nmap_arguments_end_with_ports_and_address() {
    let user_args = strings(&["-A", "-sV"]);
    assert_eq!(
        build_nmap_arguments("127.0.0.1", "80,443", &user_args, false),
        ["-A", "-sV", "-vvv", "-p", "80,443", "127.0.0.1"]
    );
    assert_eq!(
        build_nmap_arguments("::1", "22", &user_args, true),
        ["-A", "-sV", "-vvv", "-6", "-p", "22", "::1"]
    );
    assert_eq!(
        build_nmap_arguments("10.0.0.1", "1", &vec![], false),
        ["-vvv", "-p", "1", "10.0.0.1"]
    );
}

#[test]
fn user_arguments_are_split_like_a_shell_does() {
    let command = strings(&["-A", "--script", "'http title'", "-oN \"my file\""]);
    assert_eq!(
        nmap_command(&command, "10.0.0.1", "80", false),
        Ok(strings(&["-A", "--script", "http title", "-oN", "my file", "-vvv", "-p", "80", "10.0.0.1"]))
    );
    assert_eq!(
        nmap_command(&strings(&["a\\ b", "  c  "]), "::1", "1,2", true),
        Ok(strings(&["a b", "c", "-vvv", "-6", "-p", "1,2", "::1"]))
    );
    assert_eq!(
        nmap_command(&vec![], "10.0.0.1", "80", false),
        Ok(strings(&["-vvv", "-p", "80", "10.0.0.1"]))
    );
}

#[test]
fn open_quotation_is_an_error() {
    assert_eq!(
        nmap_command(&strings(&["-A", "'open"]), "10.0.0.1", "80", false),
        Err(InputError::UnclosedQuote)
    );
    assert_eq!(
        nmap_command(&strings(&["\"a", "b\""]), "10.0.0.1", "80", false),
        Ok(strings(&["a b", "-vvv", "-p", "80", "10.0.0.1"]))
    );
}
