//! The result of a scan, as it is shown and handed on: the open ports of each
//! host, and the arguments for the fingerprinting tool.

use crate::host::{Host, Socket};
use crate::input::InputError;
use crate::text::{append_decimal, decimal, join, joined, slices_of, texts_of};
use vstd::prelude::*;
use vstd::string::StringExecFns;

verus! {

/// The open ports of one host.
#[derive(Clone, Debug)]
pub struct HostPorts {
    pub host: Host,
    /// The ports in rising order.
    pub ports: Vec<u16>,
}

/// The hosts of a scan by what was found on them.
#[derive(Clone, Debug)]
pub struct ScanReport {
    /// The hosts with open ports, in the order in which the scan was given
    /// them, each once.
    pub found: Vec<HostPorts>,
    /// The hosts on which nothing was found open, in the order given.
    pub silent: Vec<Host>,
}

/// Whether any of the open sockets is on `host`.
pub open spec fn has_open_port(host: Host, open: Seq<Socket>) -> bool {
    exists|port: u16| open.contains(Socket { host, port })
}

/// Whether the ports rise from each to the next.
pub open spec fn rising(ports: Seq<u16>) -> bool {
    forall|a: int, b: int| 0 <= a < b < ports.len() ==> ports[a] < ports[b]
}

/// Whether `ports` are the open ports of `host` in rising order, each once.
pub open spec fn is_port_list(ports: Seq<u16>, host: Host, open: Seq<Socket>) -> bool {
    &&& rising(ports)
    &&& forall|port: u16| ports.contains(port) <==> open.contains(Socket { host, port })
}

/// The hosts that have an open port, in the order of `hosts`, each where it
/// stands first.
pub open spec fn hosts_with_open_ports(hosts: Seq<Host>, open: Seq<Socket>) -> Seq<Host>
    decreases hosts.len(),
{
    if hosts.len() == 0 {
        Seq::empty()
    } else {
        let earlier = hosts.drop_last();
        let listed = hosts_with_open_ports(earlier, open);
        if has_open_port(hosts.last(), open) && !earlier.contains(hosts.last()) {
            listed.push(hosts.last())
        } else {
            listed
        }
    }
}

/// The hosts without an open port, as often as they stand in `hosts`.
pub open spec fn silent_hosts(hosts: Seq<Host>, open: Seq<Socket>) -> Seq<Host> {
    hosts.filter(|host: Host| !has_open_port(host, open))
}

/// A host is listed with open ports exactly if it is one of the hosts and
/// has one.
pub proof fn lemma_hosts_with_open_ports(hosts: Seq<Host>, open: Seq<Socket>, host: Host)
    ensures
        hosts_with_open_ports(hosts, open).contains(host) <==> hosts.contains(host)
            && has_open_port(host, open),
        hosts_with_open_ports(hosts, open).no_duplicates(),
    decreases hosts.len(),
{
    let all = hosts_with_open_ports(hosts, open);
    if hosts.len() > 0 {
        let earlier = hosts.drop_last();
        let listed = hosts_with_open_ports(earlier, open);
        lemma_hosts_with_open_ports(earlier, open, host);
        lemma_hosts_with_open_ports(earlier, open, hosts.last());
        if listed.contains(host) {
            let k = listed.index_of(host);
            assert(all[k] == host);
        }
        if hosts.contains(host) && has_open_port(host, open) {
            let k = hosts.index_of(host);
            if k < hosts.len() - 1 {
                assert(earlier[k] == host);
            } else if !earlier.contains(host) {
                assert(all[all.len() - 1] == host);
            }
        }
    }
}

/// Two lists of the open ports of a host are one and the same.
pub proof fn lemma_port_list_is_unique(first: Seq<u16>, second: Seq<u16>, host: Host, open: Seq<Socket>)
    requires
        is_port_list(first, host, open),
        is_port_list(second, host, open),
    ensures
        first == second,
    decreases first.len(),
{
    if first.len() == 0 {
        if second.len() > 0 {
            assert(second.contains(second[0]));
            assert(first.contains(second[0]));
        }
    } else {
        let top = first.last();
        assert(first.contains(top));
        assert(second.contains(top));
        let at = second.index_of(top);
        if at < second.len() - 1 {
            let above = second.last();
            assert(second.contains(above));
            assert(first.contains(above));
        }
        let less = first.drop_last();
        let other = second.drop_last();
        assert forall|port: u16| less.contains(port) <==> other.contains(port) by {
            if less.contains(port) {
                let k = less.index_of(port);
                assert(first[k] == port && first.contains(port));
                assert(second.contains(port));
                let j = second.index_of(port);
                assert(other[j] == port);
            }
            if other.contains(port) {
                let k = other.index_of(port);
                assert(second[k] == port && second.contains(port));
                assert(first.contains(port));
                let j = first.index_of(port);
                assert(less[j] == port);
            }
        }
        let sockets = Seq::new(less.len(), |i: int| Socket { host, port: less[i] });
        assert(is_port_list(less, host, sockets)) by {
            assert forall|port: u16| less.contains(port) <==> sockets.contains(
                Socket { host, port },
            ) by {
                if less.contains(port) {
                    let k = less.index_of(port);
                    assert(sockets[k] == Socket { host, port });
                }
                if sockets.contains(Socket { host, port }) {
                    let k = sockets.index_of(Socket { host, port });
                    assert(less[k] == port);
                }
            }
        }
        lemma_port_list_is_unique(less, other, host, sockets);
        assert(first =~= less.push(top));
    }
}

/// Where the same sockets are open, the lists of the open ports of a host
/// are the same, in whatever order the sockets were found.
pub proof fn lemma_port_lists_agree(
    first: Seq<u16>,
    second: Seq<u16>,
    host: Host,
    first_open: Seq<Socket>,
    second_open: Seq<Socket>,
)
    requires
        forall|socket: Socket| first_open.contains(socket) <==> second_open.contains(socket),
        is_port_list(first, host, first_open),
        is_port_list(second, host, second_open),
    ensures
        first == second,
{
    lemma_port_list_is_unique(first, second, host, first_open);
}

/// Puts `port` at its place among the rising `ports`, unless it is there.
fn insert_port(ports: &mut Vec<u16>, port: u16)
    requires
        rising(old(ports)@),
    ensures
        rising(final(ports)@),
        forall|p: u16| final(ports)@.contains(p) <==> old(ports)@.contains(p) || p == port,
{
    let mut at: usize = 0;
    while at < ports.len() && ports[at] < port
        invariant
            at <= ports.len(),
            ports@ == old(ports)@,
            forall|k: int| 0 <= k < at ==> ports@[k] < port,
        decreases ports.len() - at,
    {
        at = at + 1;
    }
    let ghost before = ports@;
    if at < ports.len() && ports[at] == port {
        return ;
    }
    ports.insert(at, port);
    assert forall|p: u16| #[trigger] ports@.contains(p) <==> old(ports)@.contains(p) || p == port by {
        if before.contains(p) {
            let k = before.index_of(p);
            if k < at {
                assert(ports@[k] == p);
            } else {
                assert(ports@[k + 1] == p);
            }
        }
        if p == port {
            assert(ports@[at as int] == p);
        }
    }
    assert forall|a: int, b: int| 0 <= a < b < ports@.len() implies ports@[a] < ports@[b] by {}
}

/// The open ports of `host` in rising order, each once.
pub fn open_ports(host: Host, open: &Vec<Socket>) -> (ports: Vec<u16>)
    ensures
        is_port_list(ports@, host, open@),
        ports@.len() > 0 <==> has_open_port(host, open@),
{
    let mut ports: Vec<u16> = Vec::new();
    let mut i: usize = 0;
    while i < open.len()
        invariant
            i <= open.len(),
            is_port_list(ports@, host, open@.take(i as int)),
        decreases open.len() - i,
    {
        let socket = open[i];
        if socket.host == host {
            insert_port(&mut ports, socket.port);
        }
        i = i + 1;
        assert forall|port: u16| ports@.contains(port) <==> open@.take(i as int).contains(
            Socket { host, port },
        ) by {
            let wanted = Socket { host, port };
            let now = open@.take(i as int);
            if socket == wanted {
                assert(now[i - 1] == wanted);
            }
        }
    }
    assert(open@.take(i as int) =~= open@);
    proof {
        if ports@.len() > 0 {
            assert(ports@.contains(ports@[0]));
        }
        if has_open_port(host, open@) {
            let port = choose|port: u16| open@.contains(Socket { host, port });
            assert(ports@.contains(port));
        }
    }
    ports
}

/// Whether `host` is one of `found`.
fn is_listed(found: &Vec<HostPorts>, host: Host) -> (listed: bool)
    ensures
        listed == exists|k: int| 0 <= k < found@.len() && found@[k].host == host,
{
    let mut i: usize = 0;
    while i < found.len()
        invariant
            i <= found.len(),
            forall|k: int| 0 <= k < i ==> found@[k].host != host,
        decreases found.len() - i,
    {
        if found[i].host == host {
            return true;
        }
        i = i + 1;
    }
    false
}

/// Sorts the hosts of a scan by what was found on them.
pub fn ports_per_host(hosts: &Vec<Host>, open: &Vec<Socket>) -> (report: ScanReport)
    ensures
        report.found@.len() == hosts_with_open_ports(hosts@, open@).len(),
        forall|k: int|
            0 <= k < report.found@.len() ==> {
                &&& (#[trigger] report.found@[k]).host == hosts_with_open_ports(hosts@, open@)[k]
                &&& is_port_list(report.found@[k].ports@, report.found@[k].host, open@)
            },
        report.silent@ == silent_hosts(hosts@, open@),
{
    let mut found: Vec<HostPorts> = Vec::new();
    let mut silent: Vec<Host> = Vec::new();
    let mut i: usize = 0;
    proof {
        reveal(Seq::filter);
    }
    while i < hosts.len()
        invariant
            i <= hosts.len(),
            found@.len() == hosts_with_open_ports(hosts@.take(i as int), open@).len(),
            forall|k: int|
                0 <= k < found@.len() ==> {
                    &&& (#[trigger] found@[k]).host == hosts_with_open_ports(
                        hosts@.take(i as int),
                        open@,
                    )[k]
                    &&& is_port_list(found@[k].ports@, found@[k].host, open@)
                },
            silent@ == silent_hosts(hosts@.take(i as int), open@),
        decreases hosts.len() - i,
    {
        let host = hosts[i];
        let ghost earlier = hosts@.take(i as int);
        let ghost listed = hosts_with_open_ports(earlier, open@);
        proof {
            reveal(Seq::filter);
            assert(hosts@.take(i + 1).drop_last() =~= earlier);
            lemma_hosts_with_open_ports(earlier, open@, host);
            if listed.contains(host) {
                let k = listed.index_of(host);
                assert(found@[k].host == host);
            }
        }
        let ports = open_ports(host, open);
        if ports.len() == 0 {
            silent.push(host);
        } else if !is_listed(&found, host) {
            found.push(HostPorts { host, ports });
        }
        i = i + 1;
    }
    assert(hosts@.take(i as int) =~= hosts@);
    ScanReport { found, silent }
}

/// The texts of some ports.
pub open spec fn port_texts(ports: Seq<u16>) -> Seq<Seq<char>> {
    ports.map_values(|port: u16| decimal(port as nat))
}

/// The ports in decimal digits with commas between them and no spaces.
pub fn ports_string(ports: &Vec<u16>) -> (text: String)
    ensures
        text@ == joined(port_texts(ports@), ","@),
{
    let mut text = String::new();
    let mut i: usize = 0;
    while i < ports.len()
        invariant
            i <= ports.len(),
            text@ == joined(port_texts(ports@.take(i as int)), ","@),
        decreases ports.len() - i,
    {
        if i > 0 {
            text.append(",");
        }
        append_decimal(&mut text, ports[i] as u128);
        i = i + 1;
        proof {
            let now = port_texts(ports@.take(i as int));
            assert(now.drop_last() =~= port_texts(ports@.take(i - 1)));
        }
    }
    assert(ports@.take(i as int) =~= ports@);
    text
}

/// The line for one host where one line per host is asked for.
pub fn greppable_line(addr: &str, ports: &str) -> (line: String)
    ensures
        line@ == addr@ + " -> ["@ + ports@ + "]"@,
{
    let mut line = String::from_str(addr);
    line.append(" -> [");
    line.append(ports);
    line.append("]");
    line
}

/// The arguments for the fingerprinting tool: those of the user first, then
/// the switch for more output, the switch for version 6 where the address is
/// one, and at last the ports and the address.
pub open spec fn nmap_arguments(
    addr: Seq<char>,
    ports: Seq<char>,
    user_args: Seq<Seq<char>>,
    is_ipv6: bool,
) -> Seq<Seq<char>> {
    user_args + seq!["-vvv"@] + (if is_ipv6 {
        seq!["-6"@]
    } else {
        Seq::empty()
    }) + seq!["-p"@, ports, addr]
}

/// Puts together the arguments for the fingerprinting tool.
pub fn build_nmap_arguments<'a>(
    addr: &'a str,
    ports: &'a str,
    user_args: &'a Vec<String>,
    is_ipv6: bool,
) -> (arguments: Vec<&'a str>)
    ensures
        slices_of(arguments@) == nmap_arguments(addr@, ports@, texts_of(user_args@), is_ipv6),
{
    let mut arguments: Vec<&'a str> = Vec::new();
    let mut i: usize = 0;
    while i < user_args.len()
        invariant
            i <= user_args.len(),
            slices_of(arguments@) == texts_of(user_args@.take(i as int)),
        decreases user_args.len() - i,
    {
        let ghost before = arguments@;
        arguments.push(user_args[i].as_str());
        i = i + 1;
        assert(slices_of(arguments@) =~= texts_of(user_args@.take(i as int))) by {
            let wanted = texts_of(user_args@.take(i as int));
            assert(slices_of(before).len() == before.len());
            assert forall|k: int| 0 <= k < wanted.len() implies slices_of(arguments@)[k]
                == wanted[k] by {
                if k < i - 1 {
                    assert(slices_of(arguments@)[k] == slices_of(before)[k]);
                }
            }
        }
    }
    assert(user_args@.take(i as int) =~= user_args@);
    arguments.push("-vvv");
    if is_ipv6 {
        arguments.push("-6");
    }
    arguments.push("-p");
    arguments.push(ports);
    arguments.push(addr);
    assert(slices_of(arguments@) =~= nmap_arguments(
        addr@,
        ports@,
        texts_of(user_args@),
        is_ipv6,
    ));
    arguments
}

/// `shell_words::ParseError`: the error of `shell_words::split`, which
/// holds nothing.
#[verifier::external_type_specification]
#[verifier::external_body]
pub struct ExParseError(shell_words::ParseError);

/// The words of a command line after the rules of the POSIX shell, or
/// nothing where a quotation is left open.
pub uninterp spec fn shell_words_of(line: Seq<char>) -> Option<Seq<Seq<char>>>;

/// Calls `shell_words::split`. Its words are named `shell_words_of`; an error
/// stands for a line that has none.
#[verifier::external_body]
fn split_words(line: &str) -> (words: Result<Vec<String>, shell_words::ParseError>)
    ensures
        words is Ok <==> shell_words_of(line@) is Some,
        words matches Ok(w) ==> shell_words_of(line@) == Some(texts_of(w@)),
{
    shell_words::split(line)
}

/// The command line that the user's arguments make together.
pub open spec fn command_line(command: Seq<Seq<char>>) -> Seq<char> {
    joined(command, " "@)
}

/// The arguments for the fingerprinting tool on one host, where the user's
/// own arguments are still to be split into words.
pub fn nmap_command(command: &Vec<String>, addr: &str, ports: &str, is_ipv6: bool) -> (arguments:
    Result<Vec<String>, InputError>)
    ensures
        match arguments {
            Ok(arguments) => {
                &&& shell_words_of(command_line(texts_of(command@))) is Some
                &&& texts_of(arguments@) == nmap_arguments(
                    addr@,
                    ports@,
                    shell_words_of(command_line(texts_of(command@))).unwrap(),
                    is_ipv6,
                )
            },
            Err(error) => {
                &&& error == InputError::UnclosedQuote
                &&& shell_words_of(command_line(texts_of(command@))) is None
            },
        },
{
    let line = join(command, " ");
    match split_words(line.as_str()) {
        Ok(words) => {
            let borrowed = build_nmap_arguments(addr, ports, &words, is_ipv6);
            let mut arguments: Vec<String> = Vec::new();
            let mut i: usize = 0;
            while i < borrowed.len()
                invariant
                    i <= borrowed.len(),
                    texts_of(arguments@) == slices_of(borrowed@.take(i as int)),
                decreases borrowed.len() - i,
            {
                let ghost before = arguments@;
                arguments.push(String::from_str(borrowed[i]));
                i = i + 1;
                assert(texts_of(arguments@) =~= slices_of(borrowed@.take(i as int))) by {
                    let wanted = slices_of(borrowed@.take(i as int));
                    assert(texts_of(before).len() == before.len());
                    assert forall|k: int| 0 <= k < wanted.len() implies texts_of(arguments@)[k]
                        == wanted[k] by {
                        if k < i - 1 {
                            assert(texts_of(arguments@)[k] == texts_of(before)[k]);
                        }
                    }
                }
            }
            Ok(arguments)
        },
        Err(_) => Err(InputError::UnclosedQuote),
    }
}

} // verus!
