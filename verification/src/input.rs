//! What the user asks for: the options of one scan.

use crate::text::texts_of;
use vstd::prelude::*;
use vstd::string::{StrSliceExecFns, StringExecFns};

verus! {

/// The order in which the ports of a host are probed.
#[derive(Clone, Copy, Debug, PartialEq, Eq, Structural)]
pub enum ScanOrder {
    Serial,
    Random,
}

/// The ports `start`, `start + 1`, up to and including `end`.
#[derive(Clone, Copy, Debug, PartialEq, Eq, Structural)]
pub struct PortRange {
    pub start: u16,
    pub end: u16,
}

/// Why the options of a scan were turned down.
#[derive(Clone, Copy, Debug, PartialEq, Eq, Structural)]
pub enum InputError {
    /// Neither a list of ports nor a range was given.
    NoPorts,
    /// Port 0 was asked for.
    PortZero,
    /// The range starts above its end.
    EmptyRange,
    /// A port stands twice in the list.
    RepeatedPort,
    /// The batch size is 0.
    ZeroBatchSize,
    /// The number of tries is 0.
    ZeroTries,
    /// The hosts and ports are more than can be planned at once.
    PlanTooLarge,
    /// The arguments for the fingerprinting tool end inside a quotation.
    UnclosedQuote,
    /// The text is no list of ports with commas between them.
    MalformedPorts,
    /// The text is no range of the form `start-end`.
    MalformedRange,
}

impl InputError {
    /// What to tell the user.
    pub open spec fn text(self) -> Seq<char> {
        match self {
            InputError::NoPorts => "no ports were chosen"@,
            InputError::PortZero => "port 0 cannot be scanned"@,
            InputError::EmptyRange => "the range of ports starts above its end"@,
            InputError::RepeatedPort => "a port is listed twice"@,
            InputError::ZeroBatchSize => "the batch size must be at least 1"@,
            InputError::ZeroTries => "the number of tries must be at least 1"@,
            InputError::PlanTooLarge => "there are too many hosts and ports for one scan"@,
            InputError::UnclosedQuote => "a quotation in the arguments is not closed"@,
            InputError::MalformedPorts => "the ports must be numbers up to 65535 with commas between them, as in 80,443"@,
            InputError::MalformedRange => "the range must be of the form start-end, as in 1-1000"@,
        }
    }

    /// What to tell the user.
    pub fn message(&self) -> (message: String)
        ensures
            message@ == self.text(),
    {
        let text = match self {
            InputError::NoPorts => "no ports were chosen",
            InputError::PortZero => "port 0 cannot be scanned",
            InputError::EmptyRange => "the range of ports starts above its end",
            InputError::RepeatedPort => "a port is listed twice",
            InputError::ZeroBatchSize => "the batch size must be at least 1",
            InputError::ZeroTries => "the number of tries must be at least 1",
            InputError::PlanTooLarge => "there are too many hosts and ports for one scan",
            InputError::UnclosedQuote => "a quotation in the arguments is not closed",
            InputError::MalformedPorts => "the ports must be numbers up to 65535 with commas between them, as in 80,443",
            InputError::MalformedRange => "the range must be of the form start-end, as in 1-1000",
        };
        String::from_str(text)
    }
}

/// The lowest port that can be scanned.
pub const LOWEST_PORT_NUMBER: u16 = 1;

/// The highest port.
pub const TOP_PORT_NUMBER: u16 = 65535;

/// Whether a character is a decimal digit.
pub open spec fn is_digit(c: char) -> bool {
    '0' <= c <= '9'
}

/// The number that a row of decimal digits stands for.
pub open spec fn number_value(text: Seq<char>) -> nat
    decreases text.len(),
{
    if text.len() == 0 {
        0
    } else {
        number_value(text.drop_last()) * 10 + (text.last() as nat - '0' as nat) as nat
    }
}

/// The port that a text stands for: the text is one decimal digit or more,
/// and nothing else, and its number is no more than 65535.
pub open spec fn port_of(text: Seq<char>) -> Option<u16> {
    if text.len() > 0 && (forall|i: int| 0 <= i < text.len() ==> is_digit(#[trigger] text[i]))
        && number_value(text) <= u16::MAX {
        Some(number_value(text) as u16)
    } else {
        None
    }
}

/// The fields of a text that `separator` parts: one more than there are
/// separators in it.
pub open spec fn fields(text: Seq<char>, separator: char) -> Seq<Seq<char>>
    decreases text.len(),
{
    if text.len() == 0 {
        seq![Seq::empty()]
    } else {
        let before = fields(text.drop_last(), separator);
        if text.last() == separator {
            before.push(Seq::empty())
        } else {
            before.update(before.len() - 1, before.last().push(text.last()))
        }
    }
}

/// The ports that some fields stand for, if each of them stands for one.
pub open spec fn ports_in(fields: Seq<Seq<char>>) -> Option<Seq<u16>> {
    if forall|i: int| 0 <= i < fields.len() ==> port_of(#[trigger] fields[i]) is Some {
        Some(fields.map_values(|field: Seq<char>| port_of(field).unwrap()))
    } else {
        None
    }
}

/// Reads a port in decimal digits.
pub fn parse_port(text: &str) -> (port: Option<u16>)
    ensures
        port == port_of(text@),
{
    let len = text.unicode_len();
    if len == 0 {
        return None;
    }
    let mut value: u32 = 0;
    let mut i: usize = 0;
    while i < len
        invariant
            i <= len == text@.len(),
            forall|k: int| 0 <= k < i ==> is_digit(#[trigger] text@[k]),
            value == number_value(text@.take(i as int)) <= u16::MAX,
        decreases len - i,
    {
        let c = text.get_char(i);
        proof {
            assert(text@.take(i + 1).drop_last() =~= text@.take(i as int));
        }
        if c < '0' || c > '9' {
            return None;
        }
        value = value * 10 + (c as u32 - '0' as u32);
        i = i + 1;
        if value > 0xffff {
            proof {
                lemma_number_grows(text@, i as int);
            }
            return None;
        }
    }
    assert(text@.take(i as int) =~= text@);
    Some(value as u16)
}

/// The number of a row of digits is no less than that of any of its
/// beginnings.
proof fn lemma_number_grows(text: Seq<char>, i: int)
    requires
        0 <= i <= text.len(),
    ensures
        number_value(text.take(i)) <= number_value(text),
    decreases text.len() - i,
{
    if i < text.len() {
        lemma_number_grows(text, i + 1);
        assert(text.take(i + 1).drop_last() =~= text.take(i));
    } else {
        assert(text.take(i) =~= text);
    }
}

/// The ports of some fields with one field more are those of the fields
/// with the port of that field behind them, where all of them stand for
/// ports; else there are none.
proof fn lemma_one_more_field(fields: Seq<Seq<char>>, field: Seq<char>)
    ensures
        ports_in(fields.push(field)) == match (ports_in(fields), port_of(field)) {
            (Some(ports), Some(port)) => Some(ports.push(port)),
            _ => None,
        },
{
    let longer = fields.push(field);
    match (ports_in(fields), port_of(field)) {
        (Some(ports), Some(port)) => {
            assert forall|k: int| 0 <= k < longer.len() implies port_of(#[trigger] longer[k])
                is Some by {
                if k < fields.len() {
                    assert(port_of(fields[k]) is Some);
                }
            }
            assert(ports_in(longer).unwrap() =~= ports.push(port));
        },
        (Some(_), None) => {
            assert(port_of(longer[fields.len() as int]) is None);
        },
        (None, _) => {
            let k = choose|k: int| 0 <= k < fields.len() && !(port_of(#[trigger] fields[k]) is Some);
            assert(port_of(longer[k]) is None);
        },
    }
}

/// Reads the ports that stand in a text with `separator` between them.
fn parse_fields(text: &str, separator: char) -> (ports: Option<Vec<u16>>)
    ensures
        ports is Some <==> ports_in(fields(text@, separator)) is Some,
        ports matches Some(list) ==> ports_in(fields(text@, separator)) == Some(list@),
{
    let len = text.unicode_len();
    let mut ports: Vec<u16> = Vec::new();
    let mut readable = true;
    let mut start: usize = 0;
    let mut i: usize = 0;
    let ghost mut done: Seq<Seq<char>> = Seq::empty();
    proof {
        assert(text@.subrange(0, 0) =~= Seq::empty());
    }
    while i < len
        invariant
            start <= i <= len == text@.len(),
            fields(text@.take(i as int), separator) == done.push(
                text@.subrange(start as int, i as int),
            ),
            readable ==> ports_in(done) == Some(ports@),
            !readable ==> ports_in(done) is None,
        decreases len - i,
    {
        proof {
            assert(text@.take(i + 1).drop_last() =~= text@.take(i as int));
        }
        if text.get_char(i) == separator {
            let field = text.substring_char(start, i);
            let port = parse_port(field);
            proof {
                lemma_one_more_field(done, field@);
                done = done.push(field@);
            }
            match port {
                Some(port) => {
                    if readable {
                        ports.push(port);
                    }
                },
                None => {
                    readable = false;
                },
            }
            start = i + 1;
            i = i + 1;
            assert(text@.subrange(start as int, i as int) =~= Seq::empty());
        } else {
            i = i + 1;
            assert(text@.subrange(start as int, i as int) =~= text@.subrange(
                start as int,
                i - 1,
            ).push(text@[i - 1]));
            assert(fields(text@.take(i as int), separator) =~= done.push(
                text@.subrange(start as int, i as int),
            ));
        }
    }
    assert(text@.take(i as int) =~= text@);
    let field = text.substring_char(start, len);
    let port = parse_port(field);
    proof {
        lemma_one_more_field(done, field@);
    }
    match port {
        Some(port) => {
            if readable {
                ports.push(port);
                Some(ports)
            } else {
                None
            }
        },
        None => None,
    }
}

/// Reads a list of ports with commas between them, as in `80,443`.
pub fn parse_ports(text: &str) -> (ports: Result<Vec<u16>, InputError>)
    ensures
        match ports {
            Ok(list) => ports_in(fields(text@, ',')) == Some(list@),
            Err(error) => error == InputError::MalformedPorts && ports_in(fields(text@, ','))
                is None,
        },
{
    match parse_fields(text, ',') {
        Some(list) => Ok(list),
        None => Err(InputError::MalformedPorts),
    }
}

/// The range that a text of the form `start-end` stands for.
pub open spec fn range_of(text: Seq<char>) -> Option<PortRange> {
    match ports_in(fields(text, '-')) {
        Some(ends) => if ends.len() == 2 {
            Some(PortRange { start: ends[0], end: ends[1] })
        } else {
            None
        },
        None => None,
    }
}

/// Reads a range of ports, as in `1-1000`.
pub fn parse_range(text: &str) -> (range: Result<PortRange, InputError>)
    ensures
        match range {
            Ok(range) => range_of(text@) == Some(range),
            Err(error) => error == InputError::MalformedRange && range_of(text@) is None,
        },
{
    match parse_fields(text, '-') {
        Some(ends) => if ends.len() == 2 {
            Ok(PortRange { start: ends[0], end: ends[1] })
        } else {
            Err(InputError::MalformedRange)
        },
        None => Err(InputError::MalformedRange),
    }
}

/// The options of one scan.
#[derive(Clone, Debug)]
pub struct Opts {
    /// Addresses, CIDR blocks, host names, or files that list them.
    pub addresses: Vec<String>,
    /// The ports to probe, one by one.
    pub ports: Option<Vec<u16>>,
    /// The ports to probe, as a range.
    pub range: Option<PortRange>,
    /// Print one line per host and start no other tool.
    pub greppable: bool,
    /// Print without decoration.
    pub accessible: bool,
    /// How many sockets to probe at once.
    pub batch_size: u16,
    /// How long to wait for a connection, in milliseconds.
    pub timeout: u32,
    /// How often to go through the plan.
    pub tries: u8,
    /// The limit on open files to ask the system for.
    pub ulimit: Option<u64>,
    /// The order of the ports.
    pub scan_order: ScanOrder,
    /// Further arguments for the fingerprinting tool.
    pub command: Vec<String>,
    /// Do not start the fingerprinting tool.
    pub no_nmap: bool,
}

/// The batch size where none was chosen.
pub const DEFAULT_BATCH_SIZE: u16 = 4500;

/// The time to connect, in milliseconds, where none was chosen.
pub const DEFAULT_TIMEOUT: u32 = 1500;

/// The number of tries where none was chosen.
pub const DEFAULT_TRIES: u8 = 1;

/// The options as far as they were given, be it on the command line or in
/// the configuration file. What was not given is left open.
#[derive(Clone, Debug)]
pub struct Config {
    pub addresses: Option<Vec<String>>,
    pub ports: Option<Vec<u16>>,
    pub range: Option<PortRange>,
    pub greppable: Option<bool>,
    pub accessible: Option<bool>,
    pub batch_size: Option<u16>,
    pub timeout: Option<u32>,
    pub tries: Option<u8>,
    pub ulimit: Option<u64>,
    pub scan_order: Option<ScanOrder>,
    pub command: Option<Vec<String>>,
    pub no_nmap: Option<bool>,
}

impl Default for Config {
    /// Nothing is given.
    fn default() -> (config: Config)
        ensures
            config.addresses is None,
            config.ports is None,
            config.range is None,
            config.greppable is None,
            config.accessible is None,
            config.batch_size is None,
            config.timeout is None,
            config.tries is None,
            config.ulimit is None,
            config.scan_order is None,
            config.command is None,
            config.no_nmap is None,
    {
        Config {
            addresses: None,
            ports: None,
            range: None,
            greppable: None,
            accessible: None,
            batch_size: None,
            timeout: None,
            tries: None,
            ulimit: None,
            scan_order: None,
            command: None,
            no_nmap: None,
        }
    }
}

/// The first of two values that was given.
pub open spec fn first_given<T>(first: Option<T>, second: Option<T>) -> Option<T> {
    if first is Some {
        first
    } else {
        second
    }
}

/// The first of two values that was given, or `otherwise` where neither was.
pub open spec fn first_given_or<T>(first: Option<T>, second: Option<T>, otherwise: T) -> T {
    match first_given(first, second) {
        Some(value) => value,
        None => otherwise,
    }
}

/// The texts of the first of two lists that was given; none where neither
/// was.
pub open spec fn first_texts(first: Option<Vec<String>>, second: Option<Vec<String>>) -> Seq<
    Seq<char>,
> {
    match first_given(first, second) {
        Some(list) => texts_of(list@),
        None => Seq::empty(),
    }
}

/// The first of two values that was given.
fn either<T>(first: Option<T>, second: Option<T>) -> (chosen: Option<T>)
    ensures
        chosen == first_given(first, second),
{
    match first {
        Some(value) => Some(value),
        None => second,
    }
}

/// The first of two values that was given, or `otherwise` where neither was.
fn either_or<T>(first: Option<T>, second: Option<T>, otherwise: T) -> (chosen: T)
    ensures
        chosen == first_given_or(first, second, otherwise),
{
    match either(first, second) {
        Some(value) => value,
        None => otherwise,
    }
}

impl Default for Opts {
    /// The options of a scan for which nothing was chosen: no addresses and no
    /// ports yet, batches of 4500, 1.5 seconds to connect, one try.
    fn default() -> (opts: Opts)
        ensures
            opts.addresses@.len() == 0,
            opts.ports is None,
            opts.range is None,
            !opts.greppable,
            !opts.accessible,
            opts.batch_size == 4500,
            opts.timeout == 1500,
            opts.tries == 1,
            opts.ulimit is None,
            opts.scan_order == ScanOrder::Serial,
            opts.command@.len() == 0,
            !opts.no_nmap,
    {
        Opts {
            addresses: Vec::new(),
            ports: None,
            range: None,
            greppable: false,
            accessible: false,
            batch_size: DEFAULT_BATCH_SIZE,
            timeout: DEFAULT_TIMEOUT,
            tries: DEFAULT_TRIES,
            ulimit: None,
            scan_order: ScanOrder::Serial,
            command: Vec::new(),
            no_nmap: false,
        }
    }
}

impl Opts {
    /// Puts the options together from what was given on the command line
    /// and what the configuration file holds: the command line counts before
    /// the file, and where neither says anything the default stands.
    pub fn merge(given: Config, config: Config) -> (opts: Opts)
        ensures
            texts_of(opts.addresses@) == first_texts(given.addresses, config.addresses),
            opts.ports == first_given(given.ports, config.ports),
            opts.range == first_given(given.range, config.range),
            opts.greppable == first_given_or(given.greppable, config.greppable, false),
            opts.accessible == first_given_or(given.accessible, config.accessible, false),
            opts.batch_size == first_given_or(
                given.batch_size,
                config.batch_size,
                DEFAULT_BATCH_SIZE,
            ),
            opts.timeout == first_given_or(given.timeout, config.timeout, DEFAULT_TIMEOUT),
            opts.tries == first_given_or(given.tries, config.tries, DEFAULT_TRIES),
            opts.ulimit == first_given(given.ulimit, config.ulimit),
            opts.scan_order == first_given_or(
                given.scan_order,
                config.scan_order,
                ScanOrder::Serial,
            ),
            texts_of(opts.command@) == first_texts(given.command, config.command),
            opts.no_nmap == first_given_or(given.no_nmap, config.no_nmap, false),
    {
        let addresses = match either(given.addresses, config.addresses) {
            Some(list) => list,
            None => Vec::new(),
        };
        let command = match either(given.command, config.command) {
            Some(list) => list,
            None => Vec::new(),
        };
        Opts {
            addresses,
            ports: either(given.ports, config.ports),
            range: either(given.range, config.range),
            greppable: either_or(given.greppable, config.greppable, false),
            accessible: either_or(given.accessible, config.accessible, false),
            batch_size: either_or(given.batch_size, config.batch_size, DEFAULT_BATCH_SIZE),
            timeout: either_or(given.timeout, config.timeout, DEFAULT_TIMEOUT),
            tries: either_or(given.tries, config.tries, DEFAULT_TRIES),
            ulimit: either(given.ulimit, config.ulimit),
            scan_order: either_or(given.scan_order, config.scan_order, ScanOrder::Serial),
            command,
            no_nmap: either_or(given.no_nmap, config.no_nmap, false),
        }
    }

    /// The range of ports to scan: the one that was chosen, or, where
    /// neither ports nor a range were chosen, all ports from the lowest to
    /// the highest.
    pub open spec fn range_or_all(&self) -> Option<PortRange> {
        if self.ports is None && self.range is None {
            Some(PortRange { start: LOWEST_PORT_NUMBER, end: TOP_PORT_NUMBER })
        } else {
            self.range
        }
    }

    /// The range of ports to scan, all ports where nothing was chosen.
    pub fn chosen_range(&self) -> (range: Option<PortRange>)
        ensures
            range == self.range_or_all(),
    {
        if self.ports.is_none() && self.range.is_none() {
            Some(PortRange { start: LOWEST_PORT_NUMBER, end: TOP_PORT_NUMBER })
        } else {
            self.range
        }
    }
}

} // verus!
