//! The engine of the scan: which sockets are probed together, and which of
//! them were found open.
//!
//! The engine goes through the plan in windows of at most one batch. It hands
//! out a window, waits until every socket of it has an outcome, and only then
//! moves on, so that never more than one batch of sockets is open at a time.
//! When the plan is through, it starts again, as often as there are tries.
//! Connecting is left to whoever drives the engine.

use crate::host::{Host, Socket};
use crate::input::InputError;
use crate::planner::{lemma_planned_members, plan_ports, planned};
use crate::port_strategy::PortStrategy;
use std::time::Duration;
use vstd::arithmetic::div_mod::lemma_fundamental_div_mod_converse;
use vstd::prelude::*;

verus! {

/// How one attempt to connect ended.
#[derive(Clone, Copy, Debug, PartialEq, Eq, Structural)]
pub enum ProbeOutcome {
    /// The socket took the connection.
    Open(Socket),
    /// The connection was refused, timed out, or failed in any other way.
    Unreachable,
}

/// The open sockets after the outcomes of a window were gathered: an open
/// socket is added where it belongs to the window and is not known yet.
pub open spec fn gathered(open: Seq<Socket>, window: Seq<Socket>, outcomes: Seq<ProbeOutcome>) -> Seq<
    Socket,
>
    decreases outcomes.len(),
{
    if outcomes.len() == 0 {
        open
    } else {
        let before = gathered(open, window, outcomes.drop_last());
        match outcomes.last() {
            ProbeOutcome::Open(socket) => if window.contains(socket) && !before.contains(socket) {
                before.push(socket)
            } else {
                before
            },
            ProbeOutcome::Unreachable => before,
        }
    }
}

/// The number of windows that `len` sockets make in batches of `batch`.
pub open spec fn windows_in(len: nat, batch: nat) -> nat {
    ((len + batch - 1) / (batch as int)) as nat
}

/// The state of a scan.
pub struct Scan {
    /// The sockets to probe in each pass, in their order.
    pub plan: Seq<Socket>,
    /// The most sockets that are probed at a time.
    pub batch_size: nat,
    /// The number of passes through the plan.
    pub tries: nat,
    /// The time that each connection is given.
    pub timeout: Duration,
    /// Whether the output is one line per host.
    pub greppable: bool,
    /// Whether the output is without decoration.
    pub accessible: bool,
    /// The number of passes that are complete.
    pub pass: nat,
    /// The number of sockets of this pass whose outcome is in.
    pub cursor: nat,
    /// The sockets found open, each once, in the order in which they were
    /// found.
    pub open: Seq<Socket>,
}

impl Scan {
    /// The scan is over: the plan went through as often as there are tries,
    /// or it is empty.
    pub open spec fn is_finished(self) -> bool {
        self.plan.len() == 0 || self.pass >= self.tries
    }

    /// What holds of a scan at any time: a batch and the tries are at least
    /// one, no more passes are complete than there are tries, a pass that is
    /// under way has sockets left, and the open sockets are sockets of the
    /// plan, none of them twice.
    pub open spec fn wf(self) -> bool {
        &&& self.batch_size >= 1
        &&& self.tries >= 1
        &&& self.pass <= self.tries
        &&& self.cursor <= self.plan.len()
        &&& !self.is_finished() ==> self.cursor < self.plan.len()
        &&& self.open.no_duplicates()
        &&& forall|socket: Socket| self.open.contains(socket) ==> self.plan.contains(socket)
    }

    /// Where the window in hand ends in the plan.
    pub open spec fn window_end(self) -> nat {
        if self.cursor + self.batch_size <= self.plan.len() {
            self.cursor + self.batch_size
        } else {
            self.plan.len()
        }
    }

    /// The sockets to probe now, all at once: the next of the plan, up to a
    /// batch of them; none when the scan is over.
    pub open spec fn window(self) -> Seq<Socket> {
        if self.is_finished() {
            Seq::empty()
        } else {
            self.plan.subrange(self.cursor as int, self.window_end() as int)
        }
    }

    /// The scan after the outcomes of the window in hand came in.
    pub open spec fn recorded(self, outcomes: Seq<ProbeOutcome>) -> Scan {
        if self.is_finished() {
            self
        } else {
            let open = gathered(self.open, self.window(), outcomes);
            if self.window_end() >= self.plan.len() {
                Scan { pass: self.pass + 1, cursor: 0, open, ..self }
            } else {
                Scan { cursor: self.window_end(), open, ..self }
            }
        }
    }

    /// The number of windows that are still to be probed.
    pub open spec fn windows_left(self) -> nat {
        if self.is_finished() {
            0
        } else {
            ((self.tries - self.pass - 1) * windows_in(self.plan.len(), self.batch_size)
                + windows_in((self.plan.len() - self.cursor) as nat, self.batch_size)) as nat
        }
    }

    /// The scan after the outcomes of one window after the other came in.
    pub open spec fn after(self, answers: Seq<Seq<ProbeOutcome>>) -> Scan
        decreases answers.len(),
    {
        if answers.len() == 0 {
            self
        } else {
            self.after(answers.drop_last()).recorded(answers.last())
        }
    }

    /// The scan at its start: no pass is complete and nothing is known to
    /// be open.
    pub open spec fn start(self) -> Scan {
        Scan { pass: 0, cursor: 0, open: Seq::empty(), ..self }
    }

    /// The scan stands at its start.
    pub open spec fn is_start(self) -> bool {
        self == self.start()
    }
}

/// Gathering keeps what was open, in its order, and adds exactly the sockets
/// of the window that an outcome reports open, none of them twice.
pub proof fn lemma_gathered(open: Seq<Socket>, window: Seq<Socket>, outcomes: Seq<ProbeOutcome>)
    ensures
        open.is_prefix_of(gathered(open, window, outcomes)),
        open.no_duplicates() ==> gathered(open, window, outcomes).no_duplicates(),
        forall|socket: Socket|
            gathered(open, window, outcomes).contains(socket) <==> open.contains(socket) || (
            window.contains(socket) && outcomes.contains(ProbeOutcome::Open(socket))),
    decreases outcomes.len(),
{
    let all = gathered(open, window, outcomes);
    if outcomes.len() > 0 {
        let earlier = outcomes.drop_last();
        let before = gathered(open, window, earlier);
        lemma_gathered(open, window, earlier);
        assert forall|socket: Socket|
            all.contains(socket) <==> open.contains(socket) || (window.contains(socket)
                && outcomes.contains(ProbeOutcome::Open(socket))) by {
            let wanted = ProbeOutcome::Open(socket);
            if outcomes.contains(wanted) && outcomes.last() != wanted {
                let k = outcomes.index_of(wanted);
                assert(earlier[k] == wanted);
            }
            if before.contains(socket) {
                let k = before.index_of(socket);
                assert(all[k] == socket);
            }
            if outcomes.last() == wanted {
                if window.contains(socket) && !before.contains(socket) {
                    assert(all[all.len() - 1] == socket);
                }
            }
        }
    }
}

/// Every window is at most one batch, and is the next stretch of the plan.
pub proof fn lemma_window(scan: Scan)
    requires
        scan.wf(),
    ensures
        scan.window().len() <= scan.batch_size,
        scan.is_finished() <==> scan.window().len() == 0,
        forall|k: int|
            0 <= k < scan.window().len() ==> #[trigger] scan.window()[k] == scan.plan[scan.cursor
                + k],
{
}

/// Recording keeps the scan well formed and takes exactly one window off
/// what is left, so that a scan over `tries` passes is over after `tries`
/// times the windows of the plan.
pub proof fn lemma_recorded(scan: Scan, outcomes: Seq<ProbeOutcome>)
    requires
        scan.wf(),
    ensures
        scan.recorded(outcomes).wf(),
        scan.open.is_prefix_of(scan.recorded(outcomes).open),
        !scan.is_finished() ==> scan.recorded(outcomes).windows_left() + 1 == scan.windows_left(),
        scan.start().windows_left() == if scan.plan.len() == 0 {
            0
        } else {
            scan.tries * windows_in(scan.plan.len(), scan.batch_size)
        },
{
    let after = scan.recorded(outcomes);
    let len = scan.plan.len() as int;
    let whole = windows_in(scan.plan.len(), scan.batch_size) as int;
    assert((scan.tries - 1) * whole + whole == scan.tries * whole) by (nonlinear_arith);
    if !scan.is_finished() {
        lemma_gathered(scan.open, scan.window(), outcomes);
        assert forall|socket: Socket| after.open.contains(socket) implies scan.plan.contains(
            socket,
        ) by {}
        lemma_windows_in((len - scan.cursor) as nat, scan.batch_size);
        let rounds = scan.tries - scan.pass - 1;
        if scan.window_end() >= scan.plan.len() {
            if !after.is_finished() {
                assert((rounds - 1) * whole + whole == rounds * whole) by (nonlinear_arith);
            } else {
                assert(rounds * whole == 0) by (nonlinear_arith)
                    requires
                        rounds == 0,
                ;
            }
        }
    }
}

/// A stretch of at most one batch is one window, and a longer one is one
/// window more than what is left behind its first batch.
proof fn lemma_windows_in(len: nat, batch: nat)
    requires
        batch >= 1,
        len >= 1,
    ensures
        len <= batch ==> windows_in(len, batch) == 1,
        len > batch ==> windows_in((len - batch) as nat, batch) + 1 == windows_in(len, batch),
        windows_in(len, batch) >= 1,
{
    let b = batch as int;
    let x = len as int;
    let q = (x - 1) / b;
    let r = (x - 1) % b;
    vstd::arithmetic::div_mod::lemma_fundamental_div_mod(x - 1, b);
    vstd::arithmetic::div_mod::lemma_div_pos_is_pos(x - 1, b);
    assert((q + 1) * b == b * q + b) by (nonlinear_arith);
    lemma_fundamental_div_mod_converse(x + b - 1, b, q + 1, r);
    if x <= b {
        lemma_fundamental_div_mod_converse(x + b - 1, b, 1, x - 1);
    }
}

/// Whether the answer for window `k` reports `socket`, a socket of that
/// window, open.
pub open spec fn reported_open(
    scan: Scan,
    answers: Seq<Seq<ProbeOutcome>>,
    k: int,
    socket: Socket,
) -> bool {
    &&& scan.after(answers.take(k)).window().contains(socket)
    &&& answers[k].contains(ProbeOutcome::Open(socket))
}

/// The sockets that a scan holds as open after some windows are those that
/// it held before and those that an answer reported open for its window, in
/// whichever pass.
pub proof fn lemma_found_open(scan: Scan, answers: Seq<Seq<ProbeOutcome>>, socket: Socket)
    requires
        scan.wf(),
    ensures
        scan.after(answers).wf(),
        scan.after(answers).plan == scan.plan,
        scan.after(answers).open.contains(socket) <==> scan.open.contains(socket) || exists|k: int|
            0 <= k < answers.len() && reported_open(scan, answers, k, socket),
    decreases answers.len(),
{
    if answers.len() > 0 {
        let earlier = answers.drop_last();
        let before = scan.after(earlier);
        let last = answers.len() - 1;
        lemma_found_open(scan, earlier, socket);
        lemma_recorded(before, answers.last());
        lemma_gathered(before.open, before.window(), answers.last());
        assert forall|k: int| 0 <= k < last implies reported_open(scan, answers, k, socket)
            == reported_open(scan, earlier, k, socket) by {
            assert(answers.take(k) =~= earlier.take(k));
        }
        if scan.after(answers).open.contains(socket) && !before.open.contains(socket) {
            assert(reported_open(scan, answers, last, socket));
        }
    }
}

/// In the first pass the windows follow one another through the plan: before
/// window `k` no pass is complete, and the sockets of `k` whole batches have
/// their outcome.
proof fn lemma_first_pass(scan: Scan, answers: Seq<Seq<ProbeOutcome>>, k: int)
    requires
        scan.wf(),
        scan.is_start(),
        0 <= k <= answers.len(),
        k * scan.batch_size < scan.plan.len(),
    ensures
        scan.after(answers.take(k)) == (Scan {
            cursor: (k * scan.batch_size) as nat,
            open: scan.after(answers.take(k)).open,
            ..scan
        }),
    decreases k,
{
    let b = scan.batch_size as int;
    if k == 0 {
        assert(0 * b == 0) by (nonlinear_arith);
    } else {
        assert((k - 1) * b + b == k * b && (k - 1) * b >= 0) by (nonlinear_arith)
            requires
                k >= 1,
                b >= 1,
        ;
        lemma_first_pass(scan, answers, k - 1);
        assert(answers.take(k).drop_last() =~= answers.take(k - 1));
    }
}

/// Whether the answer for window `k` tells of `socket`, if it is of that
/// window, whether it listens.
pub open spec fn answer_tells(
    scan: Scan,
    answers: Seq<Seq<ProbeOutcome>>,
    listening: Set<Socket>,
    k: int,
    socket: Socket,
) -> bool {
    scan.after(answers.take(k)).window().contains(socket) ==> (answers[k].contains(
        ProbeOutcome::Open(socket),
    ) <==> listening.contains(socket))
}

/// Whether the answers are those of probes that find the sockets that
/// listen: each answer reports open those sockets of its window that listen,
/// and none of the others.
pub open spec fn answers_tell(
    scan: Scan,
    answers: Seq<Seq<ProbeOutcome>>,
    listening: Set<Socket>,
) -> bool {
    forall|k: int, socket: Socket|
        0 <= k < answers.len() ==> #[trigger] answer_tells(scan, answers, listening, k, socket)
}

/// A scan that is run from its start to its end, with probes that find the
/// sockets that listen, finds open exactly the sockets of its plan that
/// listen: every socket of the plan is handed to the probe.
pub proof fn lemma_run_finds_the_listeners(
    scan: Scan,
    answers: Seq<Seq<ProbeOutcome>>,
    listening: Set<Socket>,
    socket: Socket,
)
    requires
        scan.wf(),
        scan.is_start(),
        answers.len() == scan.windows_left(),
        answers_tell(scan, answers, listening),
    ensures
        scan.after(answers).open.contains(socket) <==> scan.plan.contains(socket)
            && listening.contains(socket),
{
    let b = scan.batch_size as int;
    let len = scan.plan.len() as int;
    lemma_found_open(scan, answers, socket);
    if scan.after(answers).open.contains(socket) {
        let k = choose|k: int| 0 <= k < answers.len() && reported_open(scan, answers, k, socket);
        lemma_found_open(scan, answers.take(k), socket);
        assert(answer_tells(scan, answers, listening, k, socket));
    }
    if scan.plan.contains(socket) && listening.contains(socket) {
        let place = scan.plan.index_of(socket);
        let k = place / b;
        let whole = windows_in(scan.plan.len(), scan.batch_size) as int;
        vstd::arithmetic::div_mod::lemma_fundamental_div_mod(place, b);
        vstd::arithmetic::div_mod::lemma_fundamental_div_mod(len + b - 1, b);
        lemma_recorded(scan, Seq::empty());
        assert(0 <= k && k * b <= place && b * k == k * b && b * whole == whole * b) by (nonlinear_arith)
            requires
                0 <= place,
                b > 0,
                k == place / b,
                place == b * k + place % b,
                0 <= place % b < b,
        ;
        assert(k < whole) by (nonlinear_arith)
            requires
                k * b <= place < len,
                len + b - 1 == whole * b + (len + b - 1) % b,
                0 <= (len + b - 1) % b < b,
                b > 0,
        ;
        assert(whole <= scan.tries * whole) by (nonlinear_arith)
            requires
                scan.tries >= 1,
                whole >= 0,
        ;
        lemma_first_pass(scan, answers, k);
        let then = scan.after(answers.take(k));
        assert(then.window()[place - k * b] == socket);
        assert(answer_tells(scan, answers, listening, k, socket));
        assert(reported_open(scan, answers, k, socket));
    }
}

/// Where nothing listens, a scan that is run from its start to its end finds
/// nothing open.
pub proof fn lemma_nothing_listens(scan: Scan, answers: Seq<Seq<ProbeOutcome>>)
    requires
        scan.wf(),
        scan.is_start(),
        answers.len() == scan.windows_left(),
        answers_tell(scan, answers, Set::empty()),
    ensures
        scan.after(answers).open == Seq::<Socket>::empty(),
{
    let open = scan.after(answers).open;
    if open.len() > 0 {
        lemma_run_finds_the_listeners(scan, answers, Set::empty(), open[0]);
        assert(open.contains(open[0]));
    }
    assert(open =~= Seq::<Socket>::empty());
}

/// The order of the ports does not matter for what is found: two scans of
/// the same hosts, whose ports are the same in whatever order, find the same
/// sockets open where the same sockets listen.
pub proof fn lemma_order_does_not_matter(
    first: Scan,
    second: Scan,
    hosts: Seq<Host>,
    first_ports: Seq<u16>,
    second_ports: Seq<u16>,
    first_answers: Seq<Seq<ProbeOutcome>>,
    second_answers: Seq<Seq<ProbeOutcome>>,
    listening: Set<Socket>,
    socket: Socket,
)
    requires
        first.wf() && first.is_start() && first.plan == planned(hosts, first_ports),
        second.wf() && second.is_start() && second.plan == planned(hosts, second_ports),
        first_ports.to_multiset() == second_ports.to_multiset(),
        first_answers.len() == first.windows_left() && answers_tell(first, first_answers, listening),
        second_answers.len() == second.windows_left() && answers_tell(
            second,
            second_answers,
            listening,
        ),
    ensures
        first.after(first_answers).open.contains(socket) <==> second.after(
            second_answers,
        ).open.contains(socket),
{
    lemma_run_finds_the_listeners(first, first_answers, listening, socket);
    lemma_run_finds_the_listeners(second, second_answers, listening, socket);
    lemma_planned_members(hosts, first_ports, socket);
    lemma_planned_members(hosts, second_ports, socket);
    vstd::seq_lib::to_multiset_contains(first_ports, socket.port);
    vstd::seq_lib::to_multiset_contains(second_ports, socket.port);
}

/// A socket that a scan of `hosts` and `ports` found open is one of the
/// hosts with one of the ports.
pub proof fn lemma_open_sockets_were_asked_for(
    scan: Scan,
    hosts: Seq<Host>,
    ports: Seq<u16>,
    socket: Socket,
)
    requires
        scan.wf(),
        scan.plan == planned(hosts, ports),
        scan.open.contains(socket),
    ensures
        hosts.contains(socket.host),
        ports.contains(socket.port),
{
    lemma_planned_members(hosts, ports, socket);
}

/// Whether `probe` may have answered `outcomes` when it was given `window`.
pub open spec fn probe_gave<F: Fn(Vec<Socket>) -> Vec<ProbeOutcome>>(
    probe: F,
    window: Seq<Socket>,
    outcomes: Seq<ProbeOutcome>,
) -> bool {
    exists|sockets: Vec<Socket>, answer: Vec<ProbeOutcome>|
        sockets@ == window && answer@ == outcomes && call_ensures(probe, (sockets,), answer)
}

/// What is wrong with the settings of a scan of `hosts` hosts with `ports`
/// ports each.
pub open spec fn scan_problem(batch_size: u16, tries: u8, hosts: nat, ports: nat) -> Option<
    InputError,
> {
    if batch_size == 0 {
        Some(InputError::ZeroBatchSize)
    } else if tries == 0 {
        Some(InputError::ZeroTries)
    } else if hosts * ports > usize::MAX {
        Some(InputError::PlanTooLarge)
    } else {
        None
    }
}

/// The engine of one scan.
#[derive(Debug)]
pub struct Scanner {
    plan: Vec<Socket>,
    batch_size: u16,
    timeout: Duration,
    tries: u8,
    greppable: bool,
    accessible: bool,
    pass: u8,
    cursor: usize,
    open: Vec<Socket>,
}

impl View for Scanner {
    type V = Scan;

    closed spec fn view(&self) -> Scan {
        Scan {
            plan: self.plan@,
            batch_size: self.batch_size as nat,
            tries: self.tries as nat,
            timeout: self.timeout,
            greppable: self.greppable,
            accessible: self.accessible,
            pass: self.pass as nat,
            cursor: self.cursor as nat,
            open: self.open@,
        }
    }
}

/// Whether `socket` stands in `sockets` from place `from` up to `to`.
fn holds(sockets: &Vec<Socket>, from: usize, to: usize, socket: Socket) -> (found: bool)
    requires
        from <= to <= sockets.len(),
    ensures
        found == sockets@.subrange(from as int, to as int).contains(socket),
{
    let ghost part = sockets@.subrange(from as int, to as int);
    let mut i: usize = from;
    while i < to
        invariant
            from <= i <= to <= sockets.len(),
            part == sockets@.subrange(from as int, to as int),
            forall|k: int| 0 <= k < i - from ==> part[k] != socket,
        decreases to - i,
    {
        if sockets[i] == socket {
            assert(part[i - from] == socket);
            return true;
        }
        i = i + 1;
    }
    false
}

impl Scanner {
    #[verifier::type_invariant]
    spec fn inv(&self) -> bool {
        self@.wf()
    }

    /// Sets up the scan of `hosts` with the ports of `strategy`: `tries`
    /// passes in batches of `batch_size`, each connection given `timeout`.
    pub fn new(
        hosts: &Vec<Host>,
        batch_size: u16,
        timeout: Duration,
        tries: u8,
        greppable: bool,
        strategy: PortStrategy,
        accessible: bool,
    ) -> (scanner: Result<Scanner, InputError>)
        ensures
            match scanner {
                Ok(scanner) => {
                    &&& scan_problem(batch_size, tries, hosts@.len(), strategy.count()) is None
                    &&& scanner@.wf()
                    &&& scanner@.is_start()
                    &&& scanner@.batch_size == batch_size
                    &&& scanner@.tries == tries
                    &&& scanner@.timeout == timeout
                    &&& scanner@.greppable == greppable
                    &&& scanner@.accessible == accessible
                    &&& scanner@.plan.len() == hosts@.len() * strategy.count()
                    &&& exists|ports: Seq<u16>| #[trigger]
                        strategy.yields(ports) && scanner@.plan == planned(hosts@, ports)
                },
                Err(error) => scan_problem(batch_size, tries, hosts@.len(), strategy.count())
                    == Some(error),
            },
    {
        if batch_size == 0 {
            return Err(InputError::ZeroBatchSize);
        }
        if tries == 0 {
            return Err(InputError::ZeroTries);
        }
        let ports = strategy.ports();
        match plan_ports(hosts, &ports) {
            Some(plan) => {
                let scanner = Scanner {
                    plan,
                    batch_size,
                    timeout,
                    tries,
                    greppable,
                    accessible,
                    pass: 0,
                    cursor: 0,
                    open: Vec::new(),
                };
                Ok(scanner)
            },
            None => Err(InputError::PlanTooLarge),
        }
    }

    /// Whether the scan is over.
    pub fn is_finished(&self) -> (finished: bool)
        ensures
            finished == self@.is_finished(),
    {
        self.plan.len() == 0 || self.pass >= self.tries
    }

    /// Where the window in hand ends in the plan.
    fn window_end(&self) -> (end: usize)
        ensures
            self@.wf(),
            end == self@.window_end(),
    {
        proof {
            use_type_invariant(self);
        }
        if self.plan.len() - self.cursor >= self.batch_size as usize {
            self.cursor + self.batch_size as usize
        } else {
            self.plan.len()
        }
    }

    /// The sockets to probe now, all at once; none when the scan is over.
    pub fn window(&self) -> (window: Vec<Socket>)
        ensures
            self@.wf(),
            window@ == self@.window(),
            window@.len() <= self@.batch_size,
    {
        let mut window: Vec<Socket> = Vec::new();
        if self.is_finished() {
            proof {
                use_type_invariant(self);
            }
            return window;
        }
        let end = self.window_end();
        let mut i: usize = self.cursor;
        while i < end
            invariant
                self.cursor <= i <= end <= self.plan.len(),
                window@ == self.plan@.subrange(self.cursor as int, i as int),
            decreases end - i,
        {
            window.push(self.plan[i]);
            i = i + 1;
        }
        window
    }

    /// Takes the outcomes of the window in hand, in any order, and moves on
    /// to the next window. Outcomes for sockets that are not of the window
    /// count for nothing; a socket without an outcome counts as unreachable.
    pub fn record(&mut self, outcomes: &Vec<ProbeOutcome>)
        ensures
            final(self)@ == old(self)@.recorded(outcomes@),
            final(self)@.wf(),
    {
        proof {
            use_type_invariant(&*self);
            lemma_recorded(self@, outcomes@);
        }
        if self.is_finished() {
            return ;
        }
        let end = self.window_end();
        let ghost window = self@.window();
        let ghost start = self@;
        let mut open: Vec<Socket> = Vec::new();
        std::mem::swap(&mut self.open, &mut open);
        let mut i: usize = 0;
        while i < outcomes.len()
            invariant
                i <= outcomes.len(),
                start.wf(),
                !start.is_finished(),
                window == start.window(),
                end == start.window_end(),
                self.plan@ == start.plan,
                self.cursor == start.cursor,
                open@ == gathered(start.open, window, outcomes@.take(i as int)),
            decreases outcomes.len() - i,
        {
            proof {
                assert(outcomes@.take(i + 1).drop_last() =~= outcomes@.take(i as int));
                assert(open@.subrange(0, open@.len() as int) =~= open@);
            }
            match outcomes[i] {
                ProbeOutcome::Open(socket) => {
                    if holds(&self.plan, self.cursor, end, socket) && !holds(
                        &open,
                        0,
                        open.len(),
                        socket,
                    ) {
                        open.push(socket);
                    }
                },
                ProbeOutcome::Unreachable => {},
            }
            i = i + 1;
        }
        assert(outcomes@.take(i as int) =~= outcomes@);
        std::mem::swap(&mut self.open, &mut open);
        if end >= self.plan.len() {
            self.cursor = 0;
            self.pass = self.pass + 1;
        } else {
            self.cursor = end;
        }
    }

    /// Runs the scan to its end. `probe` is given one window after the other
    /// and answers with the outcomes of its sockets, in any order; the next
    /// window is put together only when it has answered. The open sockets
    /// are what recording these answers, one after the other, gives.
    pub fn run<F: Fn(Vec<Socket>) -> Vec<ProbeOutcome>>(self, probe: F) -> (open: Vec<Socket>)
        requires
            forall|window: Vec<Socket>| call_requires(probe, (window,)),
        ensures
            self@.wf(),
            exists|answers: Seq<Seq<ProbeOutcome>>|
                {
                    &&& #[trigger] self@.after(answers).is_finished()
                    &&& answers.len() == self@.windows_left()
                    &&& open@ == self@.after(answers).open
                    &&& forall|k: int|
                        0 <= k < answers.len() ==> probe_gave(
                            probe,
                            self@.after(answers.take(k)).window(),
                            #[trigger] answers[k],
                        )
                },
            forall|socket: Socket| open@.contains(socket) ==> self@.plan.contains(socket),
            open@.no_duplicates(),
    {
        let mut scanner = self;
        let ghost mut answers: Seq<Seq<ProbeOutcome>> = Seq::empty();
        proof {
            use_type_invariant(&scanner);
        }
        while !scanner.is_finished()
            invariant
                forall|window: Vec<Socket>| call_requires(probe, (window,)),
                scanner@.wf(),
                scanner@ == self@.after(answers),
                scanner@.plan == self@.plan,
                answers.len() + scanner@.windows_left() == self@.windows_left(),
                forall|k: int|
                    0 <= k < answers.len() ==> probe_gave(
                        probe,
                        self@.after(answers.take(k)).window(),
                        #[trigger] answers[k],
                    ),
            decreases scanner@.windows_left(),
        {
            let window = scanner.window();
            let ghost sockets = window;
            let ghost before = answers;
            let outcomes = probe(window);
            proof {
                lemma_recorded(scanner@, outcomes@);
                answers = before.push(outcomes@);
                assert(answers.drop_last() =~= before);
                assert(probe_gave(probe, scanner@.window(), outcomes@)) by {
                    assert(sockets@ == scanner@.window() && call_ensures(
                        probe,
                        (sockets,),
                        outcomes,
                    ));
                }
                assert forall|k: int| 0 <= k < answers.len() implies probe_gave(
                    probe,
                    self@.after(answers.take(k)).window(),
                    #[trigger] answers[k],
                ) by {
                    if k < before.len() {
                        assert(answers.take(k) =~= before.take(k));
                    }
                }
            }
            scanner.record(&outcomes);
        }
        scanner.into_open_sockets()
    }

    /// The sockets found open so far, each once, in the order in which they
    /// were found.
    pub fn open_sockets(&self) -> (open: &Vec<Socket>)
        ensures
            self@.wf(),
            open@ == self@.open,
    {
        proof {
            use_type_invariant(self);
        }
        &self.open
    }

    /// Ends the scan and hands out the sockets found open.
    pub fn into_open_sockets(self) -> (open: Vec<Socket>)
        ensures
            self@.wf(),
            open@ == self@.open,
    {
        proof {
            use_type_invariant(&self);
        }
        self.open
    }

    /// The most sockets that are probed at a time.
    pub fn batch_size(&self) -> (batch_size: u16)
        ensures
            batch_size == self@.batch_size,
    {
        self.batch_size
    }

    /// The number of passes through the plan.
    pub fn tries(&self) -> (tries: u8)
        ensures
            tries == self@.tries,
    {
        self.tries
    }

    /// The time that each connection is given.
    pub fn timeout(&self) -> (timeout: Duration)
        ensures
            timeout == self@.timeout,
    {
        self.timeout
    }

    /// Whether the output is one line per host.
    pub fn greppable(&self) -> (greppable: bool)
        ensures
            greppable == self@.greppable,
    {
        self.greppable
    }

    /// Whether the output is without decoration.
    pub fn accessible(&self) -> (accessible: bool)
        ensures
            accessible == self@.accessible,
    {
        self.accessible
    }
}

} // verus!
