//! The plan of a scan: every host paired with every port.

use crate::host::{Host, Socket};
use crate::input::InputError;
use crate::port_strategy::PortStrategy;
use vstd::arithmetic::div_mod::{lemma_fundamental_div_mod, lemma_fundamental_div_mod_converse};
use vstd::prelude::*;

verus! {

/// The plan for `hosts` and `ports`: the hosts in their order, each with all
/// ports in their order before the next host begins.
pub open spec fn planned(hosts: Seq<Host>, ports: Seq<u16>) -> Seq<Socket> {
    Seq::new(
        hosts.len() * ports.len(),
        |k: int|
            Socket { host: hosts[k / (ports.len() as int)], port: ports[k % (ports.len() as int)] },
    )
}

/// Port `j` of host `i` stands at place `i * ports.len() + j` of the plan,
/// so that the work of a host is one unbroken stretch of it.
pub proof fn lemma_planned_place(hosts: Seq<Host>, ports: Seq<u16>, i: int, j: int)
    requires
        0 <= i < hosts.len(),
        0 <= j < ports.len(),
    ensures
        0 <= i * ports.len() + j < planned(hosts, ports).len(),
        planned(hosts, ports)[i * ports.len() + j] == (Socket { host: hosts[i], port: ports[j] }),
{
    let m = ports.len() as int;
    let n = hosts.len() as int;
    assert(0 <= i * m && (i + 1) * m <= n * m) by (nonlinear_arith)
        requires
            0 <= i < n,
            0 < m,
    ;
    assert((i + 1) * m == i * m + m) by (nonlinear_arith);
    lemma_fundamental_div_mod_converse(i * m + j, m, i, j);
}

/// The place `k` of the plan holds one of the hosts with one of the ports.
pub proof fn lemma_planned_item(hosts: Seq<Host>, ports: Seq<u16>, k: int)
    requires
        0 <= k < planned(hosts, ports).len(),
    ensures
        ports.len() > 0,
        0 <= k / (ports.len() as int) < hosts.len(),
        0 <= k % (ports.len() as int) < ports.len(),
        planned(hosts, ports)[k] == (Socket {
            host: hosts[k / (ports.len() as int)],
            port: ports[k % (ports.len() as int)],
        }),
{
    let m = ports.len() as int;
    let n = hosts.len() as int;
    assert(m > 0) by (nonlinear_arith)
        requires
            0 <= k < n * m,
            0 <= m,
    ;
    lemma_fundamental_div_mod(k, m);
    let q = k / m;
    assert(0 <= q < n) by (nonlinear_arith)
        requires
            0 <= k < n * m,
            m > 0,
            k == m * q + k % m,
            0 <= k % m < m,
    ;
}

/// A socket is in the plan exactly if its host is among the hosts and its
/// port among the ports.
pub proof fn lemma_planned_members(hosts: Seq<Host>, ports: Seq<u16>, socket: Socket)
    ensures
        planned(hosts, ports).contains(socket) <==> hosts.contains(socket.host) && ports.contains(
            socket.port,
        ),
{
    let plan = planned(hosts, ports);
    if plan.contains(socket) {
        let k = plan.index_of(socket);
        lemma_planned_item(hosts, ports, k);
    }
    if hosts.contains(socket.host) && ports.contains(socket.port) {
        let i = hosts.index_of(socket.host);
        let j = ports.index_of(socket.port);
        lemma_planned_place(hosts, ports, i, j);
    }
}

/// Lays out the plan for `hosts` and `ports`, or nothing where it would hold
/// more sockets than a vector can.
pub fn plan_ports(hosts: &Vec<Host>, ports: &Vec<u16>) -> (plan: Option<Vec<Socket>>)
    ensures
        hosts@.len() * ports@.len() <= usize::MAX ==> plan is Some && plan.unwrap()@ == planned(
            hosts@,
            ports@,
        ),
        hosts@.len() * ports@.len() > usize::MAX ==> plan is None,
{
    if hosts.len().checked_mul(ports.len()).is_none() {
        return None;
    }
    let ghost m = ports@.len() as int;
    let mut plan: Vec<Socket> = Vec::new();
    let mut i: usize = 0;
    while i < hosts.len()
        invariant
            i <= hosts.len(),
            m == ports@.len(),
            plan@.len() == i * m,
            forall|k: int| 0 <= k < plan@.len() ==> #[trigger] plan@[k] == planned(hosts@, ports@)[k],
        decreases hosts.len() - i,
    {
        let mut j: usize = 0;
        while j < ports.len()
            invariant
                i < hosts.len(),
                j <= ports.len(),
                m == ports@.len(),
                plan@.len() == i * m + j,
                forall|k: int|
                    0 <= k < plan@.len() ==> #[trigger] plan@[k] == planned(hosts@, ports@)[k],
            decreases ports.len() - j,
        {
            proof {
                lemma_planned_place(hosts@, ports@, i as int, j as int);
            }
            plan.push(Socket { host: hosts[i], port: ports[j] });
            j = j + 1;
        }
        i = i + 1;
        assert(i * m == (i - 1) * m + m) by (nonlinear_arith);
    }
    Some(plan)
}

/// Lays out the plan of a scan: for each host, in the order given, the host
/// with each port that the strategy yields.
pub fn plan(hosts: &Vec<Host>, strategy: &PortStrategy) -> (plan: Result<Vec<Socket>, InputError>)
    ensures
        match plan {
            Ok(sockets) => {
                &&& sockets@.len() == hosts@.len() * strategy.count()
                &&& exists|ports: Seq<u16>| #[trigger]
                    strategy.yields(ports) && sockets@ == planned(hosts@, ports)
            },
            Err(error) => {
                &&& error == InputError::PlanTooLarge
                &&& hosts@.len() * strategy.count() > usize::MAX
            },
        },
{
    let ports = strategy.ports();
    match plan_ports(hosts, &ports) {
        Some(sockets) => {
            Ok(sockets)
        },
        None => Err(InputError::PlanTooLarge),
    }
}

} // verus!
