//! Which ports of a host are probed, and in which order.

use crate::input::{InputError, PortRange, ScanOrder};
use rand::Rng;
use vstd::prelude::*;
use vstd::seq_lib::to_multiset_update;

verus! {

/// The ports to probe: a range, or a list in the order the user gave.
#[derive(Clone, Debug)]
pub enum PortSpec {
    Range(PortRange),
    List(Vec<u16>),
}

/// The ports of a range in rising order; none where the range starts above
/// its end.
pub open spec fn range_ports(range: PortRange) -> Seq<u16> {
    if range.start <= range.end {
        Seq::new((range.end - range.start + 1) as nat, |i: int| (range.start + i) as u16)
    } else {
        Seq::empty()
    }
}

impl PortSpec {
    /// The ports in serial order.
    pub open spec fn ports(&self) -> Seq<u16> {
        match self {
            PortSpec::Range(range) => range_ports(*range),
            PortSpec::List(list) => list@,
        }
    }

    /// A range runs from a port that is not 0 up to one that is not below
    /// it; a list holds no port twice and not port 0.
    pub open spec fn valid(&self) -> bool {
        match self {
            PortSpec::Range(range) => 1 <= range.start <= range.end,
            PortSpec::List(list) => list@.no_duplicates() && !list@.contains(0),
        }
    }
}

/// The ports to probe together with their order.
#[derive(Clone, Debug)]
pub struct PortStrategy {
    pub spec: PortSpec,
    pub order: ScanOrder,
}

/// What is wrong with the ports that the user chose, a list counting before
/// a range.
pub open spec fn pick_problem(range: Option<PortRange>, ports: Option<Seq<u16>>) -> Option<
    InputError,
> {
    match ports {
        Some(list) => if list.contains(0) {
            Some(InputError::PortZero)
        } else if !list.no_duplicates() {
            Some(InputError::RepeatedPort)
        } else {
            None
        },
        None => match range {
            Some(range) => if range.start == 0 {
                Some(InputError::PortZero)
            } else if range.start > range.end {
                Some(InputError::EmptyRange)
            } else {
                None
            },
            None => Some(InputError::NoPorts),
        },
    }
}

/// The ports that were picked, in serial order.
pub open spec fn picked_ports(range: Option<PortRange>, ports: Option<Seq<u16>>) -> Seq<u16> {
    match ports {
        Some(list) => list,
        None => match range {
            Some(range) => range_ports(range),
            None => Seq::empty(),
        },
    }
}

/// The list behind an optional vector.
pub open spec fn list_of(ports: Option<Vec<u16>>) -> Option<Seq<u16>> {
    match ports {
        Some(list) => Some(list@),
        None => None,
    }
}

/// Whether `port` stands in `list` before place `end`.
fn seen_before(list: &Vec<u16>, end: usize, port: u16) -> (seen: bool)
    requires
        end <= list.len(),
    ensures
        seen == list@.take(end as int).contains(port),
{
    let mut i: usize = 0;
    while i < end
        invariant
            i <= end <= list.len(),
            !list@.take(i as int).contains(port),
        decreases end - i,
    {
        if list[i] == port {
            assert(list@.take(end as int)[i as int] == port);
            return true;
        }
        i = i + 1;
        assert forall|j: int| 0 <= j < i implies list@.take(i as int)[j] != port by {}
    }
    false
}

/// What is wrong with a list of ports, if anything.
fn list_problem(list: &Vec<u16>) -> (problem: Option<InputError>)
    ensures
        problem == pick_problem(None, Some(list@)),
{
    assert(list@.take(list.len() as int) =~= list@);
    if seen_before(list, list.len(), 0) {
        return Some(InputError::PortZero);
    }
    let mut i: usize = 0;
    while i < list.len()
        invariant
            i <= list.len(),
            !list@.contains(0),
            list@.take(i as int).no_duplicates(),
        decreases list.len() - i,
    {
        if seen_before(list, i, list[i]) {
            return Some(InputError::RepeatedPort);
        }
        i = i + 1;
        assert forall|a: int, b: int| 0 <= a < i && 0 <= b < i && a != b implies list@.take(
            i as int,
        )[a] != list@.take(i as int)[b] by {}
    }
    None
}

impl PortStrategy {
    /// Picks the strategy for the ports that the user chose: the list where
    /// there is one, else the range.
    pub fn pick(range: Option<PortRange>, ports: Option<Vec<u16>>, order: ScanOrder) -> (picked:
        Result<PortStrategy, InputError>)
        ensures
            match picked {
                Ok(strategy) => {
                    &&& pick_problem(range, list_of(ports)) is None
                    &&& strategy.order == order
                    &&& strategy.spec.valid()
                    &&& strategy.spec is List <==> ports is Some
                    &&& strategy.spec.ports() == picked_ports(range, list_of(ports))
                },
                Err(error) => pick_problem(range, list_of(ports)) == Some(error),
            },
    {
        match ports {
            Some(list) => match list_problem(&list) {
                Some(error) => Err(error),
                None => Ok(PortStrategy { spec: PortSpec::List(list), order }),
            },
            None => match range {
                Some(range) => if range.start == 0 {
                    Err(InputError::PortZero)
                } else if range.start > range.end {
                    Err(InputError::EmptyRange)
                } else {
                    Ok(PortStrategy { spec: PortSpec::Range(range), order })
                },
                None => Err(InputError::NoPorts),
            },
        }
    }

    /// The number of ports that the strategy yields.
    pub open spec fn count(&self) -> nat {
        self.spec.ports().len()
    }

    /// Whether `ports` can come out of the strategy: always the ports that
    /// were chosen, each as often as it was; in serial order they come as
    /// they were chosen.
    pub open spec fn yields(&self, ports: Seq<u16>) -> bool {
        &&& ports.to_multiset() == self.spec.ports().to_multiset()
        &&& self.order == ScanOrder::Serial ==> ports == self.spec.ports()
    }

    /// The ports to probe on each host, in the order of the strategy. In
    /// random order every call shuffles anew: the ports come in the order
    /// that a row of draws brings them into.
    pub fn ports(&self) -> (ports: Vec<u16>)
        ensures
            self.yields(ports@),
            ports@.len() == self.count(),
            self.order == ScanOrder::Random ==> exists|draws: Seq<int>|
                #[trigger] draws_fit(draws, self.count()) && ports@ == shuffled(
                    self.spec.ports(),
                    draws,
                ),
    {
        let mut ports = self.serial_ports();
        match self.order {
            ScanOrder::Serial => {},
            ScanOrder::Random => {
                shuffle(&mut ports);
            },
        }
        proof {
            ports@.to_multiset_ensures();
            self.spec.ports().to_multiset_ensures();
        }
        ports
    }

    /// The ports in serial order.
    fn serial_ports(&self) -> (ports: Vec<u16>)
        ensures
            ports@ == self.spec.ports(),
    {
        match &self.spec {
            PortSpec::List(list) => {
                let ports = list.clone();
                ports
            },
            PortSpec::Range(range) => {
                let mut ports: Vec<u16> = Vec::new();
                if range.start <= range.end {
                    let mut port: u16 = range.start;
                    while port < range.end
                        invariant
                            range.start <= port <= range.end,
                            ports@ == Seq::new(
                                (port - range.start) as nat,
                                |i: int| (range.start + i) as u16,
                            ),
                        decreases range.end - port,
                    {
                        ports.push(port);
                        port = port + 1;
                        assert(ports@ =~= Seq::new(
                            (port - range.start) as nat,
                            |i: int| (range.start + i) as u16,
                        ));
                    }
                    ports.push(port);
                }
                ports
            },
        }
    }
}

/// Calls `rand::Rng::gen_range` on the generator of the thread, from 0 up to
/// `bound`. The number is claimed to be below `bound`, as the crate documents
/// for its ranges; which one it is, is left open.
#[verifier::external_body]
fn random_below(bound: usize) -> (n: usize)
    requires
        bound > 0,
    ensures
        n < bound,
{
    rand::thread_rng().gen_range(0, bound)
}

/// The items with those at the places `a` and `b` changed over.
pub open spec fn changed_over(items: Seq<u16>, a: int, b: int) -> Seq<u16> {
    items.update(a, items[b]).update(b, items[a])
}

/// The order that a row of draws brings the items into: the first draw is
/// for the last place, the next for the place before it, and so on; each
/// place changes its item over with the place that was drawn for it.
pub open spec fn shuffled(items: Seq<u16>, draws: Seq<int>) -> Seq<u16>
    decreases draws.len(),
{
    if draws.len() == 0 {
        items
    } else {
        changed_over(
            shuffled(items, draws.drop_last()),
            items.len() - draws.len(),
            draws.last(),
        )
    }
}

/// Whether the draws are such as a shuffle of `len` items makes: one for
/// each place but the first, each a place that is not above its own.
pub open spec fn draws_fit(draws: Seq<int>, len: nat) -> bool {
    &&& draws.len() + 1 == len || draws.len() == len == 0
    &&& forall|step: int|
        0 <= step < draws.len() ==> 0 <= #[trigger] draws[step] <= len - 1 - step
}

/// Whatever the draws, as long as each is a place of the items and there are
/// no more draws than items, the items come out in another order and are
/// otherwise the same.
pub proof fn lemma_shuffled_is_permutation(items: Seq<u16>, draws: Seq<int>)
    requires
        draws.len() <= items.len(),
        forall|step: int| 0 <= step < draws.len() ==> 0 <= #[trigger] draws[step] < items.len(),
    ensures
        shuffled(items, draws).len() == items.len(),
        shuffled(items, draws).to_multiset() == items.to_multiset(),
    decreases draws.len(),
{
    if draws.len() > 0 {
        let earlier = draws.drop_last();
        let before = shuffled(items, earlier);
        let place = items.len() - draws.len();
        let drawn = draws.last();
        assert forall|step: int| 0 <= step < earlier.len() implies 0 <= #[trigger] earlier[step]
            < items.len() by {}
        lemma_shuffled_is_permutation(items, earlier);
        before.to_multiset_ensures();
        to_multiset_update(before, place, before[drawn]);
        to_multiset_update(before.update(place, before[drawn]), drawn, before[place]);
    }
}

/// Changes the items at the places `a` and `b` over.
fn change_over(items: &mut Vec<u16>, a: usize, b: usize)
    requires
        a < old(items)@.len(),
        b < old(items)@.len(),
    ensures
        final(items)@ == changed_over(old(items)@, a as int, b as int),
{
    let first = items[a];
    let second = items[b];
    items.set(a, second);
    items.set(b, first);
}

/// The number of places among which the draw for `place` is made: the place
/// itself and all before it.
fn draw_bound(place: usize) -> (bound: usize)
    requires
        place < usize::MAX,
    ensures
        bound == place + 1,
{
    place + 1
}

/// Puts the items into a random order: from the last place down, each place
/// changes its item with that of a place drawn among those not above it.
fn shuffle(items: &mut Vec<u16>)
    ensures
        exists|draws: Seq<int>|
            #[trigger] draws_fit(draws, old(items)@.len()) && final(items)@ == shuffled(
                old(items)@,
                draws,
            ),
        final(items)@.to_multiset() == old(items)@.to_multiset(),
        final(items)@.len() == old(items)@.len(),
{
    let mut i: usize = items.len();
    let ghost mut draws: Seq<int> = Seq::empty();
    while i > 1
        invariant
            i <= items.len(),
            i >= 1 || items@.len() == 0,
            items@.len() == old(items)@.len(),
            draws.len() == items@.len() - i,
            forall|step: int|
                0 <= step < draws.len() ==> 0 <= #[trigger] draws[step] <= items@.len() - 1 - step,
            items@ == shuffled(old(items)@, draws),
        decreases i,
    {
        let place = i - 1;
        let drawn = random_below(draw_bound(place));
        change_over(items, place, drawn);
        i = place;
        proof {
            let ghost earlier = draws;
            draws = earlier.push(drawn as int);
            assert(draws.drop_last() =~= earlier);
        }
    }
    proof {
        assert(draws_fit(draws, old(items)@.len()));
        lemma_shuffled_is_permutation(old(items)@, draws);
    }
}

/// Whatever comes out of a strategy twice holds the same ports equally
/// often, and in serial order the two are one sequence.
pub proof fn lemma_reruns_agree(strategy: PortStrategy, first: Seq<u16>, second: Seq<u16>)
    requires
        strategy.yields(first),
        strategy.yields(second),
    ensures
        first.to_multiset() == second.to_multiset(),
        first.len() == second.len(),
        strategy.order == ScanOrder::Serial ==> first == second,
        forall|port: u16| first.contains(port) <==> strategy.spec.ports().contains(port),
{
    first.to_multiset_ensures();
    second.to_multiset_ensures();
    strategy.spec.ports().to_multiset_ensures();
    assert forall|port: u16| first.contains(port) <==> strategy.spec.ports().contains(port) by {
        assert(first.to_multiset().count(port) == strategy.spec.ports().to_multiset().count(port));
    }
}

} // verus!
