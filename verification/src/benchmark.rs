//! Named timers, and the summary of what they measured.

use crate::text::{append_decimal, append_padded, append_six_digits, decimal, padded, six_digits};
use std::time::{Duration, Instant};
use vstd::prelude::*;
use vstd::string::StringExecFns;

verus! {

/// `std::time::Instant`: a moment, of which nothing is known here but that
/// it can be handed on.
#[verifier::external_type_specification]
#[verifier::external_body]
pub struct ExInstant(Instant);

/// Calls `std::time::Instant::now`. Nothing is claimed of the moment.
#[verifier::external_body]
fn now() -> Instant {
    Instant::now()
}

/// Calls `std::time::Instant::saturating_duration_since` for the time from
/// `start` to `end`. Nothing is claimed of it.
#[verifier::external_body]
fn time_between(start: &Instant, end: &Instant) -> Duration {
    end.saturating_duration_since(*start)
}

/// Calls `std::time::Duration::as_micros`. Nothing is claimed of the number.
#[verifier::external_body]
fn whole_micros(time: &Duration) -> u128 {
    time.as_micros()
}

/// The width to which the names are filled up in the summary.
pub const NAME_WIDTH: usize = 10;

/// The number of microseconds in a second.
pub const MICROS_PER_SECOND: u128 = 1_000_000;

/// A timer with a name. It runs from its start until it is ended.
#[derive(Debug)]
pub struct NamedTimer {
    name: String,
    start: Instant,
    micros: Option<u128>,
}

/// What a timer measured: its name, and, once it has ended, the time that it
/// ran in microseconds.
pub struct Interval {
    pub name: Seq<char>,
    pub micros: Option<nat>,
}

impl View for NamedTimer {
    type V = Interval;

    closed spec fn view(&self) -> Interval {
        Interval {
            name: self.name@,
            micros: match self.micros {
                Some(micros) => Some(micros as nat),
                None => None,
            },
        }
    }
}

impl NamedTimer {
    /// Starts a timer.
    pub fn start(name: &str) -> (timer: NamedTimer)
        ensures
            timer@ == (Interval { name: name@, micros: None }),
    {
        NamedTimer { name: String::from_str(name), start: now(), micros: None }
    }

    /// A timer that has ended after `micros` microseconds.
    pub fn finished(name: &str, micros: u128) -> (timer: NamedTimer)
        ensures
            timer@ == (Interval { name: name@, micros: Some(micros as nat) }),
    {
        NamedTimer { name: String::from_str(name), start: now(), micros: Some(micros) }
    }

    /// Ends the timer: from now on it holds the time since its start.
    pub fn end(&mut self)
        ensures
            final(self)@.name == old(self)@.name,
            final(self)@.micros is Some,
    {
        let stop = now();
        let time = time_between(&self.start, &stop);
        self.micros = Some(whole_micros(&time));
    }

    /// The time that the timer ran, in microseconds, once it has ended.
    pub fn micros(&self) -> (micros: Option<u128>)
        ensures
            micros is Some <==> self@.micros is Some,
            micros matches Some(m) ==> self@.micros == Some(m as nat),
    {
        self.micros
    }
}

/// The intervals of some timers.
pub open spec fn intervals_of(timers: Seq<NamedTimer>) -> Seq<Interval> {
    timers.map_values(|timer: NamedTimer| timer@)
}

/// A time in seconds with six decimal places.
pub open spec fn seconds_text(micros: nat) -> Seq<char> {
    decimal(micros / (MICROS_PER_SECOND as nat)) + "."@ + six_digits(micros)
}

/// The line of the summary for one interval; nothing for a timer that was
/// not ended.
pub open spec fn summary_line(interval: Interval) -> Seq<char> {
    match interval.micros {
        Some(micros) => "\n"@ + padded(interval.name, NAME_WIDTH as nat) + " | "@ + seconds_text(
            micros,
        ) + "s"@,
        None => Seq::empty(),
    }
}

/// The lines of the summary for some intervals.
pub open spec fn summary_lines(intervals: Seq<Interval>) -> Seq<char>
    decreases intervals.len(),
{
    if intervals.len() == 0 {
        Seq::empty()
    } else {
        summary_lines(intervals.drop_last()) + summary_line(intervals.last())
    }
}

/// The timers of one run, in the order in which they were handed in.
#[derive(Debug)]
pub struct Benchmark {
    named_timers: Vec<NamedTimer>,
}

impl View for Benchmark {
    type V = Seq<Interval>;

    closed spec fn view(&self) -> Seq<Interval> {
        intervals_of(self.named_timers@)
    }
}

impl Benchmark {
    /// A benchmark without timers.
    pub fn init() -> (benchmark: Benchmark)
        ensures
            benchmark@ == Seq::<Interval>::empty(),
    {
        let benchmark = Benchmark { named_timers: Vec::new() };
        benchmark
    }

    /// Hands in a timer.
    pub fn push(&mut self, timer: NamedTimer)
        ensures
            final(self)@ == old(self)@.push(timer@),
    {
        self.named_timers.push(timer);
    }

    /// The summary: a heading, then one line for each timer that has ended,
    /// with its name and the seconds that it ran.
    pub fn summary(&self) -> (summary: String)
        ensures
            summary@ == "\nRustScan Benchmark Summary"@ + summary_lines(self@),
    {
        let mut summary = String::from_str("\nRustScan Benchmark Summary");
        let mut i: usize = 0;
        while i < self.named_timers.len()
            invariant
                i <= self.named_timers.len(),
                summary@ == "\nRustScan Benchmark Summary"@ + summary_lines(
                    intervals_of(self.named_timers@.take(i as int)),
                ),
            decreases self.named_timers.len() - i,
        {
            let timer = &self.named_timers[i];
            match timer.micros {
                Some(micros) => {
                    summary.append("\n");
                    append_padded(&mut summary, timer.name.as_str(), NAME_WIDTH);
                    summary.append(" | ");
                    append_decimal(&mut summary, micros / MICROS_PER_SECOND);
                    summary.append(".");
                    append_six_digits(&mut summary, micros);
                    summary.append("s");
                },
                None => {},
            }
            i = i + 1;
            proof {
                let now = intervals_of(self.named_timers@.take(i as int));
                assert(now.drop_last() =~= intervals_of(self.named_timers@.take(i - 1)));
            }
        }
        assert(self.named_timers@.take(i as int) =~= self.named_timers@);
        summary
    }
}

} // verus!
