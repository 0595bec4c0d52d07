//! The limit on open files, and the batch size that it allows.

use crate::input::Opts;
use rlimit::{getrlimit, setrlimit, Resource, Rlim};
use vstd::prelude::*;

verus! {

/// The limit on open files that an ordinary desktop system has.
pub const DEFAULT_FILE_DESCRIPTORS_LIMIT: u64 = 8000;

/// The batch size that proved safe on most systems.
pub const AVERAGE_BATCH_SIZE: u64 = 3000;

/// The room left below the limit for the files that are open anyway.
pub const HEADROOM: u64 = 100;

/// The limit reported where the system does not tell one.
pub const UNLIMITED: u64 = 0xffff_ffff_ffff_ffff;

/// The batch size for a scan that asks for `requested` sockets at once while
/// the system allows `limit` open files.
pub open spec fn inferred_batch_size(requested: u16, limit: u64) -> int {
    if limit >= requested {
        requested as int
    } else if limit < AVERAGE_BATCH_SIZE {
        limit as int / 2
    } else if limit > DEFAULT_FILE_DESCRIPTORS_LIMIT {
        AVERAGE_BATCH_SIZE as int
    } else {
        limit - HEADROOM
    }
}

/// What the user should be told about the batch size.
#[derive(Clone, Copy, Debug, PartialEq, Eq, Structural)]
pub enum BatchAdvice {
    /// Nothing.
    Nothing,
    /// The limit leaves room: a batch of `suggested` sockets would be faster.
    RaiseBatchSize { suggested: u64 },
    /// The limit is below the batch size, which was lowered.
    LimitBelowBatchSize,
    /// The limit is so small that the batch size was set to half of it.
    VerySmallLimit,
}

/// The advice that goes with `inferred_batch_size`. `pinned` says that the
/// user chose the limit.
pub open spec fn batch_advice_for(requested: u16, pinned: bool, limit: u64) -> BatchAdvice {
    if limit >= requested {
        if pinned {
            BatchAdvice::Nothing
        } else {
            BatchAdvice::RaiseBatchSize {
                suggested: if limit >= HEADROOM {
                    (limit - HEADROOM) as u64
                } else {
                    0
                },
            }
        }
    } else if limit < AVERAGE_BATCH_SIZE {
        BatchAdvice::VerySmallLimit
    } else {
        BatchAdvice::LimitBelowBatchSize
    }
}

/// Lowers the batch size of `opts` to what `ulimit` open files allow.
pub fn infer_batch_size(opts: &Opts, ulimit: u64) -> (batch_size: u16)
    ensures
        batch_size == inferred_batch_size(opts.batch_size, ulimit),
{
    let requested: u64 = opts.batch_size as u64;
    if ulimit >= requested {
        opts.batch_size
    } else if ulimit < AVERAGE_BATCH_SIZE {
        (ulimit / 2) as u16
    } else if ulimit > DEFAULT_FILE_DESCRIPTORS_LIMIT {
        AVERAGE_BATCH_SIZE as u16
    } else {
        (ulimit - HEADROOM) as u16
    }
}

/// What to tell the user about the batch size of `opts` under `ulimit` open
/// files.
pub fn batch_advice(opts: &Opts, ulimit: u64) -> (advice: BatchAdvice)
    ensures
        advice == batch_advice_for(opts.batch_size, opts.ulimit is Some, ulimit),
{
    let requested: u64 = opts.batch_size as u64;
    if ulimit >= requested {
        if opts.ulimit.is_some() {
            BatchAdvice::Nothing
        } else if ulimit >= HEADROOM {
            BatchAdvice::RaiseBatchSize { suggested: ulimit - HEADROOM }
        } else {
            BatchAdvice::RaiseBatchSize { suggested: 0 }
        }
    } else if ulimit < AVERAGE_BATCH_SIZE {
        BatchAdvice::VerySmallLimit
    } else {
        BatchAdvice::LimitBelowBatchSize
    }
}

/// The inferred batch size is never above both the request and the limit.
pub proof fn lemma_batch_size_is_bounded(requested: u16, limit: u64)
    ensures
        0 <= inferred_batch_size(requested, limit) <= u16::MAX,
        inferred_batch_size(requested, limit) <= if requested >= limit {
            requested as int
        } else {
            limit as int
        },
{
}

/// The inferred batch size is at least 1 where at least 1 socket is asked
/// for and the limit either covers the request or is at least 2.
pub proof fn lemma_batch_size_is_positive(requested: u16, limit: u64)
    requires
        requested >= 1,
        limit >= 2 || limit >= requested,
    ensures
        1 <= inferred_batch_size(requested, limit),
{
}

/// A lowered batch size is below the request.
pub proof fn lemma_batch_size_lowered(requested: u16, limit: u64)
    requires
        limit < requested,
    ensures
        inferred_batch_size(requested, limit) < requested,
{
}

/// What became of the request to change the limit on open files.
#[derive(Clone, Copy, Debug, PartialEq, Eq, Structural)]
pub enum Raise {
    /// The user asked for no change.
    NotAsked,
    /// The system took the new limit.
    Done,
    /// The system refused the new limit.
    Refused,
}

/// The limit on open files after the user's wish was put to the system.
#[derive(Clone, Copy, Debug, PartialEq, Eq, Structural)]
pub struct LimitReport {
    /// The soft limit now in force, `UNLIMITED` where the system tells none.
    pub limit: u64,
    /// What became of the user's wish.
    pub raise: Raise,
}

/// The report for a user who asked for `wish`, where the system answered the
/// request with `taken` and now tells `soft` as its limit.
pub open spec fn limit_report_for(wish: Option<u64>, taken: bool, soft: Option<u64>) -> LimitReport {
    LimitReport {
        limit: match soft {
            Some(limit) => limit,
            None => UNLIMITED,
        },
        raise: if wish is None {
            Raise::NotAsked
        } else if taken {
            Raise::Done
        } else {
            Raise::Refused
        },
    }
}

/// Puts together the report on the limit from what the system answered.
pub fn limit_report(wish: Option<u64>, taken: bool, soft: Option<u64>) -> (report: LimitReport)
    ensures
        report == limit_report_for(wish, taken, soft),
{
    let limit: u64 = match soft {
        Some(limit) => limit,
        None => UNLIMITED,
    };
    let raise = if wish.is_none() {
        Raise::NotAsked
    } else if taken {
        Raise::Done
    } else {
        Raise::Refused
    };
    LimitReport { limit, raise }
}

/// Calls `rlimit::setrlimit` for the open-file resource with the given soft
/// and hard limit, and tells whether the system took them. Nothing is claimed
/// of the answer: the system decides.
#[verifier::external_body]
fn set_open_file_limit(soft: u64, hard: u64) -> (taken: bool) {
    setrlimit(Resource::NOFILE, Rlim::from_raw(soft), Rlim::from_raw(hard)).is_ok()
}

/// Calls `rlimit::getrlimit` for the open-file resource and hands out the soft
/// limit, or nothing where the system gave an error. Nothing is claimed of the
/// number: the system decides.
#[verifier::external_body]
fn get_open_file_limit() -> (soft: Option<u64>) {
    match getrlimit(Resource::NOFILE) {
        Ok((soft, _)) => Some(soft.as_raw()),
        Err(_) => None,
    }
}

/// What to ask of the system for these options: nothing where they name no
/// limit, else the limit that they name as the soft limit and as the hard
/// limit.
pub fn limit_request(opts: &Opts) -> (request: Option<(u64, u64)>)
    ensures
        request == match opts.ulimit {
            Some(limit) => Some((limit, limit)),
            None => None,
        },
{
    match opts.ulimit {
        Some(limit) => Some((limit, limit)),
        None => None,
    }
}

/// Puts the request of `limit_request` to the system, if there is one, then
/// reads the limit in force and reports both. A refusal is reported, not
/// fatal. The report is put together from what the system answered as
/// `limit_report_for` says.
pub fn adjust_ulimit(opts: &Opts) -> (report: LimitReport)
    ensures
        opts.ulimit is None <==> report.raise == Raise::NotAsked,
        exists|taken: bool, soft: Option<u64>|
            report == #[trigger] limit_report_for(opts.ulimit, taken, soft),
{
    let taken = match limit_request(opts) {
        Some((soft, hard)) => set_open_file_limit(soft, hard),
        None => false,
    };
    let soft = get_open_file_limit();
    limit_report(opts.ulimit, taken, soft)
}

/// Asks the system for the limit that `opts` names, if it names one, and
/// returns the limit then in force, whatever became of the request: the limit
/// of the report that `limit_report_for` puts together from what the system
/// answered.
pub fn adjust_ulimit_size(opts: &Opts) -> (limit: u64)
    ensures
        exists|taken: bool, soft: Option<u64>|
            limit == (#[trigger] limit_report_for(opts.ulimit, taken, soft)).limit,
{
    let report = adjust_ulimit(opts);
    report.limit
}

} // verus!
