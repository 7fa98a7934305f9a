//! One installation or update at a time: a mark within the process, and a lock
//! on a file between processes. The mark comes first, so that a second attempt
//! in the same process is not taken for another process.
use vstd::prelude::*;

use crate::paths::AssetPath;
use crate::paths;
use crate::text::{owned, push_text};

verus! {

/// The file that the lock between processes is on.
pub const UPDATE_LOCK_FILE: &'static str = "update.lock";

/// Where the lock between processes is.
pub fn update_lock_path(irodori_root: &AssetPath) -> (r: AssetPath)
    ensures
        r@ == paths::below(irodori_root@, UPDATE_LOCK_FILE@),
{
    irodori_root.join(UPDATE_LOCK_FILE)
}

/// The mark within the process.
#[derive(Clone, Copy, Debug, PartialEq, Eq, Structural)]
pub struct BusyFlag {
    pub busy: bool,
}

impl BusyFlag {
    /// Nothing is in progress.
    pub fn new() -> (r: Self)
        ensures
            !r.busy,
    {
        BusyFlag { busy: false }
    }
}

/// What came of trying the lock between processes.
#[derive(Debug, PartialEq, Eq)]
pub enum LockAttempt {
    Taken,
    /// Another process holds it.
    HeldElsewhere,
    /// It could not be tried; says why.
    Failed(String),
}

/// Permission to install or update.
#[derive(Debug, PartialEq, Eq)]
pub struct IrodoriBusyGuard {
    /// The lock between processes is held, too.
    pub cross_process: bool,
}

pub const BUSY_HERE: &'static str =
    "Irodori ランタイムの導入または更新がすでに進行中です。終わってからもう一度お試しください";

pub const BUSY_ELSEWHERE: &'static str =
    "もう 1 つの ugg が Irodori ランタイムの導入か更新をしています。そちらが終わるか、そちらを終了してから、もう一度お試しください";

/// Whether an installation or an update is in progress in this process.
pub fn is_busy(flag: &BusyFlag) -> (r: bool)
    ensures
        r == flag.busy,
{
    flag.busy
}

/// Whether one is in progress in this process or another. Whether another
/// process holds the lock counts only where this one has no mark; that it could
/// not be tried counts as free.
pub fn is_busy_for(flag: &BusyFlag, attempt: &LockAttempt) -> (r: bool)
    ensures
        r == (flag.busy || *attempt == LockAttempt::HeldElsewhere),
{
    is_busy(flag) || is_held_elsewhere(attempt)
}

/// Whether an attempt showed that another process holds the lock.
pub fn is_held_elsewhere(attempt: &LockAttempt) -> (r: bool)
    ensures
        r == (*attempt == LockAttempt::HeldElsewhere),
{
    match attempt {
        LockAttempt::HeldElsewhere => true,
        _ => false,
    }
}

/// What is told where the lock could not be tried.
pub open spec fn lock_failed_text(path: Seq<char>, why: Seq<char>) -> Seq<char> {
    "導入・更新の錠を取れません（"@ + path + "）: "@ + why
}

impl IrodoriBusyGuard {
    /// Takes the mark within the process.
    pub fn acquire(flag: &mut BusyFlag) -> (r: Result<Self, String>)
        ensures
            final(flag).busy,
            r is Ok <==> !old(flag).busy,
            r matches Ok(g) ==> !g.cross_process,
            r matches Err(e) ==> e@ == BUSY_HERE@,
    {
        if flag.busy {
            return Err(owned(BUSY_HERE));
        }
        flag.busy = true;
        Ok(IrodoriBusyGuard { cross_process: false })
    }

    /// Takes the mark within the process, then the lock between processes, by
    /// what came of trying it. Where that is refused, the mark is given back.
    pub fn acquire_for(flag: &mut BusyFlag, attempt: &LockAttempt, lock_path: &str) -> (r: Result<
        Self,
        String,
    >)
        ensures
            match r {
                Ok(g) => !old(flag).busy && *attempt == LockAttempt::Taken && final(flag).busy
                    && g.cross_process,
                Err(e) => *final(flag) == *old(flag) && (if old(flag).busy {
                    e@ == BUSY_HERE@
                } else {
                    match *attempt {
                        LockAttempt::Taken => false,
                        LockAttempt::HeldElsewhere => e@ == BUSY_ELSEWHERE@,
                        LockAttempt::Failed(why) => e@ == lock_failed_text(lock_path@, why@),
                    }
                }),
            },
    {
        match Self::acquire(flag) {
            Err(e) => Err(e),
            Ok(guard) => match attempt {
                LockAttempt::Taken => Ok(IrodoriBusyGuard { cross_process: true }),
                LockAttempt::HeldElsewhere => {
                    guard.release(flag);
                    Err(owned(BUSY_ELSEWHERE))
                },
                LockAttempt::Failed(why) => {
                    guard.release(flag);
                    let mut out = owned("導入・更新の錠を取れません（");
                    push_text(&mut out, lock_path);
                    push_text(&mut out, "）: ");
                    push_text(&mut out, why.as_str());
                    Err(out)
                },
            },
        }
    }

    /// Gives the mark back.
    pub fn release(self, flag: &mut BusyFlag)
        ensures
            !final(flag).busy,
    {
        flag.busy = false;
    }
}

/// What to do after an attempt that found the lock held.
#[derive(Clone, Copy, Debug, PartialEq, Eq, Structural)]
pub enum LockWait {
    /// It is free: it is taken.
    Take,
    /// Try again after a short while.
    TryAgain,
    /// Time is up.
    GiveUp,
    /// It cannot be tried.
    Fail,
}

/// How long to wait between two attempts, in milliseconds.
pub const LOCK_RETRY_MS: u64 = 10;

/// What to do after an attempt: one who tries the lock and lets it go at once
/// holds it for a moment only, so it is tried until time is up.
pub fn acquire_within(attempt: &LockAttempt, now: u64, deadline: u64) -> (r: LockWait)
    ensures
        r == (match *attempt {
            LockAttempt::Taken => LockWait::Take,
            LockAttempt::HeldElsewhere => if now < deadline {
                LockWait::TryAgain
            } else {
                LockWait::GiveUp
            },
            LockAttempt::Failed(_) => LockWait::Fail,
        }),
{
    match attempt {
        LockAttempt::Taken => LockWait::Take,
        LockAttempt::HeldElsewhere => if now < deadline {
            LockWait::TryAgain
        } else {
            LockWait::GiveUp
        },
        LockAttempt::Failed(_) => LockWait::Fail,
    }
}

/// What is done to the mark within the process.
pub enum BusyEvent {
    /// Someone asks for it.
    Ask,
    /// The one who has it gives it back.
    GiveBack,
}

/// How many have the mark after the first `n` events, where one who asks gets it
/// only if `acquire` hands it out, and it is given back only by one who has it.
pub open spec fn holders(e: Seq<BusyEvent>, n: int) -> int
    decreases n,
{
    if n <= 0 {
        0
    } else {
        let before = holders(e, n - 1);
        match e[n - 1] {
            BusyEvent::Ask => if mark_after(e, n - 1) {
                before
            } else {
                before + 1
            },
            BusyEvent::GiveBack => if before > 0 {
                before - 1
            } else {
                before
            },
        }
    }
}

/// The mark after the first `n` events, as `acquire` and `release` leave it.
pub open spec fn mark_after(e: Seq<BusyEvent>, n: int) -> bool
    decreases n,
{
    if n <= 0 {
        false
    } else {
        match e[n - 1] {
            BusyEvent::Ask => true,
            BusyEvent::GiveBack => if holders(e, n - 1) > 0 {
                false
            } else {
                mark_after(e, n - 1)
            },
        }
    }
}

/// However the mark is asked for and given back, no more than one has it, and
/// it is set exactly while one does.
pub proof fn one_at_a_time(e: Seq<BusyEvent>, n: int)
    requires
        0 <= n <= e.len(),
    ensures
        0 <= holders(e, n) <= 1,
        mark_after(e, n) <==> holders(e, n) == 1,
    decreases n,
{
    if n > 0 {
        one_at_a_time(e, n - 1);
    }
}

} // verus!
