//! Fault injection for crash-recovery testing.
//!
//! Where fault injection is on, every fsync is counted, and a process that is
//! started with a number in `SV_FAIL_AT_FSYNC` is to abort at the fsync of that
//! number. Where it is off, or without a number, nothing ever aborts.

use vstd::prelude::*;

use crate::text::{number_in, parse_decimal};

verus! {

/// How many fsyncs there were, and the one to fail at.
#[derive(Debug, Clone, Copy, PartialEq, Eq)]
pub struct FsyncCount {
    /// Fault injection is on.
    pub enabled: bool,
    pub done: u64,
    pub fail_at: Option<u64>,
}

/// The count that a process starts with, whose variable has the value `var`.
pub open spec fn started(enabled: bool, var: Option<Seq<char>>) -> FsyncCount {
    FsyncCount {
        enabled,
        done: 0,
        fail_at: match var {
            Some(v) => number_in(v),
            None => None,
        },
    }
}

/// The count after one more fsync.
pub open spec fn one_more(c: FsyncCount) -> FsyncCount {
    FsyncCount {
        done: if !c.enabled {
            c.done
        } else if c.done == u64::MAX {
            0
        } else {
            (c.done + 1) as u64
        },
        ..c
    }
}

/// The process is to abort at the next fsync after `c`.
pub open spec fn aborts_next(c: FsyncCount) -> bool {
    c.enabled && c.fail_at == Some(one_more(c).done)
}

/// What `c` tells of the number of fsyncs.
pub open spec fn told(c: FsyncCount) -> u64 {
    if c.enabled {
        c.done
    } else {
        0
    }
}

/// No fsync yet. `var` is the value of `SV_FAIL_AT_FSYNC`, if it is set; one
/// that is no number has no effect.
pub fn from_var(enabled: bool, var: Option<&str>) -> (c: FsyncCount)
    ensures
        c == started(
            enabled,
            match var {
                Some(v) => Some(v@),
                None => None,
            },
        ),
{
    let fail_at = match var {
        Some(v) => parse_decimal(v),
        None => None,
    };
    FsyncCount { enabled, done: 0, fail_at }
}

/// Counts one fsync, and tells whether the process is to abort at it. Where
/// fault injection is off, this does nothing.
pub fn maybe_fail(c: &mut FsyncCount) -> (abort: bool)
    ensures
        *final(c) == one_more(*old(c)),
        abort == aborts_next(*old(c)),
{
    if !c.enabled {
        return false;
    }
    c.done = c.done.wrapping_add(1);
    match c.fail_at {
        Some(target) => c.done == target,
        None => false,
    }
}

/// The number of fsyncs so far; zero where fault injection is off.
pub fn count(c: &FsyncCount) -> (n: u64)
    ensures
        n == told(*c),
{
    if c.enabled {
        c.done
    } else {
        0
    }
}

/// `cs` are the counts before and after each fsync of a process that was
/// started with fault injection on or off and with its variable at `var`, and
/// `aborts` what each of them told.
pub open spec fn counts(
    enabled: bool,
    var: Option<Seq<char>>,
    cs: Seq<FsyncCount>,
    aborts: Seq<bool>,
) -> bool {
    &&& cs.len() == aborts.len() + 1
    &&& cs[0] == started(enabled, var)
    &&& forall|i: int|
        0 <= i < aborts.len() ==> cs[i + 1] == one_more(cs[i]) && (#[trigger] aborts[i]
            <==> aborts_next(cs[i]))
}

/// A process aborts at its `n`-th fsync if and only if fault injection is on
/// and its variable holds the number `n`. It tells how many fsyncs there were;
/// with fault injection off, nothing is counted.
pub proof fn lemma_aborts_at_the_number(
    enabled: bool,
    var: Option<Seq<char>>,
    cs: Seq<FsyncCount>,
    aborts: Seq<bool>,
    n: int,
)
    requires
        counts(enabled, var, cs, aborts),
        1 <= n <= aborts.len(),
        n <= u64::MAX,
    ensures
        aborts[n - 1] <==> enabled && var is Some && number_in(var->0) == Some(n as u64),
        told(cs[0]) == 0,
        told(cs[n]) == (if enabled {
            n
        } else {
            0
        }),
{
    lemma_counted(enabled, var, cs, aborts, n - 1);
    lemma_counted(enabled, var, cs, aborts, n);
    let last = aborts[n - 1];
}

proof fn lemma_counted(
    enabled: bool,
    var: Option<Seq<char>>,
    cs: Seq<FsyncCount>,
    aborts: Seq<bool>,
    n: int,
)
    requires
        counts(enabled, var, cs, aborts),
        0 <= n <= aborts.len(),
        n <= u64::MAX,
    ensures
        cs[n].enabled == enabled,
        cs[n].fail_at == (match var {
            Some(v) => number_in(v),
            None => None,
        }),
        cs[n].done == (if enabled {
            n
        } else {
            0
        }),
    decreases n,
{
    if n > 0 {
        lemma_counted(enabled, var, cs, aborts, n - 1);
        let last = aborts[n - 1];
        assert(cs[n - 1 + 1] == one_more(cs[n - 1]));
    }
}

} // verus!
