//! Ranks the processes of a host by the CPU time they used between two
//! snapshots, normalised against the whole system's CPU time.
use vstd::prelude::*;

pub mod process;
pub mod usage;
pub mod select;
pub mod text;
pub mod stat;

use crate::process::{Proc, strictly_ascending};
use crate::select::{selected, top_n};
use crate::usage::{Top, reconcile, usage_rows, views};

verus! {

/// How many processes are reported per interval.
pub const TOP_COUNT: usize = 10;

/// System ticks between two readings of the total CPU time; a reading that
/// went backwards yields no interval at all.
pub open spec fn interval_spec(total_before: u64, total_after: u64) -> u64 {
    if total_before <= total_after {
        (total_after - total_before) as u64
    } else {
        0
    }
}

pub fn interval_ticks(total_before: u64, total_after: u64) -> (r: u64)
    ensures
        r == interval_spec(total_before, total_after),
{
    if total_before <= total_after {
        total_after - total_before
    } else {
        0
    }
}

/// The `n` processes that used the most CPU time between the snapshots
/// `before` and `after`, given the total system ticks read with each and the
/// number of online cores.
pub fn top_processes(
    before: &Vec<Proc>,
    after: &Vec<Proc>,
    total_before: u64,
    total_after: u64,
    cores: u32,
    n: usize,
) -> (r: Vec<Top>)
    requires
        strictly_ascending(before@),
        strictly_ascending(after@),
    ensures
        selected(
            usage_rows(before@, after@, interval_spec(total_before, total_after), cores),
            n as nat,
            views(r@),
        ),
{
    let total_delta = interval_ticks(total_before, total_after);
    let rows = reconcile(before, after, total_delta, cores);
    top_n(&rows, n)
}

} // verus!
