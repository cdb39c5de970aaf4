//! Classification of system-wide input/output activity while a line
//! looks idle.  Sampling `/proc` and sleeping between the two samples is
//! the caller's work; the judgment from the two samples is pure.

use vstd::prelude::*;

verus! {

/// One snapshot of system-wide disk-write and network-receive totals.
#[derive(Debug, Clone, Copy, PartialEq, Eq, Structural)]
pub struct IoSample {
    pub disk_write_bytes: u64,
    pub net_recv_bytes: u64,
}

/// What the redundancy check concluded about an idle-looking line.
#[derive(Debug, Clone, Copy, PartialEq, Eq, Structural)]
pub enum RedundancyVerdict {
    DiskActivityOtherLine,
    DiskActivityUnattributed,
    NetActivityOtherLine,
    NetActivityUnattributed,
    ConfirmedIdle,
}

/// Bytes per second above which activity counts as significant.
pub const ACTIVITY_THRESHOLD_BPS: u64 = 1048576;

pub open spec fn disk_rate_of(s1: IoSample, s2: IoSample, elapsed_secs: u64) -> int {
    (if s2.disk_write_bytes >= s1.disk_write_bytes {
        s2.disk_write_bytes - s1.disk_write_bytes
    } else {
        0int
    }) / (elapsed_secs as int)
}

pub open spec fn net_rate_of(s1: IoSample, s2: IoSample, elapsed_secs: u64) -> int {
    (if s2.net_recv_bytes >= s1.net_recv_bytes {
        s2.net_recv_bytes - s1.net_recv_bytes
    } else {
        0int
    }) / (elapsed_secs as int)
}

/// Judges two system-wide samples taken `elapsed_secs` apart: high disk
/// activity first, then high network activity, each attributed to the
/// other line when that line shows recent file writes; otherwise the
/// machine is confirmed idle.
pub fn classify_redundancy(
    s1: &IoSample,
    s2: &IoSample,
    elapsed_secs: u64,
    other_line_active: bool,
) -> (r: RedundancyVerdict)
    requires
        elapsed_secs >= 1,
    ensures
        ({
            let disk = disk_rate_of(*s1, *s2, elapsed_secs);
            let net = net_rate_of(*s1, *s2, elapsed_secs);
            r == (if disk > ACTIVITY_THRESHOLD_BPS {
                if other_line_active {
                    RedundancyVerdict::DiskActivityOtherLine
                } else {
                    RedundancyVerdict::DiskActivityUnattributed
                }
            } else if net > ACTIVITY_THRESHOLD_BPS {
                if other_line_active {
                    RedundancyVerdict::NetActivityOtherLine
                } else {
                    RedundancyVerdict::NetActivityUnattributed
                }
            } else {
                RedundancyVerdict::ConfirmedIdle
            })
        }),
{
    let disk_delta = if s2.disk_write_bytes >= s1.disk_write_bytes {
        s2.disk_write_bytes - s1.disk_write_bytes
    } else {
        0
    };
    let net_delta = if s2.net_recv_bytes >= s1.net_recv_bytes {
        s2.net_recv_bytes - s1.net_recv_bytes
    } else {
        0
    };
    let disk_bps = disk_delta / elapsed_secs;
    let net_bps = net_delta / elapsed_secs;
    if disk_bps > ACTIVITY_THRESHOLD_BPS {
        if other_line_active {
            RedundancyVerdict::DiskActivityOtherLine
        } else {
            RedundancyVerdict::DiskActivityUnattributed
        }
    } else if net_bps > ACTIVITY_THRESHOLD_BPS {
        if other_line_active {
            RedundancyVerdict::NetActivityOtherLine
        } else {
            RedundancyVerdict::NetActivityUnattributed
        }
    } else {
        RedundancyVerdict::ConfirmedIdle
    }
}

/// Whether any of the given modification times (minutes since the epoch)
/// falls within `minutes` of `now`.
pub open spec fn any_recent(times: Seq<i64>, now: i64, minutes: i64) -> bool {
    exists|i: int| 0 <= i < times.len() && now - #[trigger] times[i] < minutes
}

/// Whether the other line shows a file written within the last minute,
/// given the modification times its file tree holds.
pub fn is_other_line_active(other_line_mod_times: &Vec<i64>, now_minutes: i64) -> (r: bool)
    requires
        -0x4000_0000_0000_0000 < now_minutes < 0x4000_0000_0000_0000,
        forall|i: int|
            -0x4000_0000_0000_0000 < #[trigger] other_line_mod_times@[i] < 0x4000_0000_0000_0000,
    ensures
        r == any_recent(other_line_mod_times@, now_minutes, 1),
{
    let mut i: usize = 0;
    while i < other_line_mod_times.len()
        invariant
            i <= other_line_mod_times@.len(),
            forall|j: int| 0 <= j < i ==> !(now_minutes - #[trigger] other_line_mod_times@[j] < 1),
            -0x4000_0000_0000_0000 < now_minutes < 0x4000_0000_0000_0000,
            forall|j: int|
                -0x4000_0000_0000_0000 < #[trigger] other_line_mod_times@[j]
                    < 0x4000_0000_0000_0000,
        decreases other_line_mod_times@.len() - i,
    {
        if now_minutes - other_line_mod_times[i] < 1 {
            return true;
        }
        i += 1;
    }
    false
}

} // verus!
