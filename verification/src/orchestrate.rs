//! The batch orchestrator's decisions.
//!
//! Each snapshot descriptor determines its output paths — one per
//! data type — from the output root, its collector and its timestamp
//! alone, so two runs over the same window target the same files.  A
//! descriptor is processed only when the force flag is set or some
//! output is missing; one whose outputs all exist is skipped, which
//! makes a re-run over an unchanged window schedule no work.

use vstd::prelude::*;
use crate::strutil::{dec_str, starts_with_seq, u64_to_string};

verus! {

/// One snapshot to process: its collector, fetch locator, and
/// timestamp as calendar fields plus epoch seconds.
pub struct SnapshotDescriptor {
    pub collector_id: String,
    pub url: String,
    pub year: u64,
    pub month: u64,
    pub day: u64,
    pub epoch: u64,
}

/// A number in decimal, left-padded with one zero below ten.
pub open spec fn pad2_spec(n: nat) -> Seq<char> {
    if n < 10 {
        seq!['0'] + dec_str(n)
    } else {
        dec_str(n)
    }
}

/// A number in decimal, left-padded with one zero below ten.
pub fn pad2(n: u64) -> (r: String)
    ensures
        r@ == pad2_spec(n as nat),
{
    let s = u64_to_string(n);
    if n < 10 {
        let mut r = "0".to_owned();
        proof {
            reveal_strlit("0");
            assert("0"@ =~= seq!['0']);
        }
        r.append(s.as_str());
        r
    } else {
        s
    }
}

/// The deterministic output path of one data type for one snapshot:
/// `root/type/collector/year/month/type_collector_date_epoch.bz2`.
pub open spec fn output_path_spec(
    root: Seq<char>,
    data_type: Seq<char>,
    collector: Seq<char>,
    y: nat,
    mo: nat,
    dy: nat,
    epoch: nat,
) -> Seq<char> {
    root + seq!['/'] + data_type + seq!['/'] + collector + seq!['/'] + pad2_spec(y) + seq!['/']
        + pad2_spec(mo) + seq!['/'] + data_type + seq!['_'] + collector + seq!['_'] + dec_str(y)
        + seq!['-'] + pad2_spec(mo) + seq!['-'] + pad2_spec(dy) + seq!['_'] + dec_str(epoch)
        + seq!['.', 'b', 'z', '2']
}

/// Builds the output path of one data type for one snapshot.
pub fn build_output_path(
    root: &str,
    data_type: &str,
    collector: &str,
    y: u64,
    mo: u64,
    dy: u64,
    epoch: u64,
) -> (r: String)
    ensures
        r@ == output_path_spec(
            root@,
            data_type@,
            collector@,
            y as nat,
            mo as nat,
            dy as nat,
            epoch as nat,
        ),
{
    proof {
        reveal_strlit("/");
        reveal_strlit("_");
        reveal_strlit("-");
        reveal_strlit(".bz2");
        assert("/"@ =~= seq!['/']);
        assert("_"@ =~= seq!['_']);
        assert("-"@ =~= seq!['-']);
        assert(".bz2"@ =~= seq!['.', 'b', 'z', '2']);
    }
    let mut p = root.to_owned();
    p.append("/");
    p.append(data_type);
    p.append("/");
    p.append(collector);
    p.append("/");
    let ys = pad2(y);
    p.append(ys.as_str());
    p.append("/");
    let mos = pad2(mo);
    p.append(mos.as_str());
    p.append("/");
    p.append(data_type);
    p.append("_");
    p.append(collector);
    p.append("_");
    let yd = u64_to_string(y);
    p.append(yd.as_str());
    p.append("-");
    p.append(mos.as_str());
    p.append("-");
    let dys = pad2(dy);
    p.append(dys.as_str());
    p.append("_");
    let es = u64_to_string(epoch);
    p.append(es.as_str());
    p.append(".bz2");
    proof {
        assert(p@ =~= output_path_spec(
            root@,
            data_type@,
            collector@,
            y as nat,
            mo as nat,
            dy as nat,
            epoch as nat,
        ));
    }
    p
}

/// The three output paths of one snapshot, in data-type order:
/// per-peer statistics, prefix-to-origin, AS relationships.
pub fn output_paths(root: &str, desc: &SnapshotDescriptor) -> (v: Vec<String>)
    ensures
        v@.len() == 3,
        v@[0]@ == output_path_spec(
            root@,
            "peer-stats"@,
            desc.collector_id@,
            desc.year as nat,
            desc.month as nat,
            desc.day as nat,
            desc.epoch as nat,
        ),
        v@[1]@ == output_path_spec(
            root@,
            "pfx2as"@,
            desc.collector_id@,
            desc.year as nat,
            desc.month as nat,
            desc.day as nat,
            desc.epoch as nat,
        ),
        v@[2]@ == output_path_spec(
            root@,
            "as2rel"@,
            desc.collector_id@,
            desc.year as nat,
            desc.month as nat,
            desc.day as nat,
            desc.epoch as nat,
        ),
{
    let mut v: Vec<String> = Vec::new();
    v.push(
        build_output_path(
            root,
            "peer-stats",
            desc.collector_id.as_str(),
            desc.year,
            desc.month,
            desc.day,
            desc.epoch,
        ),
    );
    v.push(
        build_output_path(
            root,
            "pfx2as",
            desc.collector_id.as_str(),
            desc.year,
            desc.month,
            desc.day,
            desc.epoch,
        ),
    );
    v.push(
        build_output_path(
            root,
            "as2rel",
            desc.collector_id.as_str(),
            desc.year,
            desc.month,
            desc.day,
            desc.epoch,
        ),
    );
    v
}

/// Whether a snapshot must be processed: always under the force flag,
/// otherwise exactly when some output is missing.
pub open spec fn should_process_spec(force: bool, outputs_exist: Seq<bool>) -> bool {
    force || !(forall|i: int| 0 <= i < outputs_exist.len() ==> outputs_exist[i])
}

/// Decides one snapshot from the existence of its outputs.
#[verifier::loop_isolation(false)]
pub fn should_process(force: bool, outputs_exist: &Vec<bool>) -> (r: bool)
    ensures
        r == should_process_spec(force, outputs_exist@),
{
    if force {
        return true;
    }
    let mut i: usize = 0;
    while i < outputs_exist.len()
        invariant
            0 <= i <= outputs_exist@.len(),
            forall|j: int| 0 <= j < i ==> outputs_exist@[j],
        decreases outputs_exist@.len() - i,
    {
        if !outputs_exist[i] {
            return true;
        }
        i += 1;
    }
    false
}

/// Running the orchestrator a second time over the same window
/// without the force flag schedules no work: output paths are a
/// function of the descriptor alone, so the second run checks the
/// very files the first run wrote, finds every one present, and skips
/// every descriptor.
pub proof fn lemma_second_run_skips(outputs_exist: Seq<bool>)
    requires
        forall|i: int| 0 <= i < outputs_exist.len() ==> outputs_exist[i],
    ensures
        !should_process_spec(false, outputs_exist),
{
}

/// The project a collector belongs to: collectors named `rrc…` are
/// RIPE RIS, all others Route Views.
pub fn project_of_collector(collector: &str) -> (r: String)
    ensures
        starts_with_seq(collector@, "rrc"@) ==> r@ == "riperis"@,
        !starts_with_seq(collector@, "rrc"@) ==> r@ == "route-views"@,
{
    if crate::strutil::str_starts_with(collector, "rrc") {
        "riperis".to_owned()
    } else {
        "route-views".to_owned()
    }
}

/// Whether the year has a 29-day February.
pub open spec fn is_leap_year(y: int) -> bool {
    (y % 4 == 0 && y % 100 != 0) || y % 400 == 0
}

/// Days in a month of a year.
pub open spec fn days_in_month_spec(y: int, m: int) -> int {
    if m == 2 {
        if is_leap_year(y) {
            29
        } else {
            28
        }
    } else if m == 4 || m == 6 || m == 9 || m == 11 {
        30
    } else {
        31
    }
}

/// The calendar day before a date.
pub open spec fn prev_day_spec(y: int, m: int, d: int) -> (int, int, int) {
    if d > 1 {
        (y, m, d - 1)
    } else if m > 1 {
        (y, m - 1, days_in_month_spec(y, m - 1))
    } else {
        (y - 1, 12, 31)
    }
}

/// The calendar day before a date.
pub fn prev_day(y: i32, m: u32, d: u32) -> (r: (i32, u32, u32))
    requires
        1 <= m <= 12,
        1 <= d <= 31,
        y > i32::MIN,
    ensures
        (r.0 as int, r.1 as int, r.2 as int) == prev_day_spec(y as int, m as int, d as int),
{
    if d > 1 {
        (y, m, d - 1)
    } else if m > 1 {
        let pm = m - 1;
        let dim: u32 = if pm == 2 {
            if (y % 4 == 0 && y % 100 != 0) || y % 400 == 0 {
                29
            } else {
                28
            }
        } else if pm == 4 || pm == 6 || pm == 9 || pm == 11 {
            30
        } else {
            31
        };
        (y, pm, dim)
    } else {
        (y - 1, 12, 31)
    }
}

} // verus!
