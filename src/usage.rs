use vstd::prelude::*;

use crate::process::{Proc, strictly_ascending};

verus! {

/// CPU use of one process over a sampling interval.
///
/// The usage in percent is `pcpu_num / pcpu_den`, kept as an exact fraction:
/// `pcpu_num` is `cputime * 100 * cores` and `pcpu_den` the total ticks that
/// the whole system spent in the interval, which is never zero.
pub struct Top {
    pub tid: u64,
    /// Ticks the process consumed during the interval.
    pub cputime: u64,
    pub cmd: String,
    pub pcpu_num: u128,
    pub pcpu_den: u64,
}

/// The mathematical content of a [`Top`].
pub struct TopView {
    pub tid: u64,
    pub cputime: u64,
    pub cmd: Seq<char>,
    pub pcpu_num: int,
    pub pcpu_den: int,
}

impl View for Top {
    type V = TopView;

    open spec fn view(&self) -> TopView {
        TopView {
            tid: self.tid,
            cputime: self.cputime,
            cmd: self.cmd@,
            pcpu_num: self.pcpu_num as int,
            pcpu_den: self.pcpu_den as int,
        }
    }
}

impl Top {
    pub fn new(tid: u64, cputime: u64, cmd: &str, pcpu_num: u128, pcpu_den: u64) -> (r: Top)
        ensures
            r@ == (TopView {
                tid,
                cputime,
                cmd: cmd@,
                pcpu_num: pcpu_num as int,
                pcpu_den: pcpu_den as int,
            }),
    {
        Top { tid, cputime, cmd: cmd.to_owned(), pcpu_num, pcpu_den }
    }

    /// A field-for-field copy.
    pub fn duplicate(&self) -> (r: Top)
        ensures
            r@ == self@,
    {
        Top {
            tid: self.tid,
            cputime: self.cputime,
            cmd: self.cmd.clone(),
            pcpu_num: self.pcpu_num,
            pcpu_den: self.pcpu_den,
        }
    }
}

pub open spec fn views(s: Seq<Top>) -> Seq<TopView> {
    s.map_values(|t: Top| t@)
}

pub open spec fn has_tid(s: Seq<Proc>, tid: u64) -> bool {
    exists|i: int| 0 <= i < s.len() && s[i].tid == tid
}

/// Position of the sample with identifier `tid` (meaningful when `has_tid`).
pub open spec fn index_of_tid(s: Seq<Proc>, tid: u64) -> int {
    choose|i: int| 0 <= i < s.len() && s[i].tid == tid
}

/// `later` has a sound baseline in `earlier`: the same identifier with the same
/// command (else the identifier was reused) and no fewer ticks.
#[verifier::opaque]
pub open spec fn has_baseline(earlier: Seq<Proc>, later: Proc) -> bool {
    has_tid(earlier, later.tid) && {
        let b = earlier[index_of_tid(earlier, later.tid)];
        b.cmd@ == later.cmd@ && b.cputime <= later.cputime
    }
}

/// The usage record of `later` against its baseline `base`.
pub open spec fn usage_of(base: Proc, later: Proc, total_delta: u64, cores: u32) -> TopView {
    let delta = later.cputime - base.cputime;
    TopView {
        tid: later.tid,
        cputime: delta as u64,
        cmd: later.cmd@,
        pcpu_num: delta * 100 * cores,
        pcpu_den: total_delta as int,
    }
}

/// One record for each sample of `s2`, in order, that has a sound baseline in `s1`.
pub open spec fn matched_rows(s1: Seq<Proc>, s2: Seq<Proc>, total_delta: u64, cores: u32) -> Seq<
    TopView,
>
    decreases s2.len(),
{
    if s2.len() == 0 {
        Seq::empty()
    } else {
        let rest = matched_rows(s1, s2.drop_last(), total_delta, cores);
        let p = s2.last();
        if has_baseline(s1, p) {
            rest.push(usage_of(s1[index_of_tid(s1, p.tid)], p, total_delta, cores))
        } else {
            rest
        }
    }
}

/// The records of an interval: none when no system time passed, else the matched rows.
pub open spec fn usage_rows(s1: Seq<Proc>, s2: Seq<Proc>, total_delta: u64, cores: u32) -> Seq<
    TopView,
> {
    if total_delta == 0 {
        Seq::empty()
    } else {
        matched_rows(s1, s2, total_delta, cores)
    }
}

proof fn lemma_index_of_tid(s: Seq<Proc>, i: int)
    requires
        strictly_ascending(s),
        0 <= i < s.len(),
    ensures
        has_tid(s, s[i].tid),
        index_of_tid(s, s[i].tid) == i,
{
    let c = index_of_tid(s, s[i].tid);
    assert(0 <= c < s.len() && s[c].tid == s[i].tid);
}

/// Each record comes from a sample of `s2` that has a sound baseline, and the
/// records rise strictly by identifier.
proof fn lemma_rows_origin(s1: Seq<Proc>, s2: Seq<Proc>, total_delta: u64, cores: u32)
    requires
        strictly_ascending(s2),
    ensures
        forall|k: int|
            0 <= k < matched_rows(s1, s2, total_delta, cores).len() ==> exists|m: int|
                0 <= m < s2.len() && s2[m].tid == #[trigger] matched_rows(
                    s1,
                    s2,
                    total_delta,
                    cores,
                )[k].tid && has_baseline(s1, s2[m]),
        forall|k1: int, k2: int|
            0 <= k1 < k2 < matched_rows(s1, s2, total_delta, cores).len() ==> matched_rows(
                s1,
                s2,
                total_delta,
                cores,
            )[k1].tid < matched_rows(s1, s2, total_delta, cores)[k2].tid,
    decreases s2.len(),
{
    if s2.len() > 0 {
        let s2p = s2.drop_last();
        lemma_rows_origin(s1, s2p, total_delta, cores);
        let rest = matched_rows(s1, s2p, total_delta, cores);
        let rows = matched_rows(s1, s2, total_delta, cores);
        let p = s2.last();
        assert forall|k: int| 0 <= k < rest.len() implies rest[k].tid < p.tid by {
            let m = choose|m: int|
                0 <= m < s2p.len() && s2p[m].tid == rest[k].tid && has_baseline(s1, s2p[m]);
            assert(s2[m] == s2p[m]);
        }
        assert forall|k: int| 0 <= k < rows.len() implies exists|m: int|
            0 <= m < s2.len() && s2[m].tid == #[trigger] rows[k].tid && has_baseline(s1, s2[m]) by {
            if k < rest.len() {
                let m = choose|m: int|
                    0 <= m < s2p.len() && s2p[m].tid == rest[k].tid && has_baseline(s1, s2p[m]);
                assert(s2[m] == s2p[m]);
            } else {
                assert(s2[s2.len() - 1] == p);
            }
        }
    }
}

/// Every sample of `s2` with a sound baseline has a record.
proof fn lemma_rows_cover(s1: Seq<Proc>, s2: Seq<Proc>, total_delta: u64, cores: u32)
    ensures
        forall|m: int|
            0 <= m < s2.len() && has_baseline(s1, #[trigger] s2[m]) ==> exists|k: int|
                0 <= k < matched_rows(s1, s2, total_delta, cores).len() && matched_rows(
                    s1,
                    s2,
                    total_delta,
                    cores,
                )[k].tid == s2[m].tid,
    decreases s2.len(),
{
    if s2.len() > 0 {
        let s2p = s2.drop_last();
        lemma_rows_cover(s1, s2p, total_delta, cores);
        let rest = matched_rows(s1, s2p, total_delta, cores);
        let rows = matched_rows(s1, s2, total_delta, cores);
        assert forall|m: int| 0 <= m < s2.len() && has_baseline(s1, #[trigger] s2[m]) implies exists|k: int|
            0 <= k < rows.len() && rows[k].tid == s2[m].tid by {
            if m < s2p.len() {
                assert(s2p[m] == s2[m]);
                let k = choose|k: int| 0 <= k < rest.len() && rest[k].tid == s2p[m].tid;
                assert(rows[k] == rest[k]);
            } else {
                assert(rows[rows.len() - 1].tid == s2.last().tid);
            }
        }
    }
}

/// Every record carries the interval's system ticks and its scaled usage.
proof fn lemma_rows_values(s1: Seq<Proc>, s2: Seq<Proc>, total_delta: u64, cores: u32)
    ensures
        forall|k: int|
            0 <= k < matched_rows(s1, s2, total_delta, cores).len() ==> {
                let t = #[trigger] matched_rows(s1, s2, total_delta, cores)[k];
                &&& t.pcpu_den == total_delta
                &&& t.pcpu_num == t.cputime * 100 * cores
            },
    decreases s2.len(),
{
    if s2.len() > 0 {
        let s2p = s2.drop_last();
        lemma_rows_values(s1, s2p, total_delta, cores);
        let p = s2.last();
        let rest = matched_rows(s1, s2p, total_delta, cores);
        let rows = matched_rows(s1, s2, total_delta, cores);
        assert forall|k: int| 0 <= k < rows.len() implies {
            let t = #[trigger] rows[k];
            &&& t.pcpu_den == total_delta
            &&& t.pcpu_num == t.cputime * 100 * cores
        } by {
            if k < rest.len() {
                assert(rows[k] == rest[k]);
            } else {
                reveal(has_baseline);
                let b = s1[index_of_tid(s1, p.tid)];
                let delta = p.cputime - b.cputime;
                assert(0 <= delta <= p.cputime);
                assert(rows[k] == usage_of(b, p, total_delta, cores));
                assert(rows[k].cputime == delta);
            }
        }
    }
}

/// The records pair the processes of the two snapshots exactly: one record for
/// each identifier present in both, none for an identifier present in only one.
/// (A pair whose commands differ, or whose ticks went down, is a reused
/// identifier and is left out by design, so such pairs are excluded here.)
pub proof fn law_one_record_per_common_id(
    s1: Seq<Proc>,
    s2: Seq<Proc>,
    total_delta: u64,
    cores: u32,
    tid: u64,
)
    requires
        strictly_ascending(s1),
        strictly_ascending(s2),
        total_delta > 0,
        forall|i: int, j: int|
            0 <= i < s1.len() && 0 <= j < s2.len() && s1[i].tid == s2[j].tid ==> s1[i].cmd@
                == s2[j].cmd@ && s1[i].cputime <= s2[j].cputime,
    ensures
        ({
            let rows = usage_rows(s1, s2, total_delta, cores);
            &&& has_tid(s1, tid) && has_tid(s2, tid) ==> exists|k: int|
                0 <= k < rows.len() && rows[k].tid == tid && forall|k2: int|
                    0 <= k2 < rows.len() && rows[k2].tid == tid ==> k2 == k
            &&& !(has_tid(s1, tid) && has_tid(s2, tid)) ==> forall|k: int|
                0 <= k < rows.len() ==> rows[k].tid != tid
        }),
{
    assert(usage_rows(s1, s2, total_delta, cores) == matched_rows(s1, s2, total_delta, cores));
    if has_tid(s1, tid) && has_tid(s2, tid) {
        let m = choose|m: int| 0 <= m < s2.len() && s2[m].tid == tid;
        let i = choose|i: int| 0 <= i < s1.len() && s1[i].tid == tid;
        lemma_index_of_tid(s1, i);
        assert(s1[i].cmd@ == s2[m].cmd@ && s1[i].cputime <= s2[m].cputime);
        assert(has_baseline(s1, s2[m])) by {
            reveal(has_baseline);
        }
        lemma_common_id_has_one_record(s1, s2, total_delta, cores, m);
    } else {
        lemma_lone_id_has_no_record(s1, s2, total_delta, cores, tid);
    }
}

proof fn lemma_common_id_has_one_record(
    s1: Seq<Proc>,
    s2: Seq<Proc>,
    total_delta: u64,
    cores: u32,
    m: int,
)
    requires
        strictly_ascending(s2),
        0 <= m < s2.len(),
        has_baseline(s1, s2[m]),
    ensures
        exists|k: int|
            0 <= k < matched_rows(s1, s2, total_delta, cores).len() && matched_rows(
                s1,
                s2,
                total_delta,
                cores,
            )[k].tid == s2[m].tid && forall|k2: int|
                0 <= k2 < matched_rows(s1, s2, total_delta, cores).len() && matched_rows(
                    s1,
                    s2,
                    total_delta,
                    cores,
                )[k2].tid == s2[m].tid ==> k2 == k,
{
    lemma_rows_origin(s1, s2, total_delta, cores);
    lemma_rows_cover(s1, s2, total_delta, cores);
    let rows = matched_rows(s1, s2, total_delta, cores);
    let k = choose|k: int| 0 <= k < rows.len() && rows[k].tid == s2[m].tid;
    assert forall|k2: int| 0 <= k2 < rows.len() && rows[k2].tid == s2[m].tid implies k2 == k by {
        if k2 < k {
            assert(rows[k2].tid < rows[k].tid);
        } else if k < k2 {
            assert(rows[k].tid < rows[k2].tid);
        }
    }
}

proof fn lemma_lone_id_has_no_record(
    s1: Seq<Proc>,
    s2: Seq<Proc>,
    total_delta: u64,
    cores: u32,
    tid: u64,
)
    requires
        strictly_ascending(s2),
        !(has_tid(s1, tid) && has_tid(s2, tid)),
    ensures
        forall|k: int|
            0 <= k < matched_rows(s1, s2, total_delta, cores).len() ==> matched_rows(
                s1,
                s2,
                total_delta,
                cores,
            )[k].tid != tid,
{
    lemma_rows_origin(s1, s2, total_delta, cores);
    let rows = matched_rows(s1, s2, total_delta, cores);
    assert forall|k: int| 0 <= k < rows.len() implies rows[k].tid != tid by {
        let m = choose|m: int|
            0 <= m < s2.len() && s2[m].tid == #[trigger] rows[k].tid && has_baseline(s1, s2[m]);
        assert(has_tid(s2, s2[m].tid));
        assert(has_tid(s1, s2[m].tid)) by {
            reveal(has_baseline);
        }
    }
}

/// Usage is only ever computed against a positive number of system ticks, and
/// it is never negative: every record's fraction has a positive denominator
/// and a numerator of `cputime * 100 * cores`; with no system ticks there are
/// no records at all.
pub proof fn law_usage_well_defined(s1: Seq<Proc>, s2: Seq<Proc>, total_delta: u64, cores: u32)
    ensures
        total_delta == 0 ==> usage_rows(s1, s2, total_delta, cores).len() == 0,
        forall|k: int|
            0 <= k < usage_rows(s1, s2, total_delta, cores).len() ==> {
                let t = #[trigger] usage_rows(s1, s2, total_delta, cores)[k];
                &&& t.pcpu_den > 0
                &&& t.pcpu_num >= 0
                &&& t.pcpu_num == t.cputime * 100 * cores
            },
{
    lemma_rows_values(s1, s2, total_delta, cores);
    assert forall|k: int| 0 <= k < usage_rows(s1, s2, total_delta, cores).len() implies {
        let t = #[trigger] usage_rows(s1, s2, total_delta, cores)[k];
        &&& t.pcpu_den > 0
        &&& t.pcpu_num >= 0
        &&& t.pcpu_num == t.cputime * 100 * cores
    } by {
        let t = usage_rows(s1, s2, total_delta, cores)[k];
        assert(t.cputime * 100 * cores >= 0) by (nonlinear_arith)
            requires
                t.cputime >= 0,
                cores >= 0,
        ;
    }
}

/// Reconciliation is a function of its four inputs: the same snapshots and
/// totals always give the same records.
pub proof fn law_reconcile_deterministic(
    s1: Seq<Proc>,
    s2: Seq<Proc>,
    total_delta: u64,
    cores: u32,
    r1: Seq<TopView>,
    r2: Seq<TopView>,
)
    requires
        r1 == usage_rows(s1, s2, total_delta, cores),
        r2 == usage_rows(s1, s2, total_delta, cores),
    ensures
        r1 == r2,
{
}

/// Merges two snapshots taken `total_delta` system ticks apart, both ordered by
/// identifier, into one usage record per process present in both, in order of
/// identifier. A pair whose command changed or whose ticks went down is an
/// identifier that the host reused, and gives no record; with no system ticks
/// in the interval there are no records at all.
pub fn reconcile(s1: &Vec<Proc>, s2: &Vec<Proc>, total_delta: u64, cores: u32) -> (r: Vec<Top>)
    requires
        strictly_ascending(s1@),
        strictly_ascending(s2@),
    ensures
        views(r@) == usage_rows(s1@, s2@, total_delta, cores),
{
    proof {
        reveal(has_baseline);
    }
    let mut r: Vec<Top> = Vec::new();
    if total_delta == 0 {
        assert(views(r@) =~= Seq::<TopView>::empty());
        return r;
    }
    let mut i: usize = 0;
    let mut j: usize = 0;
    while j < s2.len()
        invariant
            total_delta > 0,
            strictly_ascending(s1@),
            strictly_ascending(s2@),
            i <= s1.len(),
            j <= s2.len(),
            views(r@) == matched_rows(s1@, s2@.take(j as int), total_delta, cores),
            forall|k: int, m: int|
                0 <= k < i && j <= m < s2.len() ==> s1@[k].tid < s2@[m].tid,
        decreases s1.len() - i + s2.len() - j,
    {
        proof {
            reveal(has_baseline);
        }
        assert(s2@.take(j + 1).drop_last() =~= s2@.take(j as int));
        assert(s2@.take(j + 1).last() == s2@[j as int]);
        if i < s1.len() && s1[i].tid < s2[j].tid {
            i = i + 1;
        } else if i < s1.len() && s1[i].tid == s2[j].tid {
            let a = &s1[i];
            let b = &s2[j];
            proof {
                lemma_index_of_tid(s1@, i as int);
            }
            if a.cmd == b.cmd && a.cputime <= b.cputime {
                let delta: u64 = b.cputime - a.cputime;
                assert((delta as u128) * 100 * (cores as u128) < 0x1_0000_0000_0000_0000_0000_0000_0000)
                    by (nonlinear_arith)
                    requires
                        delta <= 0xffff_ffff_ffff_ffff,
                        cores <= 0xffff_ffff,
                ;
                let t = Top::new(
                    b.tid,
                    delta,
                    b.cmd.as_str(),
                    (delta as u128) * 100 * (cores as u128),
                    total_delta,
                );
                let ghost r0 = r@;
                r.push(t);
                assert(views(r@) =~= views(r0).push(t@));
            }
            i = i + 1;
            j = j + 1;
        } else {
            proof {
                if has_tid(s1@, s2@[j as int].tid) {
                    let c = choose|c: int| 0 <= c < s1.len() && s1@[c].tid == s2@[j as int].tid;
                    if c >= i {
                        assert(s1@[c].tid >= s1@[i as int].tid);
                    }
                }
            }
            j = j + 1;
        }
    }
    assert(s2@.take(s2.len() as int) =~= s2@);
    r
}

} // verus!
