use vstd::prelude::*;

verus! {

/// One process's accumulated CPU time at one instant.
pub struct Proc {
    /// Process (thread) identifier.
    pub tid: u64,
    /// User-mode plus kernel-mode ticks consumed since the process started.
    pub cputime: u64,
    /// Short command name of the running program.
    pub cmd: String,
}

impl Proc {
    pub fn new(tid: u64, cputime: u64, cmd: &str) -> (r: Proc)
        ensures
            r.tid == tid,
            r.cputime == cputime,
            r.cmd@ == cmd@,
    {
        Proc { tid, cputime, cmd: cmd.to_owned() }
    }

    /// A field-for-field copy.
    pub fn duplicate(&self) -> (r: Proc)
        ensures
            r.tid == self.tid,
            r.cputime == self.cputime,
            r.cmd@ == self.cmd@,
    {
        Proc { tid: self.tid, cputime: self.cputime, cmd: self.cmd.clone() }
    }
}

/// Identifiers rise strictly from each sample to the next (so they are unique).
pub open spec fn strictly_ascending(s: Seq<Proc>) -> bool {
    forall|i: int, j: int| 0 <= i < j < s.len() ==> s[i].tid < s[j].tid
}

/// Two samples state the same thing.
pub open spec fn same_sample(a: Proc, b: Proc) -> bool {
    a.tid == b.tid && a.cputime == b.cputime && a.cmd@ == b.cmd@
}

/// `s[i]` is the first sample of `s` with its identifier.
pub open spec fn first_of_tid(s: Seq<Proc>, i: int) -> bool {
    forall|j: int| 0 <= j < i ==> s[j].tid != #[trigger] s[i].tid
}

/// `x` states what the first sample of its identifier among `s[..upto]` states.
pub open spec fn from_first(s: Seq<Proc>, x: Proc, upto: int) -> bool {
    exists|j: int| 0 <= j < upto && same_sample(x, s[j]) && first_of_tid(s, j)
}

/// Some sample of `s` has identifier `tid`.
pub open spec fn holds_tid(s: Seq<Proc>, tid: u64) -> bool {
    exists|k: int| 0 <= k < s.len() && s[k].tid == tid
}

proof fn lemma_insert_keeps(procs: Seq<Proc>, i: int, r0: Seq<Proc>, pos: int, r: Seq<Proc>)
    requires
        0 <= i < procs.len(),
        0 <= pos <= r0.len(),
        strictly_ascending(r0),
        forall|k: int| 0 <= k < r0.len() ==> from_first(procs, #[trigger] r0[k], i),
        forall|j: int| 0 <= j < i ==> holds_tid(r0, #[trigger] procs[j].tid),
        forall|k: int| 0 <= k < pos ==> (#[trigger] r0[k]).tid < procs[i].tid,
        pos < r0.len() ==> r0[pos].tid > procs[i].tid,
        same_sample(r[pos], procs[i]),
        r.len() == r0.len() + 1,
        forall|k: int| 0 <= k < pos ==> r[k] == r0[k],
        forall|k: int| pos < k < r.len() ==> r[k] == r0[k - 1],
    ensures
        strictly_ascending(r),
        forall|k: int| 0 <= k < r.len() ==> from_first(procs, #[trigger] r[k], i + 1),
        forall|j: int| 0 <= j < i + 1 ==> holds_tid(r, #[trigger] procs[j].tid),
{
    let tid = procs[i].tid;
    assert forall|j: int| 0 <= j < i implies procs[j].tid != #[trigger] procs[i].tid by {
        assert(holds_tid(r0, procs[j].tid));
        let k = choose|k: int| 0 <= k < r0.len() && r0[k].tid == procs[j].tid;
        if k > pos {
            assert(r0[pos].tid < r0[k].tid);
        }
    }
    assert(first_of_tid(procs, i));
    assert forall|a: int, b: int| 0 <= a < b < r.len() implies r[a].tid < r[b].tid by {
        if b < pos {
        } else if b == pos {
        } else if a < pos {
            assert(r[b] == r0[b - 1]);
            if b - 1 > pos {
                assert(r0[pos].tid < r0[b - 1].tid);
            }
        } else if a == pos {
            assert(r[b] == r0[b - 1]);
            if b - 1 > pos {
                assert(r0[pos].tid < r0[b - 1].tid);
            }
        } else {
            assert(r[a] == r0[a - 1] && r[b] == r0[b - 1]);
        }
    }
    assert forall|k: int| 0 <= k < r.len() implies from_first(procs, #[trigger] r[k], i + 1) by {
        if k < pos {
            assert(from_first(procs, r0[k], i));
        } else if k == pos {
            assert(same_sample(r[k], procs[i]) && first_of_tid(procs, i));
        } else {
            assert(r[k] == r0[k - 1]);
            assert(from_first(procs, r0[k - 1], i));
        }
    }
    assert forall|j: int| 0 <= j < i + 1 implies holds_tid(r, #[trigger] procs[j].tid) by {
        if j < i {
            assert(holds_tid(r0, procs[j].tid));
            let k = choose|k: int| 0 <= k < r0.len() && r0[k].tid == procs[j].tid;
            if k < pos {
                assert(r[k] == r0[k]);
            } else {
                assert(r[k + 1] == r0[k]);
            }
        } else {
            assert(r[pos].tid == tid);
        }
    }
}

/// Orders the samples read from the host by identifier, keeping the first
/// sample of an identifier that occurs more than once.
pub fn order_snapshot(procs: &Vec<Proc>) -> (r: Vec<Proc>)
    ensures
        strictly_ascending(r@),
        forall|k: int| 0 <= k < r.len() ==> from_first(procs@, #[trigger] r@[k], procs.len() as int),
        forall|j: int| 0 <= j < procs.len() ==> holds_tid(r@, #[trigger] procs@[j].tid),
{
    let mut r: Vec<Proc> = Vec::new();
    let mut i: usize = 0;
    while i < procs.len()
        invariant
            i <= procs.len(),
            strictly_ascending(r@),
            forall|k: int| 0 <= k < r.len() ==> from_first(procs@, #[trigger] r@[k], i as int),
            forall|j: int| 0 <= j < i ==> holds_tid(r@, #[trigger] procs@[j].tid),
        decreases procs.len() - i,
    {
        let tid = procs[i].tid;
        let mut pos: usize = 0;
        while pos < r.len() && r[pos].tid < tid
            invariant
                pos <= r.len(),
                forall|k: int| 0 <= k < pos ==> (#[trigger] r@[k]).tid < tid,
            decreases r.len() - pos,
        {
            pos = pos + 1;
        }
        if pos < r.len() && r[pos].tid == tid {
            assert forall|k: int| 0 <= k < r.len() implies from_first(procs@, #[trigger] r@[k], i + 1) by {
                let j = choose|j: int|
                    0 <= j < i && same_sample(r@[k], procs@[j]) && first_of_tid(procs@, j);
            }
            assert(holds_tid(r@, procs@[i as int].tid));
        } else {
            let ghost r0 = r@;
            let p = procs[i].duplicate();
            r.insert(pos, p);
            proof {
                lemma_insert_keeps(procs@, i as int, r0, pos as int, r@);
            }
        }
        i = i + 1;
    }
    r
}

} // verus!
