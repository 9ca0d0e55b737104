use vstd::prelude::*;

use crate::usage::{Top, TopView, views};

verus! {

/// Record `a` ranks ahead of record `b`: more ticks, or equal ticks and earlier.
pub open spec fn ranks_before(s: Seq<TopView>, a: int, b: int) -> bool {
    s[a].cputime > s[b].cputime || (s[a].cputime == s[b].cputime && a < b)
}

pub open spec fn min_nat(a: nat, b: nat) -> nat {
    if a <= b {
        a
    } else {
        b
    }
}

/// `ord` lists, best first, the positions of the `n` best-ranked records among
/// the first `len` records of `s`; every other of those records ranks behind
/// all of them.
pub open spec fn is_top_order(s: Seq<TopView>, n: nat, len: int, ord: Seq<int>) -> bool {
    &&& ord.len() == min_nat(n, len as nat)
    &&& forall|p: int| 0 <= p < ord.len() ==> 0 <= #[trigger] ord[p] < len
    &&& forall|p: int, q: int| 0 <= p < q < ord.len() ==> ranks_before(s, ord[p], ord[q])
    &&& forall|j: int|
        0 <= j < len ==> ord.contains(j) || (ord.len() == n && forall|p: int|
            0 <= p < ord.len() ==> ranks_before(s, #[trigger] ord[p], j))
}

/// `r` is the top `n` of `s` by ticks, highest first, equal ticks in their
/// original order.
pub open spec fn selected(s: Seq<TopView>, n: nat, r: Seq<TopView>) -> bool {
    exists|ord: Seq<int>|
        is_top_order(s, n, s.len() as int, ord) && r == ord.map_values(|i: int| s[i])
}

/// The order kept for the first `i` records, after record `i` is placed.
pub open spec fn place(o: Seq<int>, pos: int, i: int, n: nat) -> Seq<int> {
    if pos < n {
        let o2 = o.insert(pos, i);
        if o2.len() > n {
            o2.take(n as int)
        } else {
            o2
        }
    } else {
        o
    }
}

proof fn lemma_place(s: Seq<TopView>, n: nat, i: int, o: Seq<int>, pos: int)
    requires
        0 <= i < s.len(),
        is_top_order(s, n, i, o),
        0 <= pos <= o.len(),
        forall|p: int| 0 <= p < pos ==> ranks_before(s, #[trigger] o[p], i),
        pos < o.len() ==> s[i].cputime > s[o[pos]].cputime,
    ensures
        is_top_order(s, n, i + 1, place(o, pos, i, n)),
{
    let r = place(o, pos, i, n);
    if pos >= n {
        assert forall|j: int| 0 <= j < i + 1 implies r.contains(j) || (r.len() == n && forall|p: int|
            0 <= p < r.len() ==> ranks_before(s, #[trigger] r[p], j)) by {
            if j == i {
                assert(r.len() == n);
            }
        }
    } else {
        let o2 = o.insert(pos, i);
        assert(o2.len() == o.len() + 1);
        assert forall|p: int| 0 <= p < o2.len() implies #[trigger] o2[p] == if p < pos {
            o[p]
        } else if p == pos {
            i
        } else {
            o[p - 1]
        } by {}
        assert forall|p: int, q: int| 0 <= p < q < o2.len() implies ranks_before(s, o2[p], o2[q]) by {
            if q == pos {
            } else if p == pos {
                if q - 1 > pos {
                    assert(ranks_before(s, o[pos], o[q - 1]));
                }
            } else if p < pos && q > pos {
                assert(ranks_before(s, o[p], o[q - 1]));
            } else if p > pos {
                assert(ranks_before(s, o[p - 1], o[q - 1]));
            }
        }
        assert forall|p: int| 0 <= p < r.len() implies 0 <= #[trigger] r[p] < i + 1 by {
            assert(r[p] == o2[p]);
        }
        assert forall|p: int, q: int| 0 <= p < q < r.len() implies ranks_before(s, r[p], r[q]) by {
            assert(r[p] == o2[p] && r[q] == o2[q]);
        }
        assert forall|j: int| 0 <= j < i + 1 implies r.contains(j) || (r.len() == n && forall|p: int|
            0 <= p < r.len() ==> ranks_before(s, #[trigger] r[p], j)) by {
            if j == i {
                assert(r[pos] == i);
            } else if o.contains(j) {
                let p0 = choose|p0: int| 0 <= p0 < o.len() && o[p0] == j;
                if p0 < pos {
                    assert(r[p0] == j);
                } else if p0 + 1 < r.len() {
                    assert(r[p0 + 1] == j);
                } else {
                    assert(o2.len() > n);
                    assert(o2[o2.len() - 1] == j);
                    assert forall|p: int| 0 <= p < r.len() implies ranks_before(s, #[trigger] r[p], j) by {
                        assert(r[p] == o2[p]);
                    }
                }
            } else {
                assert(o.len() == n);
                assert forall|p: int| 0 <= p < r.len() implies ranks_before(s, #[trigger] r[p], j) by {
                    assert(r[p] == o2[p]);
                    if p == pos {
                        assert(ranks_before(s, o[pos], j));
                    } else if p > pos {
                        assert(ranks_before(s, o[p - 1], j));
                    }
                }
            }
        }
    }
}

/// Ranks `records` by ticks, highest first and equal ticks in their original
/// order, and keeps the first `n`.
pub fn top_n(records: &Vec<Top>, n: usize) -> (r: Vec<Top>)
    ensures
        selected(views(records@), n as nat, views(r@)),
{
    let ghost s = views(records@);
    let mut ord: Vec<usize> = Vec::new();
    let mut i: usize = 0;
    while i < records.len()
        invariant
            s == views(records@),
            s.len() == records.len(),
            i <= records.len(),
            is_top_order(s, n as nat, i as int, ord@.map_values(|x: usize| x as int)),
        decreases records.len() - i,
    {
        let ghost o = ord@.map_values(|x: usize| x as int);
        let key = records[i].cputime;
        let mut pos: usize = 0;
        assert forall|p: int| 0 <= p < ord.len() implies ord@[p] < i by {
            assert(o[p] == ord@[p] as int);
        }
        while pos < ord.len() && records[ord[pos]].cputime >= key
            invariant
                s == views(records@),
                s.len() == records.len(),
                i < records.len(),
                o == ord@.map_values(|x: usize| x as int),
                is_top_order(s, n as nat, i as int, o),
                key == s[i as int].cputime,
                pos <= ord.len(),
                forall|p: int| 0 <= p < ord.len() ==> ord@[p] < i,
                forall|p: int| 0 <= p < pos ==> s[#[trigger] o[p]].cputime >= key,
            decreases ord.len() - pos,
        {
            pos = pos + 1;
        }
        assert forall|p: int| 0 <= p < pos implies ranks_before(s, #[trigger] o[p], i as int) by {}
        proof {
            lemma_place(s, n as nat, i as int, o, pos as int);
        }
        if pos < n {
            ord.insert(pos, i);
            if ord.len() > n {
                ord.truncate(n);
            }
        }
        assert(ord@.map_values(|x: usize| x as int) =~= place(o, pos as int, i as int, n as nat));
        i = i + 1;
    }
    let mut r: Vec<Top> = Vec::new();
    let mut k: usize = 0;
    assert forall|p: int| 0 <= p < ord.len() implies ord@[p] < records.len() by {
        assert(ord@.map_values(|x: usize| x as int)[p] == ord@[p] as int);
    }
    while k < ord.len()
        invariant
            s == views(records@),
            s.len() == records.len(),
            is_top_order(s, n as nat, s.len() as int, ord@.map_values(|x: usize| x as int)),
            k <= ord.len(),
            forall|p: int| 0 <= p < ord.len() ==> ord@[p] < records.len(),
            views(r@) == ord@.map_values(|x: usize| x as int).take(k as int).map_values(|x: int| s[x]),
        decreases ord.len() - k,
    {
        let t = records[ord[k]].duplicate();
        let ghost r0 = r@;
        r.push(t);
        assert(views(r@) =~= views(r0).push(t@));
        assert(ord@.map_values(|x: usize| x as int).take(k + 1) =~= ord@.map_values(|x: usize| x as int).take(k as int).push(ord[k as int] as int));
        k = k + 1;
    }
    proof {
        let o = ord@.map_values(|x: usize| x as int);
        assert(o.take(o.len() as int) =~= o);
        assert(views(r@) =~= o.map_values(|x: int| s[x]));
    }
    r
}

/// The selection keeps at most `n` records, exactly `n` when there are that
/// many, and all of them when there are fewer; it lists them from most ticks to
/// fewest, and records with equal ticks keep their original relative order.
pub proof fn law_top_n(s: Seq<TopView>, n: nat, r: Seq<TopView>)
    requires
        selected(s, n, r),
    ensures
        r.len() <= n,
        s.len() >= n ==> r.len() == n,
        s.len() < n ==> r.len() == s.len(),
        s.len() < n ==> forall|j: int| 0 <= j < s.len() ==> r.contains(#[trigger] s[j]),
        forall|p: int, q: int| 0 <= p < q < r.len() ==> r[p].cputime >= r[q].cputime,
        forall|p: int, q: int|
            0 <= p < q < r.len() && r[p].cputime == r[q].cputime ==> exists|a: int, b: int|
                0 <= a < b < s.len() && r[p] == s[a] && r[q] == s[b],
{
    let ord = choose|ord: Seq<int>|
        is_top_order(s, n, s.len() as int, ord) && r == ord.map_values(|i: int| s[i]);
    assert(r.len() == ord.len());
    assert forall|p: int, q: int| 0 <= p < q < r.len() implies r[p].cputime >= r[q].cputime by {
        assert(ranks_before(s, ord[p], ord[q]));
    }
    assert forall|p: int, q: int|
        0 <= p < q < r.len() && r[p].cputime == r[q].cputime implies exists|a: int, b: int|
            0 <= a < b < s.len() && r[p] == s[a] && r[q] == s[b] by {
        assert(ranks_before(s, ord[p], ord[q]));
        assert(0 <= ord[p] < s.len() && 0 <= ord[q] < s.len());
    }
    if s.len() < n {
        assert forall|j: int| 0 <= j < s.len() implies r.contains(#[trigger] s[j]) by {
            assert(ord.len() == s.len());
            assert(ord.contains(j));
            let w = choose|w: int| 0 <= w < ord.len() && ord[w] == j;
            assert(0 <= w < r.len() && r[w] == s[j]);
        }
    }
}

} // verus!
