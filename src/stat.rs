use vstd::prelude::*;

use crate::process::Proc;
use crate::text::{
    chars_of, char_views, decimal, find_first_last, first_index, last_index, lemma_index_range,
    parse_u64,
    sub_chars, words, words_of,
};

verus! {

/// Ticks in word `k` of `w`, or zero where that word is missing or is no number.
pub open spec fn ticks_or_zero(w: Seq<Seq<char>>, k: int) -> nat {
    if 0 <= k < w.len() && decimal(w[k]) is Some {
        decimal(w[k])->0 as nat
    } else {
        0
    }
}

/// Sum of the ticks in words `1..=k` of `w`.
pub open spec fn ticks_sum(w: Seq<Seq<char>>, k: nat) -> nat
    decreases k,
{
    if k == 0 {
        0
    } else {
        ticks_sum(w, (k - 1) as nat) + ticks_or_zero(w, k as int)
    }
}

/// Number of time categories that count towards the total: user, nice,
/// system, idle, iowait, irq, softirq and steal (guest time is already part of
/// user time).
pub const COUNTED_FIELDS: usize = 8;

/// The total system CPU time that an aggregate statistics line states: the
/// sum of its first eight counters, saturated at `u64::MAX`; zero for a line
/// without the `cpu` label.
pub open spec fn total_cpu_spec(line: Seq<char>) -> u64 {
    let w = words(line);
    if w.len() > 0 && w[0] == seq!['c', 'p', 'u'] {
        let t = ticks_sum(w, COUNTED_FIELDS as nat);
        if t <= u64::MAX {
            t as u64
        } else {
            u64::MAX
        }
    } else {
        0
    }
}

/// Reads the total system CPU time from the first line of the aggregate CPU
/// statistics (`cpu  user nice system idle iowait irq softirq steal guest
/// guest_nice`). A counter that does not parse counts as zero.
pub fn get_total_cpu_time(line: &str) -> (r: u64)
    ensures
        r == total_cpu_spec(line@),
{
    let chars = chars_of(line);
    let w = words_of(&chars);
    let ghost wv = char_views(w@);
    if !(w.len() > 0 && w[0].len() == 3 && w[0][0] == 'c' && w[0][1] == 'p' && w[0][2] == 'u') {
        proof {
            if wv.len() > 0 && wv[0] == seq!['c', 'p', 'u'] {
                assert(wv[0].len() == 3 && wv[0][0] == 'c' && wv[0][1] == 'p' && wv[0][2] == 'u');
            }
        }
        return 0;
    }
    assert(wv[0] =~= seq!['c', 'p', 'u']);
    let mut acc: u64 = 0;
    let mut k: usize = 1;
    while k <= COUNTED_FIELDS
        invariant
            wv == char_views(w@),
            wv == words(chars@),
            1 <= k <= COUNTED_FIELDS + 1,
            acc == if ticks_sum(wv, (k - 1) as nat) <= u64::MAX {
                ticks_sum(wv, (k - 1) as nat)
            } else {
                u64::MAX as nat
            },
        decreases COUNTED_FIELDS + 1 - k,
    {
        let mut f: u64 = 0;
        if k < w.len() {
            assert(wv[k as int] == w@[k as int]@);
            match parse_u64(&w[k]) {
                Some(v) => {
                    f = v;
                },
                None => {},
            }
        }
        assert(f == ticks_or_zero(wv, k as int));
        if acc > u64::MAX - f {
            acc = u64::MAX;
        } else {
            acc = acc + f;
        }
        k = k + 1;
    }
    acc
}

/// What a per-process statistics line states: identifier, user plus kernel
/// ticks, and command. The command is what stands between the first `(` and
/// the last `)`, so it may hold spaces and parentheses; the identifier is the
/// one word before it, and the tick counters are the eleventh and twelfth
/// words after it (fields 13 and 14 of the line). `None` where the line does
/// not have that shape, a number does not parse, or the sum overflows.
pub open spec fn proc_stat_spec(s: Seq<char>) -> Option<(u64, u64, Seq<char>)> {
    let open = first_index(s, '(');
    let close = last_index(s, ')');
    if open < 0 || close <= open {
        None
    } else {
        let head = words(s.subrange(0, open));
        let tail = words(s.subrange(close + 1, s.len() as int));
        if head.len() == 1 && decimal(head[0]) is Some && tail.len() >= 13 && decimal(
            tail[11],
        ) is Some && decimal(tail[12]) is Some && decimal(tail[11])->0 + decimal(tail[12])->0
            <= u64::MAX {
            Some(
                (
                    decimal(head[0])->0,
                    (decimal(tail[11])->0 + decimal(tail[12])->0) as u64,
                    s.subrange(open + 1, close),
                ),
            )
        } else {
            None
        }
    }
}

/// Reads one process's statistics line; `None` for a malformed line.
pub fn parse_proc_stat(line: &str) -> (r: Option<Proc>)
    ensures
        match r {
            Some(p) => proc_stat_spec(line@) == Some((p.tid, p.cputime, p.cmd@)),
            None => proc_stat_spec(line@) is None,
        },
{
    let chars = chars_of(line);
    let (open, _) = find_first_last(&chars, '(');
    let (_, close) = find_first_last(&chars, ')');
    proof {
        lemma_index_range(chars@, '(');
        lemma_index_range(chars@, ')');
    }
    if open >= chars.len() || close >= chars.len() || close <= open {
        return None;
    }
    let head = words_of(&sub_chars(&chars, 0, open));
    let tail = words_of(&sub_chars(&chars, close + 1, chars.len()));
    let ghost hv = char_views(head@);
    let ghost tv = char_views(tail@);
    if head.len() != 1 || tail.len() < 13 {
        return None;
    }
    assert(hv[0] == head@[0]@);
    assert(tv[11] == tail@[11]@);
    assert(tv[12] == tail@[12]@);
    let tid = match parse_u64(&head[0]) {
        Some(v) => v,
        None => {
            return None;
        },
    };
    let utime = match parse_u64(&tail[11]) {
        Some(v) => v,
        None => {
            return None;
        },
    };
    let stime = match parse_u64(&tail[12]) {
        Some(v) => v,
        None => {
            return None;
        },
    };
    if utime > u64::MAX - stime {
        return None;
    }
    let cmd = line.substring_char(open + 1, close);
    Some(Proc::new(tid, utime + stime, cmd))
}

} // verus!
