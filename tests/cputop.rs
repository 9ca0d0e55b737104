use cputop::process::{order_snapshot, Proc};
use cputop::select::top_n;
use cputop::stat::{get_total_cpu_time, parse_proc_stat};
use cputop::usage::{reconcile, Top};
use cputop::{interval_ticks, top_processes, TOP_COUNT};

fn snap(items: &[(u64, u64, &str)]) -> Vec<Proc> {
    items.iter().map(|&(t, c, s)| Proc::new(t, c, s)).collect()
}

fn record(tid: u64, cputime: u64, cmd: &str) -> Top {
    Top { tid, cputime, cmd: cmd.to_string(), pcpu_num: cputime as u128 * 100, pcpu_den: 100 }
}

fn percent(t: &Top) -> f64 {
    t.pcpu_num as f64 / t.pcpu_den as f64
}

#[test]
fn scenario_two_processes_two_cores() {
    let s1 = snap(&[(1, 100, "a"), (2, 50, "b")]);
    let s2 = snap(&[(1, 150, "a"), (2, 90, "b")]);
    let rows = reconcile(&s1, &s2, 100, 2);
    assert_eq!(rows.len(), 2);
    assert_eq!((rows[0].tid, rows[0].cputime, rows[0].cmd.as_str()), (1, 50, "a"));
    assert_eq!((rows[1].tid, rows[1].cputime, rows[1].cmd.as_str()), (2, 40, "b"));
    assert_eq!(rows[0].pcpu_num, 10000);
    assert_eq!(rows[0].pcpu_den, 100);
    assert_eq!(percent(&rows[0]), 100.0);
    assert_eq!(percent(&rows[1]), 80.0);
    let top = top_n(&rows, 1);
    assert_eq!(top.len(), 1);
    assert_eq!(top[0].tid, 1);
}

#[test]
fn scenario_no_overlap() {
    let s1 = snap(&[(1, 10, "a")]);
    let s2 = snap(&[(2, 20, "b")]);
    assert!(reconcile(&s1, &s2, 100, 4).is_empty());
}

#[test]
fn scenario_zero_total_delta() {
    let s1 = snap(&[(1, 10, "a"), (2, 10, "b")]);
    let s2 = snap(&[(1, 30, "a"), (2, 40, "b")]);
    assert!(reconcile(&s1, &s2, 0, 4).is_empty());
    assert!(top_processes(&s1, &s2, 500, 500, 4, TOP_COUNT).is_empty());
}

#[test]
fn scenario_empty_snapshots() {
    let some = snap(&[(1, 10, "a")]);
    let none: Vec<Proc> = Vec::new();
    assert!(reconcile(&none, &some, 100, 1).is_empty());
    assert!(reconcile(&some, &none, 100, 1).is_empty());
    assert!(reconcile(&none, &none, 100, 1).is_empty());
}

#[test]
fn scenario_more_than_n_records() {
    let rows: Vec<Top> = (0..15u64).map(|i| record(i, (i * 7) % 15, "p")).collect();
    let top = top_n(&rows, TOP_COUNT);
    assert_eq!(top.len(), TOP_COUNT);
    let ticks: Vec<u64> = top.iter().map(|t| t.cputime).collect();
    assert_eq!(ticks, vec![14, 13, 12, 11, 10, 9, 8, 7, 6, 5]);
}

#[test]
fn one_record_per_common_id() {
    let s1 = snap(&[(1, 10, "a"), (3, 10, "c"), (5, 10, "e"), (7, 10, "g")]);
    let s2 = snap(&[(2, 10, "b"), (3, 15, "c"), (4, 1, "d"), (7, 12, "g"), (9, 1, "i")]);
    let rows = reconcile(&s1, &s2, 50, 1);
    let ids: Vec<u64> = rows.iter().map(|t| t.tid).collect();
    assert_eq!(ids, vec![3, 7]);
    assert_eq!(rows[0].cputime, 5);
    assert_eq!(rows[1].cputime, 2);
}

#[test]
fn reused_id_is_discarded() {
    let s1 = snap(&[(1, 10, "a"), (2, 500, "b"), (3, 10, "c")]);
    let s2 = snap(&[(1, 20, "other"), (2, 5, "b"), (3, 40, "c")]);
    let rows = reconcile(&s1, &s2, 100, 1);
    assert_eq!(rows.len(), 1);
    assert_eq!(rows[0].tid, 3);
    assert_eq!(rows[0].cputime, 30);
}

#[test]
fn usage_is_well_defined() {
    let s1 = snap(&[(1, 0, "a"), (2, 7, "b")]);
    let s2 = snap(&[(1, 0, "a"), (2, 10, "b")]);
    let rows = reconcile(&s1, &s2, 12, 8);
    assert_eq!(rows.len(), 2);
    for t in &rows {
        assert!(t.pcpu_den > 0);
        assert_eq!(t.pcpu_num, t.cputime as u128 * 100 * 8);
        assert!(percent(t) >= 0.0);
    }
    assert_eq!(percent(&rows[1]), 200.0);
}

#[test]
fn reconcile_is_deterministic() {
    let s1 = snap(&[(1, 10, "a"), (2, 20, "b"), (4, 1, "d")]);
    let s2 = snap(&[(1, 30, "a"), (2, 25, "b"), (4, 9, "d")]);
    let a = reconcile(&s1, &s2, 77, 3);
    let b = reconcile(&s1, &s2, 77, 3);
    assert_eq!(a.len(), b.len());
    for (x, y) in a.iter().zip(b.iter()) {
        assert_eq!((x.tid, x.cputime, &x.cmd, x.pcpu_num, x.pcpu_den), (y.tid, y.cputime, &y.cmd, y.pcpu_num, y.pcpu_den));
    }
}

#[test]
fn top_n_is_stable_for_ties() {
    let rows = vec![record(1, 5, "a"), record(2, 9, "b"), record(3, 5, "c"), record(4, 9, "d"), record(5, 1, "e")];
    let top = top_n(&rows, 4);
    let ids: Vec<u64> = top.iter().map(|t| t.tid).collect();
    assert_eq!(ids, vec![2, 4, 1, 3]);
}

#[test]
fn top_n_returns_all_when_fewer() {
    let rows = vec![record(1, 1, "a"), record(2, 3, "b"), record(3, 2, "c")];
    let top = top_n(&rows, 10);
    let ids: Vec<u64> = top.iter().map(|t| t.tid).collect();
    assert_eq!(ids, vec![2, 3, 1]);
    assert!(top_n(&rows, 0).is_empty());
    assert!(top_n(&Vec::new(), 3).is_empty());
}

#[test]
fn total_cpu_time_sums_eight_counters() {
    assert_eq!(get_total_cpu_time("cpu  10 20 30 40 50 60 70 80 90 100\n"), 360);
}

#[test]
fn total_cpu_time_counts_bad_field_as_zero() {
    assert_eq!(get_total_cpu_time("cpu  10 x 30 40 50 60 70 80 90 100"), 340);
    assert_eq!(get_total_cpu_time("cpu  1 2 3"), 6);
    assert_eq!(get_total_cpu_time("cpu0 10 20 30 40 50 60 70 80 90 100"), 0);
    assert_eq!(get_total_cpu_time(""), 0);
}

#[test]
fn total_cpu_time_saturates() {
    let line = "cpu 18446744073709551615 18446744073709551615 1 1 1 1 1 1 0 0";
    assert_eq!(get_total_cpu_time(line), u64::MAX);
    let too_big = "cpu 18446744073709551616 5 0 0 0 0 0 0 0 0";
    assert_eq!(get_total_cpu_time(too_big), 5);
}

#[test]
fn proc_stat_line_is_parsed() {
    let line = "1234 (bash) S 1 1234 1234 34816 5678 4194304 1000 0 0 0 250 75 0 0 20 0 1 0 100 1000000 500\n";
    let p = parse_proc_stat(line).unwrap();
    assert_eq!(p.tid, 1234);
    assert_eq!(p.cputime, 325);
    assert_eq!(p.cmd, "bash");
}

#[test]
fn proc_stat_command_with_spaces_and_parens() {
    let line = "42 (my (odd) cmd) R 1 42 42 0 -1 4194560 10 0 0 0 3 4 0 0 20 0 1 0 5 100 10";
    let p = parse_proc_stat(line).unwrap();
    assert_eq!(p.tid, 42);
    assert_eq!(p.cputime, 7);
    assert_eq!(p.cmd, "my (odd) cmd");
}

#[test]
fn proc_stat_malformed_lines_are_rejected() {
    assert!(parse_proc_stat("").is_none());
    assert!(parse_proc_stat("12 bash S 1").is_none());
    assert!(parse_proc_stat("12 (bash) S 1 2 3").is_none());
    assert!(parse_proc_stat("x (bash) S 1 1 1 0 -1 0 0 0 0 0 3 4 0").is_none());
    assert!(parse_proc_stat("12 (bash) S 1 1 1 0 -1 0 0 0 0 0 3 y 0").is_none());
    assert!(parse_proc_stat("12 (bash) S 1 1 1 0 -1 0 0 0 0 0 18446744073709551615 1 0").is_none());
}

#[test]
fn snapshot_is_ordered_and_deduplicated() {
    let procs = snap(&[(30, 1, "c"), (10, 2, "a"), (20, 3, "b"), (10, 9, "dup")]);
    let ordered = order_snapshot(&procs);
    let ids: Vec<u64> = ordered.iter().map(|p| p.tid).collect();
    assert_eq!(ids, vec![10, 20, 30]);
    assert_eq!(ordered[0].cputime, 2);
    assert_eq!(ordered[0].cmd, "a");
}

#[test]
fn interval_is_zero_when_total_goes_back() {
    assert_eq!(interval_ticks(100, 250), 150);
    assert_eq!(interval_ticks(250, 100), 0);
}

#[test]
fn top_processes_end_to_end() {
    let before = order_snapshot(&snap(&[(3, 10, "c"), (1, 100, "a"), (2, 50, "b")]));
    let after = order_snapshot(&snap(&[(2, 90, "b"), (1, 150, "a"), (3, 70, "c"), (4, 5, "d")]));
    let top = top_processes(&before, &after, 1000, 1100, 2, 2);
    let ids: Vec<u64> = top.iter().map(|t| t.tid).collect();
    assert_eq!(ids, vec![3, 1]);
    assert_eq!(percent(&top[0]), 120.0);
    assert_eq!(percent(&top[1]), 100.0);
}
