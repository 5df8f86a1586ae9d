use banking_jitter::proc_probe::{
    comm_path, proc_faults, read_schedstat, schedstat_path, self_runqueue_wait_ns,
    self_schedstat_path, stat_path, status_path, task_dir, thread_names, tid_ctxt, tid_schedstat,
    tid_wchan, wchan_path,
};

#[test]
fn paths() {
    assert_eq!(self_schedstat_path(), "/proc/thread-self/schedstat");
    assert_eq!(schedstat_path(1234), "/proc/self/task/1234/schedstat");
    assert_eq!(status_path(7), "/proc/self/task/7/status");
    assert_eq!(wchan_path(u64::MAX), "/proc/self/task/18446744073709551615/wchan");
    assert_eq!(task_dir(), "/proc/self/task");
    assert_eq!(stat_path(), "/proc/self/stat");
    assert_eq!(comm_path("42").as_deref(), Some("/proc/self/task/42/comm"));
    assert_eq!(comm_path("+007").as_deref(), Some("/proc/self/task/7/comm"));
    assert_eq!(comm_path("self"), None);
    assert_eq!(comm_path(""), None);
}

#[test]
fn schedstat_fields() {
    let text = Some("2345678 910 42\n");
    assert_eq!(read_schedstat(text), (2345678, 910));
    assert_eq!(tid_schedstat(text), (2345678, 910));
    assert_eq!(self_runqueue_wait_ns(text), 910);
}

#[test]
fn unreadable_or_malformed_files_are_zero() {
    assert_eq!(read_schedstat(None), (0, 0));
    assert_eq!(tid_schedstat(Some("")), (0, 0));
    assert_eq!(read_schedstat(Some("12")), (12, 0));
    assert_eq!(read_schedstat(Some("x 34")), (0, 34));
    assert_eq!(self_runqueue_wait_ns(Some("1 18446744073709551616")), 0);
    assert_eq!(self_runqueue_wait_ns(None), 0);
    assert_eq!(tid_ctxt(None), (0, 0));
    assert_eq!(tid_wchan(None), "");
    assert_eq!(proc_faults(None), (0, 0));
    assert_eq!(proc_faults(Some("1 (a) S 1 2")), (0, 0));
    assert!(thread_names(&vec![]).is_empty());
}

#[test]
fn context_switches() {
    let status = "Name:\tsolCoWorker00\nState:\tS (sleeping)\nThreads:\t30\n\
                  voluntary_ctxt_switches:\t150\nnonvoluntary_ctxt_switches:\t3\n";
    assert_eq!(tid_ctxt(Some(status)), (150, 3));
    assert_eq!(tid_ctxt(Some("nonvoluntary_ctxt_switches:\t3\n")), (0, 3));
    assert_eq!(tid_ctxt(Some("voluntary_ctxt_switches: 9\r\n")), (9, 0));
    // The first line that starts with the key counts, even where it holds no number.
    let twice = "voluntary_ctxt_switches:\tx\nvoluntary_ctxt_switches:\t8\n";
    assert_eq!(tid_ctxt(Some(twice)), (0, 0));
}

#[test]
fn sleep_locations_are_trimmed() {
    assert_eq!(tid_wchan(Some("futex_wait_queue")), "futex_wait_queue");
    assert_eq!(tid_wchan(Some(" ep_poll\n")), "ep_poll");
    assert_eq!(tid_wchan(Some("0")), "0");
}

#[test]
fn names_of_threads() {
    let entries = vec![
        ("17".to_string(), Some("solBnkTxSched\n".to_string())),
        ("notes".to_string(), Some("skipped".to_string())),
        ("5".to_string(), Some("BankingMgr\n".to_string())),
        ("6".to_string(), None),
        ("+5".to_string(), Some(" later ".to_string())),
    ];
    let names = thread_names(&entries);
    let listed: Vec<(u64, &str)> = names.iter().map(|(t, n)| (*t, n.as_str())).collect();
    assert_eq!(listed, vec![(5, "later"), (6, ""), (17, "solBnkTxSched")]);
}

#[test]
fn page_faults() {
    let stat = "4242 (cargo test) S 1 2 3 4 5 6 2200 8 9 10 11 12\n";
    assert_eq!(proc_faults(Some(stat)), (2200, 9));
    // A name may hold blanks, parentheses and numbers.
    let odd = "4242 (a) 1 2 3 4 5 6 7 8 9 (b c)) S 1 2 3 4 5 6 170 8 1 10\n";
    assert_eq!(proc_faults(Some(odd)), (170, 1));
    // Without any parenthesis the fields are counted from the start.
    assert_eq!(proc_faults(Some("0 1 2 3 4 5 6 7 8 9")), (7, 9));
    assert_eq!(proc_faults(Some(") S 1 2 3 4 5 6 x 8 9")), (0, 9));
}
