use banking_jitter::wchan::WchanTally;

#[test]
fn empty_tally() {
    let tally = WchanTally::new();
    assert_eq!(tally.count(1, "futex"), 0);
    assert!(tally.into_rows().is_empty());
}

#[test]
fn samples_add_up_by_thread_and_location() {
    let mut tally = WchanTally::new();
    let samples = [
        (7u64, Some("futex_wait_queue\n")),
        (7, Some("ep_poll")),
        (3, Some("pipe_read")),
        (7, Some("futex_wait_queue")),
        (7, Some("0")),
        (9, Some("0\n")),
        (9, Some("")),
        (9, None),
        (7, Some("  futex_wait_queue  ")),
        (3, Some("00")),
    ];
    for (tid, text) in samples {
        tally.sample(tid, text);
    }
    assert_eq!(tally.count(7, "futex_wait_queue"), 3);
    assert_eq!(tally.count(7, "ep_poll"), 1);
    assert_eq!(tally.count(7, "pipe_read"), 0);
    assert_eq!(tally.count(7, "0"), 0);
    assert_eq!(tally.count(9, "0"), 0);

    let rows: Vec<(u64, Vec<(String, u32)>)> = tally.into_rows().into_iter().collect();
    let row = |w: &str, n: u32| (w.to_string(), n);
    assert_eq!(
        rows,
        vec![
            (3, vec![row("00", 1), row("pipe_read", 1)]),
            (7, vec![row("ep_poll", 1), row("futex_wait_queue", 3)]),
        ]
    );
}

#[test]
fn locations_come_in_string_order() {
    let words = ["b", "a", "ab", "é", "z", "a", "", "Z", "abc", "\u{10ffff}", "ab"];
    let mut tally = WchanTally::new();
    let mut expected = std::collections::BTreeMap::new();
    for w in words {
        tally.sample(1, Some(w));
        if !w.is_empty() {
            *expected.entry(w.to_string()).or_insert(0u32) += 1;
        }
    }
    let rows = tally.into_rows();
    let expected: Vec<(String, u32)> = expected.into_iter().collect();
    assert_eq!(rows[&1], expected);
}

fn texts(v: &[Option<&str>]) -> Vec<Option<String>> {
    v.iter().map(|t| t.map(|s| s.to_string())).collect()
}

#[test]
fn a_pass_samples_each_listed_thread() {
    let tids = [7u64, 3, 7, 9, 4];
    let mut tally = WchanTally::new();
    let first = texts(&[Some("futex\n"), Some("ep_poll"), Some("futex"), Some("0"), None]);
    let second = texts(&[Some("pipe"), Some(" ep_poll "), Some("futex"), Some(""), Some("0\n")]);
    for pass in [&first, &second] {
        assert!(tally.pass_fits(&tids, pass));
        tally.sample_pass(&tids, pass);
    }
    assert_eq!(tally.count(7, "futex"), 3);
    assert_eq!(tally.count(7, "pipe"), 1);
    assert_eq!(tally.count(3, "ep_poll"), 2);
    let listed: Vec<u64> = tally.into_rows().into_keys().collect();
    assert_eq!(listed, vec![3, 7]);
}

#[test]
fn a_pass_is_its_samples_in_order() {
    let tids = [1u64, 2, 1];
    let read = texts(&[Some("b"), Some("a"), Some("a")]);
    let mut by_pass = WchanTally::new();
    by_pass.sample_pass(&tids, &read);
    let mut by_sample = WchanTally::new();
    for (tid, text) in tids.iter().zip(&read) {
        by_sample.sample(*tid, text.as_deref());
    }
    assert_eq!(by_pass.into_rows(), by_sample.into_rows());
}

#[test]
fn no_thread_no_sample() {
    let mut tally = WchanTally::new();
    assert!(tally.pass_fits(&[], &vec![]));
    tally.sample_pass(&[], &vec![]);
    assert!(tally.into_rows().is_empty());
}
