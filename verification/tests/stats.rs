use banking_jitter::sort::sort;
use banking_jitter::stats::{format_row, summarize, Summary};

#[test]
fn sorts_like_std() {
    let mut x: u64 = 88172645463325252;
    for n in 0..200usize {
        let mut v: Vec<u64> = Vec::new();
        for _ in 0..n {
            x ^= x << 13;
            x ^= x >> 7;
            x ^= x << 17;
            v.push(x % 50);
        }
        let sorted = sort(&v);
        v.sort_unstable();
        assert_eq!(sorted, v);
    }
}

#[test]
fn no_sample_is_all_zero() {
    assert_eq!(summarize(&[]), Summary { min: 0, mean: 0, p50: 0, p99: 0, max: 0 });
}

#[test]
fn one_sample_is_every_figure() {
    assert_eq!(summarize(&[7]), Summary { min: 7, mean: 7, p50: 7, p99: 7, max: 7 });
}

#[test]
fn figures_of_known_samples() {
    assert_eq!(
        summarize(&[5, 1, 4, 2, 3]),
        Summary { min: 1, mean: 3, p50: 3, p99: 5, max: 5 }
    );
    // Halfway between two positions, the later one counts; the mean is rounded down.
    assert_eq!(summarize(&[10, 20]), Summary { min: 10, mean: 15, p50: 20, p99: 20, max: 20 });
    assert_eq!(summarize(&[1, 2, 2]), Summary { min: 1, mean: 1, p50: 2, p99: 2, max: 2 });
    let hundred: Vec<u64> = (1..=100).collect();
    assert_eq!(
        summarize(&hundred),
        Summary { min: 1, mean: 50, p50: 51, p99: 99, max: 100 }
    );
    assert_eq!(
        summarize(&[u64::MAX, 0]),
        Summary { min: 0, mean: u64::MAX / 2, p50: u64::MAX, p99: u64::MAX, max: u64::MAX }
    );
}

#[test]
fn positions_are_rounded_percentages() {
    let sizes = (1..=700usize).chain([1051, 5151, 10_001, 10_051, 65_536, 100_051]);
    for n in sizes {
        let v: Vec<u64> = (0..n as u64).collect();
        let s = summarize(&v);
        let pos = |p: f64| (p / 100.0 * (n - 1) as f64).round() as u64;
        assert_eq!(s.p50, pos(50.0), "{n}");
        assert_eq!(s.p99, pos(99.0), "{n}");
    }
}

#[test]
fn order_of_samples_does_not_matter() {
    let a = [9u64, 3, 7, 7, 1, 0, 12];
    let mut b = a;
    b.reverse();
    assert_eq!(summarize(&a), summarize(&b));
    b.sort();
    assert_eq!(summarize(&a), summarize(&b));
}

#[test]
fn figures_come_in_order() {
    for v in [vec![4u64, 4, 4], vec![0, 1000], vec![1, 1, 1, 1, 900], vec![2, 3, 5, 7, 11, 13]] {
        let s = summarize(&v);
        assert!(s.min <= s.p50 && s.p50 <= s.p99 && s.p99 <= s.max);
        assert!(s.min <= s.mean && s.mean <= s.max);
        let up_to = v.iter().filter(|x| **x <= s.p50).count();
        assert!(2 * up_to >= v.len());
    }
}

#[test]
fn rows_are_columns() {
    let row = format_row("load_execute", &[5, 1, 4, 2, 3]);
    assert_eq!(row, "  load_execute          1        3        3        5        5");
    assert_eq!(row.len(), 61);
    assert_eq!(format_row("", &[]).len(), 61);
    let long = format_row("a name that is too long", &[123456789]);
    assert_eq!(
        long,
        "  a name that is too long 123456789 123456789 123456789 123456789 123456789"
    );
    let name = "δ";
    assert_eq!(
        format_row(name, &[12]),
        format!("  {name:<14} {:>8} {:>8} {:>8} {:>8} {:>8}", 12, 12, 12, 12, 12)
    );
}
