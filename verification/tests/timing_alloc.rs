use banking_jitter::timing_alloc::{measure_alloc, timed, TimingAlloc};

fn spin() -> u64 {
    let start = std::time::Instant::now();
    let mut n = 0u64;
    while start.elapsed().as_micros() < 2000 {
        n += 1;
    }
    n
}

#[test]
fn idle_meter_is_untouched() {
    let mut meter = TimingAlloc::new();
    assert_eq!(timed(&mut meter, 64, || 5), 5);
    meter.timed_alloc(100, spin);
    meter.timed_dealloc(spin);
    assert_eq!(meter, TimingAlloc { measuring: false, alloc_ns: 0, alloc_bytes: 0 });
}

#[test]
fn charges_wrap_around() {
    let mut meter = TimingAlloc { measuring: true, alloc_ns: u64::MAX, alloc_bytes: u64::MAX - 1 };
    meter.charge(3, 5);
    assert_eq!(meter, TimingAlloc { measuring: true, alloc_ns: 2, alloc_bytes: 3 });
    meter.charge((1u128 << 64) + 10, 0);
    assert_eq!(meter, TimingAlloc { measuring: true, alloc_ns: 12, alloc_bytes: 3 });
}

#[test]
fn each_call_counts_its_bytes() {
    let mut meter = TimingAlloc { measuring: true, alloc_ns: 0, alloc_bytes: 0 };
    assert_eq!(meter.timed_alloc(100, || "a"), "a");
    assert_eq!(meter.alloc_bytes, 100);
    assert_eq!(meter.timed_alloc_zeroed(20, || "z"), "z");
    assert_eq!(meter.alloc_bytes, 120);
    assert_eq!(meter.timed_realloc(7, || "r"), "r");
    assert_eq!(meter.alloc_bytes, 127);
    meter.timed_dealloc(|| ());
    assert_eq!(meter.alloc_bytes, 127);
    assert!(meter.measuring);
}

#[test]
fn time_in_calls_is_measured() {
    let mut meter = TimingAlloc { measuring: true, alloc_ns: 0, alloc_bytes: 0 };
    meter.timed_dealloc(spin);
    let once = meter.alloc_ns;
    assert!(once >= 2_000_000);
    timed(&mut meter, 0, spin);
    assert!(meter.alloc_ns >= once + 2_000_000);
}

#[test]
fn measuring_starts_from_zero_and_ends() {
    let mut meter = TimingAlloc { measuring: false, alloc_ns: 99, alloc_bytes: 99 };
    let (value, ns, bytes) = measure_alloc(&mut meter, |mut m| {
        assert_eq!(m, TimingAlloc { measuring: true, alloc_ns: 0, alloc_bytes: 0 });
        m.timed_alloc(10, || ());
        m.timed_dealloc(spin);
        m.timed_realloc(32, || ());
        ("done", m)
    });
    assert_eq!(value, "done");
    assert!(ns >= 2_000_000);
    assert_eq!(bytes, 42);
    assert_eq!(meter, TimingAlloc { measuring: false, alloc_ns: ns, alloc_bytes: bytes });

    let (_, ns, bytes) = measure_alloc(&mut meter, |m| ((), m));
    assert_eq!((ns, bytes), (0, 0));
    assert!(!meter.measuring);
}

#[test]
fn inner_measurement_counts_toward_the_outer() {
    let mut meter = TimingAlloc::new();
    let (inner, ns, bytes) = measure_alloc(&mut meter, |mut m| {
        m.timed_alloc(100, || ());
        let (_, inner_ns, inner_bytes) = measure_alloc(&mut m, |mut n| {
            assert_eq!(n, TimingAlloc { measuring: true, alloc_ns: 0, alloc_bytes: 0 });
            n.timed_alloc(10, spin);
            ((), n)
        });
        assert!(m.measuring);
        m.timed_alloc(1000, spin);
        ((inner_ns, inner_bytes), m)
    });
    assert_eq!(bytes, 1110);
    assert_eq!(inner.1, 10);
    assert!(inner.0 >= 2_000_000);
    assert!(ns >= inner.0 + 2_000_000);
    assert_eq!(meter, TimingAlloc { measuring: false, alloc_ns: ns, alloc_bytes: 1110 });
}

#[test]
fn meter_resumes_after_a_measurement() {
    let after = TimingAlloc { measuring: true, alloc_ns: 7, alloc_bytes: 5 };
    let mut idle = TimingAlloc { measuring: false, alloc_ns: 1, alloc_bytes: 2 };
    idle.resume(after);
    assert_eq!(idle, TimingAlloc { measuring: false, alloc_ns: 7, alloc_bytes: 5 });
    let mut busy = TimingAlloc { measuring: true, alloc_ns: u64::MAX, alloc_bytes: 2 };
    busy.resume(after);
    assert_eq!(busy, TimingAlloc { measuring: true, alloc_ns: 6, alloc_bytes: 7 });
}
