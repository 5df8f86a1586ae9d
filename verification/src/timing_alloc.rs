//! Timing allocator: how long a thread spends in the allocator, and for how many bytes.
//!
//! [`TimingAlloc`] is the meter of one thread. While it is measuring, every alloc, dealloc
//! and realloc is timed, and the nanoseconds (and byte volume) accumulate in it. While it
//! is not, which is the default, an allocator call passes through.
//!
//! The owner of a thread keeps its meter where the allocator finds it, lends it to each
//! allocator call, and wraps the region of interest in [`measure_alloc`] to read the true
//! time spent in malloc and free on that thread.

use std::time::Instant;

use vstd::prelude::*;

verus! {

/// The meter of one thread.
#[derive(Debug, Clone, Copy, PartialEq, Eq, Structural)]
pub struct TimingAlloc {
    /// Whether allocator calls are being timed.
    pub measuring: bool,
    /// Nanoseconds spent in the allocator.
    pub alloc_ns: u64,
    /// Bytes allocated.
    pub alloc_bytes: u64,
}

/// `std::time::Instant`, a reading of the machine's monotonic clock.
#[verifier::external_type_specification]
#[verifier::external_body]
pub struct ExInstant(Instant);

/// `Instant::now` reads the clock. Nothing is said of the reading: it depends on the time.
pub assume_specification[ Instant::now ]() -> (r: Instant)
;

/// `Instant::elapsed`, the time since an earlier reading of the clock, converted to a number
/// of nanoseconds (`Duration::as_nanos`). Nothing is said of the number: it depends on the
/// time.
#[verifier::external_body]
fn nanos_since(start: &Instant) -> (r: u128) {
    start.elapsed().as_nanos()
}

/// `ns` is what the clock gave when asked for the time since `start`, a reading that it gave
/// before.
pub closed spec fn clocked(start: Instant, ns: u128) -> bool {
    call_ensures(Instant::now, (), start) && call_ensures(nanos_since, (&start,), ns)
}

impl TimingAlloc {
    /// A meter that starts to measure: nothing has accumulated.
    pub open spec fn started() -> TimingAlloc {
        TimingAlloc { measuring: true, alloc_ns: 0, alloc_bytes: 0 }
    }

    /// The meter, measuring no longer.
    pub open spec fn stopped(self) -> TimingAlloc {
        TimingAlloc {
            measuring: false,
            alloc_ns: self.alloc_ns,
            alloc_bytes: self.alloc_bytes,
        }
    }

    /// The meter with this much more time and volume; each total wraps around.
    pub open spec fn charged(self, ns: nat, bytes: nat) -> TimingAlloc {
        TimingAlloc {
            measuring: self.measuring,
            alloc_ns: ((self.alloc_ns + ns) % 0x1_0000_0000_0000_0000) as u64,
            alloc_bytes: ((self.alloc_bytes + bytes) % 0x1_0000_0000_0000_0000) as u64,
        }
    }

    /// The meter once a measurement that began at it is over, and ended as `after`: charged
    /// all that was measured if it was measuring itself, and otherwise left with it, not
    /// measuring.
    pub open spec fn resumed(self, after: TimingAlloc) -> TimingAlloc {
        if self.measuring {
            self.charged(after.alloc_ns as nat, after.alloc_bytes as nat)
        } else {
            after.stopped()
        }
    }

    /// What one timed call for `bytes` makes of this meter: nothing while it is not
    /// measuring; otherwise it is charged the bytes and the time that the clock gave for the
    /// call, whatever that was, and unaltered.
    pub open spec fn after_call(self, after: TimingAlloc, bytes: nat) -> bool {
        if self.measuring {
            exists|start: Instant, ns: u128| #[trigger]
                clocked(start, ns) && after == self.charged(ns as nat, bytes)
        } else {
            after == self
        }
    }

    /// A meter that is not measuring.
    pub fn new() -> (r: TimingAlloc)
        ensures
            r == (TimingAlloc { measuring: false, alloc_ns: 0, alloc_bytes: 0 }),
    {
        TimingAlloc { measuring: false, alloc_ns: 0, alloc_bytes: 0 }
    }

    /// Charges a call that took `ns` nanoseconds and was for `bytes` bytes.
    pub fn charge(&mut self, ns: u128, bytes: usize)
        ensures
            *final(self) == old(self).charged(ns as nat, bytes as nat),
    {
        proof {
            lemma_low_bits(self.alloc_ns, ns);
        }
        self.alloc_ns = self.alloc_ns.wrapping_add(ns as u64);
        self.alloc_bytes = self.alloc_bytes.wrapping_add(bytes as u64);
    }

    /// Runs `f`, an allocator call for `bytes` bytes, and charges it the time since `t`.
    fn timed_since<T>(&mut self, t: Instant, bytes: usize, f: impl FnOnce() -> T) -> (r: T)
        requires
            f.requires(()),
            call_ensures(Instant::now, (), t),
        ensures
            f.ensures((), r),
            exists|ns: u128| #[trigger]
                clocked(t, ns) && *final(self) == old(self).charged(ns as nat, bytes as nat),
    {
        let r = f();
        let ns: u128 = nanos_since(&t);
        assert(clocked(t, ns));
        self.charge(ns, bytes);
        r
    }

    /// Takes up again after a measurement that ended as `after`.
    pub fn resume(&mut self, after: TimingAlloc)
        ensures
            *final(self) == old(self).resumed(after),
    {
        if self.measuring {
            self.alloc_ns = self.alloc_ns.wrapping_add(after.alloc_ns);
            self.alloc_bytes = self.alloc_bytes.wrapping_add(after.alloc_bytes);
        } else {
            *self = after;
            self.measuring = false;
        }
    }
}

/// Adding the low 64 bits of a number wraps to the same total as adding all of it.
proof fn lemma_low_bits(total: u64, n: u128)
    ensures
        total.wrapping_add(n as u64) == (total + n) % 0x1_0000_0000_0000_0000,
{
    assert(n as u64 == n % 0x1_0000_0000_0000_0000) by (bit_vector);
    vstd::arithmetic::div_mod::lemma_add_mod_noop_right(
        total as int,
        n as int,
        0x1_0000_0000_0000_0000,
    );
}

/// Runs `f`, an allocator call for `bytes` bytes, and charges it to the meter while that is
/// measuring.
pub fn timed<T>(meter: &mut TimingAlloc, bytes: usize, f: impl FnOnce() -> T) -> (r: T)
    requires
        f.requires(()),
    ensures
        f.ensures((), r),
        old(meter).after_call(*final(meter), bytes as nat),
{
    if meter.measuring {
        let t = Instant::now();
        meter.timed_since(t, bytes, f)
    } else {
        f()
    }
}

impl TimingAlloc {
    /// Runs `f`, a call that allocates `size` bytes.
    pub fn timed_alloc<T>(&mut self, size: usize, f: impl FnOnce() -> T) -> (r: T)
        requires
            f.requires(()),
        ensures
            f.ensures((), r),
            old(self).after_call(*final(self), size as nat),
    {
        timed(self, size, f)
    }

    /// Runs `f`, a call that frees. Its cost counts toward pause time, but nothing toward
    /// allocated bytes.
    pub fn timed_dealloc<T>(&mut self, f: impl FnOnce() -> T) -> (r: T)
        requires
            f.requires(()),
        ensures
            f.ensures((), r),
            old(self).after_call(*final(self), 0),
    {
        timed(self, 0, f)
    }

    /// Runs `f`, a call that allocates `size` zeroed bytes.
    pub fn timed_alloc_zeroed<T>(&mut self, size: usize, f: impl FnOnce() -> T) -> (r: T)
        requires
            f.requires(()),
        ensures
            f.ensures((), r),
            old(self).after_call(*final(self), size as nat),
    {
        timed(self, size, f)
    }

    /// Runs `f`, a call that resizes an allocation to `new_size` bytes. All of them count.
    pub fn timed_realloc<T>(&mut self, new_size: usize, f: impl FnOnce() -> T) -> (r: T)
        requires
            f.requires(()),
        ensures
            f.ensures((), r),
            old(self).after_call(*final(self), new_size as nat),
    {
        timed(self, new_size, f)
    }
}

/// Runs `f` with a meter that measures from zero. Returns `(value, nanoseconds spent in the
/// allocator, bytes allocated)` on this thread during `f`.
///
/// `f` takes that meter for the time that it runs and gives it back with its value. Where
/// `meter` was not measuring it is left with these totals, and still not measuring. Where it
/// was, inside another measurement, it goes on measuring, and the totals count toward that
/// one too. Until `f` has returned, `meter` stays as it was.
pub fn measure_alloc<T>(
    meter: &mut TimingAlloc,
    f: impl FnOnce(TimingAlloc) -> (T, TimingAlloc),
) -> (r: (T, u64, u64))
    requires
        f.requires((TimingAlloc::started(),)),
    ensures
        exists|after: TimingAlloc| #[trigger]
            f.ensures((TimingAlloc::started(),), (r.0, after)) && r.1 == after.alloc_ns && r.2
                == after.alloc_bytes && *final(meter) == old(meter).resumed(after),
{
    let (value, after) = f(TimingAlloc { measuring: true, alloc_ns: 0, alloc_bytes: 0 });
    meter.resume(after);
    let r = (value, after.alloc_ns, after.alloc_bytes);
    assert(f.ensures((TimingAlloc::started(),), (r.0, after)));
    r
}

// ---- laws ----

/// The meter after a run of calls, each with the time that it took and the bytes it was for.
pub open spec fn after_calls(meter: TimingAlloc, calls: Seq<(nat, nat)>) -> TimingAlloc
    decreases calls.len(),
{
    if calls.len() == 0 {
        meter
    } else {
        let before = after_calls(meter, calls.drop_last());
        if before.measuring {
            before.charged(calls.last().0, calls.last().1)
        } else {
            before
        }
    }
}

/// The time that the calls took together.
pub open spec fn total_ns(calls: Seq<(nat, nat)>) -> nat
    decreases calls.len(),
{
    if calls.len() == 0 {
        0
    } else {
        total_ns(calls.drop_last()) + calls.last().0
    }
}

/// The bytes that the calls were for together.
pub open spec fn total_bytes(calls: Seq<(nat, nat)>) -> nat
    decreases calls.len(),
{
    if calls.len() == 0 {
        0
    } else {
        total_bytes(calls.drop_last()) + calls.last().1
    }
}

/// While the meter measures, every call adds its time and its bytes and nothing else does:
/// the totals are the sums over all calls, as far as 64 bits hold them.
pub proof fn law_meter_adds_up(meter: TimingAlloc, calls: Seq<(nat, nat)>)
    requires
        meter.measuring,
    ensures
        after_calls(meter, calls) == meter.charged(total_ns(calls), total_bytes(calls)),
    decreases calls.len(),
{
    let m = 0x1_0000_0000_0000_0000int;
    if calls.len() > 0 {
        let rest = calls.drop_last();
        law_meter_adds_up(meter, rest);
        vstd::arithmetic::div_mod::lemma_add_mod_noop_right(
            calls.last().0 as int,
            meter.alloc_ns + total_ns(rest),
            m,
        );
        vstd::arithmetic::div_mod::lemma_add_mod_noop_right(
            calls.last().1 as int,
            meter.alloc_bytes + total_bytes(rest),
            m,
        );
    }
}

/// From a fresh start the meter holds exactly the time and the bytes of the calls, unless
/// they outgrow 64 bits.
pub proof fn law_measurement_is_exact(calls: Seq<(nat, nat)>)
    requires
        total_ns(calls) <= u64::MAX,
        total_bytes(calls) <= u64::MAX,
    ensures
        after_calls(TimingAlloc::started(), calls) == (TimingAlloc {
            measuring: true,
            alloc_ns: total_ns(calls) as u64,
            alloc_bytes: total_bytes(calls) as u64,
        }),
{
    law_meter_adds_up(TimingAlloc::started(), calls);
}

proof fn lemma_totals_of_two_runs(a: Seq<(nat, nat)>, b: Seq<(nat, nat)>)
    ensures
        total_ns(a + b) == total_ns(a) + total_ns(b),
        total_bytes(a + b) == total_bytes(a) + total_bytes(b),
    decreases b.len(),
{
    if b.len() == 0 {
        assert(a + b =~= a);
    } else {
        assert((a + b).drop_last() =~= a + b.drop_last());
        lemma_totals_of_two_runs(a, b.drop_last());
    }
}

/// What `clocked` speaks of is the clock, and nothing else.
proof fn lemma_clocked_is_the_clock(start: Instant, ns: u128)
    ensures
        clocked(start, ns) <==> call_ensures(Instant::now, (), start) && call_ensures(
            nanos_since,
            (&start,),
            ns,
        ),
{
}

/// A timed call adds what the clock gave for it, every nanosecond, and every byte that it
/// was for, and leaves the meter measuring. A call that is not timed changes nothing.
pub proof fn law_timed_call_adds_the_clock(before: TimingAlloc, after: TimingAlloc, bytes: nat)
    requires
        before.after_call(after, bytes),
    ensures
        before.measuring ==> {
            &&& after.measuring
            &&& after.alloc_bytes == (before.alloc_bytes + bytes) % 0x1_0000_0000_0000_0000
            &&& exists|start: Instant, ns: u128| #[trigger]
                clocked(start, ns) && after.alloc_ns == (before.alloc_ns + ns)
                    % 0x1_0000_0000_0000_0000
        },
        !before.measuring ==> after == before,
{
    if before.measuring {
        let (start, ns) = choose|start: Instant, ns: u128| #[trigger]
            clocked(start, ns) && after == before.charged(ns as nat, bytes);
        assert(clocked(start, ns) && after.alloc_ns == (before.alloc_ns + ns)
            % 0x1_0000_0000_0000_0000);
    }
}

/// Charging adds time to time and bytes to bytes, and turns nothing on or off.
pub proof fn law_charge_adds(meter: TimingAlloc, ns: nat, bytes: nat)
    ensures
        meter.charged(ns, bytes).measuring == meter.measuring,
        meter.charged(ns, bytes).alloc_ns == (meter.alloc_ns + ns) % 0x1_0000_0000_0000_0000,
        meter.charged(ns, bytes).alloc_bytes == (meter.alloc_bytes + bytes)
            % 0x1_0000_0000_0000_0000,
{
}

/// A measurement begins at zero. Where none was under way, it ends with the meter off and
/// holding what was measured; where one was, that one goes on, with what was measured added.
pub proof fn law_measurement_begins_and_ends(meter: TimingAlloc, after: TimingAlloc)
    ensures
        TimingAlloc::started().measuring,
        TimingAlloc::started().alloc_ns == 0,
        TimingAlloc::started().alloc_bytes == 0,
        meter.resumed(after).measuring == meter.measuring,
        !meter.measuring ==> {
            &&& meter.resumed(after).alloc_ns == after.alloc_ns
            &&& meter.resumed(after).alloc_bytes == after.alloc_bytes
        },
        meter.measuring ==> {
            &&& meter.resumed(after).alloc_ns == (meter.alloc_ns + after.alloc_ns)
                % 0x1_0000_0000_0000_0000
            &&& meter.resumed(after).alloc_bytes == (meter.alloc_bytes + after.alloc_bytes)
                % 0x1_0000_0000_0000_0000
        },
{
}

/// A measurement inside another takes nothing from it: the outer meter ends as if the inner
/// calls had been made on it, and so it counts the calls before, inside and after.
pub proof fn law_inner_measurement_counts_toward_the_outer(
    meter: TimingAlloc,
    before: Seq<(nat, nat)>,
    inside: Seq<(nat, nat)>,
    after: Seq<(nat, nat)>,
)
    requires
        meter.measuring,
    ensures
        after_calls(
            after_calls(meter, before).resumed(after_calls(TimingAlloc::started(), inside)),
            after,
        ) == after_calls(meter, before + inside + after),
{
    let outer = after_calls(meter, before);
    let inner = after_calls(TimingAlloc::started(), inside);
    law_meter_adds_up(meter, before);
    law_meter_adds_up(TimingAlloc::started(), inside);
    law_meter_adds_up(outer.resumed(inner), after);
    law_meter_adds_up(meter, before + inside + after);
    lemma_totals_of_two_runs(before, inside);
    lemma_totals_of_two_runs(before + inside, after);
    lemma_wrapped_sum(
        meter.alloc_ns as int,
        total_ns(before) as int,
        total_ns(inside) as int,
        total_ns(after) as int,
    );
    lemma_wrapped_sum(
        meter.alloc_bytes as int,
        total_bytes(before) as int,
        total_bytes(inside) as int,
        total_bytes(after) as int,
    );
}

/// Wrapping at every step of a sum comes to the same as wrapping once.
proof fn lemma_wrapped_sum(start: int, a: int, b: int, c: int)
    ensures
        ({
            let m = 0x1_0000_0000_0000_0000int;
            (((start + a) % m + b % m) % m + c) % m == (start + (a + b + c)) % m
        }),
{
    let m = 0x1_0000_0000_0000_0000int;
    vstd::arithmetic::div_mod::lemma_add_mod_noop(start + a, b, m);
    vstd::arithmetic::div_mod::lemma_add_mod_noop_right(c, start + a + b, m);
}

/// A timed call is one call of a run, with the bytes it was for and some time.
pub proof fn law_timed_call_is_one_of_a_run(
    meter: TimingAlloc,
    calls: Seq<(nat, nat)>,
    after: TimingAlloc,
    bytes: nat,
)
    requires
        after_calls(meter, calls).after_call(after, bytes),
    ensures
        exists|ns: nat| after == after_calls(meter, #[trigger] calls.push((ns, bytes))),
{
    let before = after_calls(meter, calls);
    let ns: nat = if before.measuring {
        let (start, ns) = choose|start: Instant, ns: u128| #[trigger]
            clocked(start, ns) && after == before.charged(ns as nat, bytes);
        ns as nat
    } else {
        0
    };
    assert(calls.push((ns, bytes)).drop_last() =~= calls);
    assert(after == after_calls(meter, calls.push((ns, bytes))));
}

/// A meter that is not measuring stays as it is, whatever calls pass through.
pub proof fn law_idle_meter_is_untouched(meter: TimingAlloc, calls: Seq<(nat, nat)>)
    requires
        !meter.measuring,
    ensures
        after_calls(meter, calls) == meter,
    decreases calls.len(),
{
    if calls.len() > 0 {
        law_idle_meter_is_untouched(meter, calls.drop_last());
    }
}

} // verus!
