//! Per-iteration measurement context.

use vstd::prelude::*;
use crate::clock::{elapsed_ns_since, instant_now};

verus! {

/// Context passed to a benchmark body for timing control.
///
/// The body must record exactly one duration per iteration, through one of
/// the `measure` methods or `record_duration`; the runner treats an
/// iteration that recorded no duration as a protocol violation.
pub struct StressContext {
    /// Duration recorded by the measurement call, in nanoseconds.
    pub duration: Option<u64>,
    /// Bytes processed, for throughput reporting.
    pub bytes: Option<u64>,
    /// Elements processed, for throughput reporting.
    pub elements: Option<u64>,
    /// Tags recorded during this iteration, in call order.
    pub tags: Vec<(String, String)>,
}

impl StressContext {
    /// A fresh context with nothing recorded.
    pub fn new() -> (c: Self)
        ensures
            c.duration is None,
            c.bytes is None,
            c.elements is None,
            c.tags@.len() == 0,
    {
        StressContext { duration: None, bytes: None, elements: None, tags: Vec::new() }
    }

    /// Record the number of bytes processed, enabling bytes-per-second
    /// reporting.
    pub fn set_bytes(&mut self, bytes: u64)
        ensures
            *final(self) == (Self { bytes: Some(bytes), ..*old(self) }),
    {
        self.bytes = Some(bytes);
    }

    /// Record the number of elements processed, enabling operations-per-
    /// second reporting.
    pub fn set_elements(&mut self, elements: u64)
        ensures
            *final(self) == (Self { elements: Some(elements), ..*old(self) }),
    {
        self.elements = Some(elements);
    }

    /// Add a custom tag to this iteration; tags are merged into the result
    /// with last-write-wins semantics per key.
    pub fn tag(&mut self, key: &str, value: &str)
        ensures
            final(self).tags@.len() == old(self).tags@.len() + 1,
            final(self).tags@.drop_last() == old(self).tags@,
            final(self).tags@.last().0@ == key@,
            final(self).tags@.last().1@ == value@,
            final(self).duration == old(self).duration,
            final(self).bytes == old(self).bytes,
            final(self).elements == old(self).elements,
    {
        self.tags.push((String::from_str(key), String::from_str(value)));
        proof {
            assert(self.tags@.drop_last() =~= old(self).tags@);
        }
    }

    /// Time a single-shot operation. Everything before the call is setup and
    /// everything after it is teardown; neither is timed.
    pub fn measure<R, F: FnOnce() -> R>(&mut self, f: F) -> (r: R)
        requires
            call_requires(f, ()),
        ensures
            call_ensures(f, (), r),
            final(self).duration is Some,
            final(self).bytes == old(self).bytes,
            final(self).elements == old(self).elements,
            final(self).tags == old(self).tags,
    {
        let start = instant_now();
        let r = f();
        let elapsed = elapsed_ns_since(&start);
        self.duration = Some(elapsed);
        r
    }

    /// Time an operation over a borrowed value, for when the value is still
    /// needed after the measurement.
    pub fn measure_ref<T, R, F: FnOnce(&T) -> R>(&mut self, target: &T, f: F) -> (r: R)
        requires
            call_requires(f, (target,)),
        ensures
            call_ensures(f, (target,), r),
            final(self).duration is Some,
            final(self).bytes == old(self).bytes,
            final(self).elements == old(self).elements,
            final(self).tags == old(self).tags,
    {
        let start = instant_now();
        let r = f(target);
        let elapsed = elapsed_ns_since(&start);
        self.duration = Some(elapsed);
        r
    }

    /// Time an operation that updates a value: the closure receives the
    /// value and hands it back together with its result.
    pub fn measure_mut<T, R, F: FnOnce(T) -> (T, R)>(&mut self, target: T, f: F) -> (r: (T, R))
        requires
            call_requires(f, (target,)),
        ensures
            call_ensures(f, (target,), r),
            final(self).duration is Some,
            final(self).bytes == old(self).bytes,
            final(self).elements == old(self).elements,
            final(self).tags == old(self).tags,
    {
        let start = instant_now();
        let r = f(target);
        let elapsed = elapsed_ns_since(&start);
        self.duration = Some(elapsed);
        r
    }

    /// Record an externally measured duration, in nanoseconds, for cases
    /// where the timing happens inside the system under test.
    pub fn record_duration(&mut self, duration_ns: u64)
        ensures
            *final(self) == (Self { duration: Some(duration_ns), ..*old(self) }),
    {
        self.duration = Some(duration_ns);
    }
}

} // verus!
