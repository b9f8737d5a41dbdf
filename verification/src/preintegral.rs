//! Prefix-integral structure: precomputed running integrals over a timeline
//! of integrable events, answering cumulative queries with one binary search
//! plus one local integration.

use vstd::prelude::*;

use crate::time::TimeUnit;
use crate::timeline::Timeline;
use crate::util::{all_wf, sorted, ub_index, upper_bound};

verus! {

/// An event value that integrates over a half-open time interval, with an
/// additive accumulation and a zero identity.
pub trait Integrable<U: TimeUnit>: Sized {
    /// The type of a partial integral.
    type Output: Copy;

    /// When integrating this value from `self_time` up to `target_time` is
    /// defined: the interval ordered, and the exact result within machine
    /// bounds.
    spec fn integrate_pre(&self, self_time: U, target_time: U) -> bool;

    /// The exact contribution of holding this value constant over
    /// `[self_time, target_time)`.
    spec fn integrate_spec(&self, self_time: U, target_time: U) -> Self::Output;

    /// When combining the two partial integrals is defined (machine bounds).
    spec fn accumlate_pre(lhs: Self::Output, rhs: Self::Output) -> bool;

    /// The exact combination of two partial integrals.
    spec fn accumlate_spec(lhs: Self::Output, rhs: Self::Output) -> Self::Output;

    /// The identity element of `accumlate_spec`.
    spec fn zero_spec() -> Self::Output;

    /// Integrates the value over `[self_time, target_time)`.
    fn integrate_within(&self, self_time: U, target_time: U) -> (r: Self::Output)
        requires
            self.integrate_pre(self_time, target_time),
        ensures
            r == self.integrate_spec(self_time, target_time),
    ;

    /// Accumulates two partial integrals.
    fn accumlate(lhs: Self::Output, rhs: Self::Output) -> (r: Self::Output)
        requires
            Self::accumlate_pre(lhs, rhs),
        ensures
            r == Self::accumlate_spec(lhs, rhs),
    ;

    /// The zero value of the output.
    fn zero() -> (r: Self::Output)
        ensures
            r == Self::zero_spec(),
    ;
}

/// The brute-force integral from the first breakpoint up to breakpoint `i`:
/// the accumulated contributions of every consecutive breakpoint pair.
pub open spec fn prefix_integral<U: TimeUnit, V: Integrable<U>>(
    times: Seq<U>,
    items: Seq<V>,
    i: int,
) -> V::Output
    decreases i,
{
    if i <= 0 {
        V::zero_spec()
    } else {
        V::accumlate_spec(
            prefix_integral(times, items, i - 1),
            items[i - 1].integrate_spec(times[i - 1], times[i]),
        )
    }
}

/// Every integration and accumulation performed while building the running
/// integrals is defined.
pub open spec fn build_pre<U: TimeUnit, V: Integrable<U>>(times: Seq<U>, items: Seq<V>) -> bool {
    forall|i: int|
        0 <= i < times.len() - 1 ==> (#[trigger] items[i].integrate_pre(times[i], times[i + 1]))
            && V::accumlate_pre(
            prefix_integral(times, items, i),
            items[i].integrate_spec(times[i], times[i + 1]),
        )
}

/// A read-only timeline augmented with one precomputed running integral per
/// breakpoint: entry `i` holds the total integral from the first breakpoint
/// through breakpoint `i`.
#[derive(Debug)]
pub struct Preintegral<U, V> where U: TimeUnit, V: Integrable<U> {
    /// Breakpoint times, sorted. Built by [`Preintegral::new`]; the
    /// contracts only cover values satisfying [`Preintegral::inv`].
    pub times: Vec<U>,
    /// The event value in effect from the time of the same index.
    pub items: Vec<V>,
    /// The running integral at each breakpoint.
    pub integrated_values: Vec<V::Output>,
}

impl<U, V> Preintegral<U, V> where U: TimeUnit, V: Integrable<U> {
    /// Parallel non-empty sequences, sorted times, and every stored running
    /// integral equal to the brute-force prefix integral at its index.
    pub open spec fn inv(self) -> bool {
        &&& self.times@.len() == self.items@.len()
        &&& self.integrated_values@.len() == self.times@.len()
        &&& self.times@.len() > 0
        &&& sorted(self.times@)
        &&& all_wf(self.times@)
        &&& forall|i: int|
            0 <= i < self.integrated_values@.len() ==> self.integrated_values@[i]
                == prefix_integral(self.times@, self.items@, i)
    }

    /// Builds the running integrals from a non-empty timeline by a single
    /// ordered walk.
    pub fn new(timeline: Timeline<U, V>) -> (r: Preintegral<U, V>)
        requires
            timeline.inv(),
            timeline.times@.len() > 0,
            build_pre::<U, V>(timeline.times@, timeline.items@),
        ensures
            r.inv(),
            r.times@ == timeline.times@,
            r.items@ == timeline.items@,
    {
        let (times, items) = timeline.into_pairs();
        let mut integrated_values: Vec<V::Output> = Vec::new();
        integrated_values.push(V::zero());
        let mut i: usize = 1;
        while i < times.len()
            invariant
                1 <= i <= times@.len(),
                1 <= times@.len(),
                times@.len() == items@.len(),
                sorted(times@),
                all_wf(times@),
                build_pre::<U, V>(times@, items@),
                integrated_values@.len() == i,
                forall|j: int|
                    0 <= j < i ==> integrated_values@[j] == prefix_integral(times@, items@, j),
            decreases times@.len() - i,
        {
            proof {
                let j = i as int - 1;
                assert(0 <= j < times@.len() - 1);
                assert(items@[j].integrate_pre(times@[j], times@[j + 1]));
                assert(V::accumlate_pre(
                    prefix_integral(times@, items@, j),
                    items@[j].integrate_spec(times@[j], times@[j + 1]),
                ));
            }
            let last_time = times[i - 1];
            let target_time = times[i];
            let last_integral = integrated_values[i - 1];
            let section = items_at(&items, i - 1).integrate_within(last_time, target_time);
            let acc = V::accumlate(last_integral, section);
            integrated_values.push(acc);
            i = i + 1;
        }
        Preintegral { times, items, integrated_values }
    }

    /// When fetching at `time` is defined: at or after the first breakpoint,
    /// and the one local integration and accumulation are defined.
    pub open spec fn fetch_pre(self, time: U) -> bool {
        let base = ub_index(self.times@, time) - 1;
        &&& ub_index(self.times@, time) > 0
        &&& self.items@[base].integrate_pre(self.times@[base], time)
        &&& V::accumlate_pre(
            prefix_integral(self.times@, self.items@, base),
            self.items@[base].integrate_spec(self.times@[base], time),
        )
    }

    /// The exact integral from the first breakpoint up to `time`: the
    /// brute-force sum over every earlier breakpoint pair, plus the local
    /// contribution of the value in effect at `time`.
    pub open spec fn fetch_spec(self, time: U) -> V::Output {
        let base = ub_index(self.times@, time) - 1;
        V::accumlate_spec(
            prefix_integral(self.times@, self.items@, base),
            self.items@[base].integrate_spec(self.times@[base], time),
        )
    }

    /// Fetches the integral from the first breakpoint up to `time`. Querying
    /// before the first breakpoint is a caller bug.
    pub fn fetch(&self, time: U) -> (r: V::Output)
        requires
            self.inv(),
            time.wf(),
            self.fetch_pre(time),
        ensures
            r == self.fetch_spec(time),
    {
        let base = upper_bound(self.times.as_slice(), &time) - 1;
        let section = items_at(&self.items, base).integrate_within(self.times[base], time);
        V::accumlate(self.integrated_values[base], section)
    }
}

/// Borrows the element of `items` at index `i`.
fn items_at<V>(items: &Vec<V>, i: usize) -> (r: &V)
    requires
        i < items@.len(),
    ensures
        *r == items@[i as int],
{
    &items[i]
}

/// Two prefix-integral structures built over equal breakpoints carry
/// identical running-integral sequences.
pub proof fn lemma_preintegral_deterministic<U: TimeUnit, V: Integrable<U>>(
    a: Preintegral<U, V>,
    b: Preintegral<U, V>,
)
    requires
        a.inv(),
        b.inv(),
        a.times@ == b.times@,
        a.items@ == b.items@,
    ensures
        a.integrated_values@ == b.integrated_values@,
{
    assert forall|i: int|
        0 <= i < a.integrated_values@.len() implies a.integrated_values@[i]
        == b.integrated_values@[i] by {
        assert(a.integrated_values@[i] == prefix_integral(a.times@, a.items@, i));
        assert(b.integrated_values@[i] == prefix_integral(b.times@, b.items@, i));
    }
    assert(a.integrated_values@ =~= b.integrated_values@);
}

} // verus!
