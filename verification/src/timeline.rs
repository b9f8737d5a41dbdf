//! Sorted event timelines: ordered insertion, point and slice lookup,
//! duplicate detection, and a sorted merge-join of two timelines.

use vstd::prelude::*;

use crate::time::TimeUnit;
use crate::util::{
    all_wf, lb_index, lemma_lb_index_props, lemma_ub_index_props, lower_bound, sorted, ub_index,
    upper_bound,
};

verus! {

/// A recoverable data-shape error raised by timeline combination.
#[derive(Debug, Clone, Copy, PartialEq, Eq, Structural, Hash)]
pub enum TimelineError {
    /// Timelines with duplicate times are to merge.
    HasDuplicateTimes,
    /// A combined timeline does not start with a fully specified entry at
    /// time zero.
    NotZeroAligned,
}

/// A sorted associative container of `(time, item)` pairs: two parallel
/// sequences with non-decreasing times.
#[derive(Debug)]
pub struct Timeline<U, V> {
    /// Keys, non-decreasing. Use the operations rather than editing the
    /// fields directly: the contracts only cover timelines satisfying
    /// [`Timeline::inv`].
    pub times: Vec<U>,
    /// The item bound to the key of the same index.
    pub items: Vec<V>,
}

/// The position of key `k` in a key sequence; meaningful when the sequence
/// contains `k` exactly once.
pub open spec fn key_index<U: TimeUnit>(times: Seq<U>, k: U) -> int {
    choose|i: int| 0 <= i < times.len() && times[i] == k
}

/// Strict key order.
pub open spec fn lt_key<T: TimeUnit>(a: T, b: T) -> bool {
    a.le_spec(b) && a != b
}

/// Index `i` of the merged timeline `t` carries the key of one or both
/// inputs, with each side present exactly when its input holds that key.
pub open spec fn merged_entry_ok<U: TimeUnit, V, W>(
    left: Timeline<U, V>,
    right: Timeline<U, W>,
    t: Timeline<U, (Option<V>, Option<W>)>,
    i: int,
) -> bool {
    let k = t.times@[i];
    &&& t.items@[i].0 == (if left.times@.contains(k) {
        Some(left.value_at(k))
    } else {
        None::<V>
    })
    &&& t.items@[i].1 == (if right.times@.contains(k) {
        Some(right.value_at(k))
    } else {
        None::<W>
    })
}

impl<U, V> Timeline<U, V> where U: TimeUnit {
    /// Both sequences are equal in length, the times are sorted and
    /// well formed.
    pub open spec fn inv(self) -> bool {
        &&& self.times@.len() == self.items@.len()
        &&& sorted(self.times@)
        &&& all_wf(self.times@)
    }

    /// Some time occurs at two positions.
    pub open spec fn has_dup_spec(self) -> bool {
        exists|i: int, j: int|
            0 <= i < j < self.times@.len() && self.times@[i] == self.times@[j]
    }

    /// The times are strictly increasing.
    pub open spec fn strict_spec(self) -> bool {
        forall|i: int, j: int|
            0 <= i < j < self.times@.len() ==> self.times@[i].le_spec(self.times@[j])
                && self.times@[i] != self.times@[j]
    }

    /// The item stored at key `k`; meaningful when `k` occurs exactly once.
    pub open spec fn value_at(self, k: U) -> V {
        self.items@[key_index(self.times@, k)]
    }

    /// Creates an empty timeline.
    pub fn new() -> (r: Timeline<U, V>)
        ensures
            r.inv(),
            r.times@ == Seq::<U>::empty(),
            r.items@ == Seq::<V>::empty(),
    {
        Timeline { times: Vec::new(), items: Vec::new() }
    }

    /// Returns a copy of the time sequence.
    pub fn times(&self) -> (r: Vec<U>)
        ensures
            r@ == self.times@,
    {
        let mut r: Vec<U> = Vec::new();
        let mut i: usize = 0;
        while i < self.times.len()
            invariant
                i <= self.times@.len(),
                r@ == self.times@.take(i as int),
            decreases self.times@.len() - i,
        {
            r.push(self.times[i]);
            i = i + 1;
            proof {
                assert(r@ =~= self.times@.take(i as int));
            }
        }
        proof {
            assert(r@ =~= self.times@);
        }
        r
    }

    /// Returns the item sequence.
    pub fn items(&self) -> (r: &Vec<V>)
        ensures
            r@ == self.items@,
    {
        &self.items
    }

    /// Consumes the timeline and returns its two parallel sequences.
    pub fn into_pairs(self) -> (r: (Vec<U>, Vec<V>))
        ensures
            r.0@ == self.times@,
            r.1@ == self.items@,
    {
        (self.times, self.items)
    }

    /// Appends a new pair. If any pair exists, the new time must be strictly
    /// later than the last one: appending out of order is a caller bug.
    pub fn append(&mut self, time: U, item: V)
        requires
            old(self).inv(),
            time.wf(),
            old(self).times@.len() > 0 ==> !time.le_spec(old(self).times@.last()),
        ensures
            final(self).inv(),
            final(self).times@ == old(self).times@.push(time),
            final(self).items@ == old(self).items@.push(item),
    {
        proof {
            let s = self.times@;
            if s.len() > 0 {
                assert forall|i: int| 0 <= i < s.len() implies s[i].le_spec(time) by {
                    U::lemma_total_order(s[i], s[s.len() - 1], time);
                    U::lemma_total_order(time, s[s.len() - 1], s[i]);
                }
            }
        }
        self.times.push(time);
        self.items.push(item);
    }

    /// Inserts a pair at its sorted position. A time equal to existing ones
    /// is placed after all of them, keeping insertion order among equals.
    pub fn insert(&mut self, time: U, item: V)
        requires
            old(self).inv(),
            time.wf(),
        ensures
            final(self).inv(),
            final(self).times@ == old(self).times@.insert(ub_index(old(self).times@, time), time),
            final(self).items@ == old(self).items@.insert(ub_index(old(self).times@, time), item),
    {
        let ghost s = self.times@;
        let target_index = upper_bound(self.times.as_slice(), &time);
        proof {
            let t = s.insert(target_index as int, time);
            assert forall|i: int, j: int| 0 <= i < j < t.len() implies t[i].le_spec(t[j]) by {
                let u = target_index as int;
                if i < u && j == u {
                    assert(s[i].le_spec(time));
                } else if i == u && j > u {
                    assert(!s[j - 1].le_spec(time));
                    U::lemma_total_order(time, s[j - 1], s[j - 1]);
                } else if i < u && j > u {
                    assert(s[i].le_spec(s[j - 1]) || i == j - 1);
                } else if i > u && j > u {
                    assert(s[i - 1].le_spec(s[j - 1]));
                } else {
                    assert(s[i].le_spec(s[j]));
                }
            }
            assert(all_wf(t)) by {
                assert forall|i: int| 0 <= i < t.len() implies t[i].wf() by {
                    let u = target_index as int;
                    if i < u {
                        assert(s[i].wf());
                    } else if i > u {
                        assert(s[i - 1].wf());
                    }
                }
            }
        }
        self.times.insert(target_index, time);
        self.items.insert(target_index, item);
    }

    /// Gets the item with the greatest time at or before `time`, or nothing
    /// if `time` precedes the first entry.
    pub fn latest_item(&self, time: U) -> (r: Option<&V>)
        requires
            self.inv(),
            time.wf(),
        ensures
            ub_index(self.times@, time) > 0 ==> r is Some && *r.unwrap() == self.items@[ub_index(
                self.times@,
                time,
            ) - 1],
            ub_index(self.times@, time) == 0 ==> r is None,
    {
        let left = upper_bound(self.times.as_slice(), &time);
        if left > 0 {
            Some(&self.items[left - 1])
        } else {
            None
        }
    }

    /// Gets the full run of items whose time equals the greatest time at or
    /// before `time`; empty if `time` precedes the first entry.
    pub fn latest_slice(&self, time: U) -> (r: &[V])
        requires
            self.inv(),
            time.wf(),
        ensures
            ub_index(self.times@, time) == 0 ==> r@ == Seq::<V>::empty(),
            ub_index(self.times@, time) > 0 ==> r@ == self.items@.subrange(
                lb_index(self.times@, self.times@[ub_index(self.times@, time) - 1]),
                ub_index(self.times@, time),
            ),
    {
        let right = upper_bound(self.times.as_slice(), &time);
        if right == 0 {
            let r = vstd::slice::slice_subrange(self.items.as_slice(), 0, 0);
            proof {
                assert(r@ =~= Seq::<V>::empty());
            }
            r
        } else {
            let latest_time = self.times[right - 1];
            let left = lower_bound(self.times.as_slice(), &latest_time);
            proof {
                let s = self.times@;
                let u = ub_index(s, time);
                let key = s[u - 1];
                lemma_lb_index_props(s, key);
                let l = lb_index(s, key);
                if l >= u {
                    U::lemma_total_order(key, key, key);
                    assert(key.le_spec(key));
                    assert(!key.le_spec(s[u - 1]));
                }
            }
            vstd::slice::slice_subrange(self.items.as_slice(), left, right)
        }
    }

    /// Returns whether this timeline has duplicate time steps.
    pub fn has_duplicate_times(&self) -> (r: bool)
        requires
            self.inv(),
        ensures
            r == self.has_dup_spec(),
    {
        let ghost s = self.times@;
        if self.times.len() == 0 {
            return false;
        }
        let mut i: usize = 0;
        while i < self.times.len() - 1
            invariant
                self.inv(),
                s == self.times@,
                1 <= s.len(),
                0 <= i,
                i + 1 <= s.len(),
                forall|k: int| 0 <= k < i ==> #[trigger] s[k] != s[k + 1],
            decreases s.len() - i,
        {
            let a = &self.times[i];
            let b = &self.times[i + 1];
            if a.le(b) && b.le(a) {
                proof {
                    U::lemma_total_order(s[i as int], s[i as int + 1], s[i as int]);
                    assert(s[i as int] == s[i as int + 1]);
                }
                return true;
            }
            proof {
                assert(s[i as int].le_spec(s[i as int + 1]));
                assert(s[i as int] != s[i as int + 1]) by {
                    if s[i as int] == s[i as int + 1] {
                        assert(s[i as int + 1].le_spec(s[i as int]));
                    }
                }
            }
            i = i + 1;
        }
        proof {
            if self.has_dup_spec() {
                let (p, q) = choose|p: int, q: int|
                    0 <= p < q < s.len() && s[p] == s[q];
                assert(s[p].le_spec(s[p + 1]));
                if p + 1 < q {
                    assert(s[p + 1].le_spec(s[q]));
                } else {
                    assert(s[p + 1] == s[q]);
                    U::lemma_total_order(s[p + 1], s[p], s[p]);
                }
                U::lemma_total_order(s[p + 1], s[q], s[p]);
                U::lemma_total_order(s[p], s[p + 1], s[q]);
                assert(s[p].le_spec(s[p + 1]) && s[p + 1].le_spec(s[p]));
                U::lemma_total_order(s[p], s[p + 1], s[p]);
                assert(s[p] == s[p + 1]);
                assert(false);
            }
        }
        false
    }

    /// Merges two timelines into one timeline of paired options: one output
    /// entry per distinct time of either input, carrying `(Some, Some)`
    /// exactly where times coincide. Fails when either input holds duplicate
    /// times, and never silently drops data.
    pub fn merge<W>(self, right: Timeline<U, W>) -> (r: Result<
        Timeline<U, (Option<V>, Option<W>)>,
        TimelineError,
    >)
        requires
            self.inv(),
            right.inv(),
        ensures
            (self.has_dup_spec() || right.has_dup_spec()) <==> r is Err,
            r is Err ==> r == Err::<Timeline<U, (Option<V>, Option<W>)>, TimelineError>(
                TimelineError::HasDuplicateTimes,
            ),
            r is Ok ==> ({
                let t = r.unwrap();
                &&& t.inv()
                &&& t.strict_spec()
                &&& forall|k: U|
                    #[trigger] t.times@.contains(k) <==> (self.times@.contains(k)
                        || right.times@.contains(k))
                &&& forall|i: int| 0 <= i < t.times@.len() ==> merged_entry_ok(self, right, t, i)
            }),
    {
        if self.has_duplicate_times() || right.has_duplicate_times() {
            return Err(TimelineError::HasDuplicateTimes);
        }
        let ghost lv = self;
        let ghost rv = right;
        proof {
            assert forall|i: int, j: int|
                0 <= i < j < lv.times@.len() implies lv.times@[i].le_spec(lv.times@[j])
                && lv.times@[i] != lv.times@[j] by {
                assert(lv.times@[i].le_spec(lv.times@[j]));
                if lv.times@[i] == lv.times@[j] {
                    assert(lv.has_dup_spec());
                }
            }
            assert forall|i: int, j: int|
                0 <= i < j < rv.times@.len() implies rv.times@[i].le_spec(rv.times@[j])
                && rv.times@[i] != rv.times@[j] by {
                assert(rv.times@[i].le_spec(rv.times@[j]));
                if rv.times@[i] == rv.times@[j] {
                    assert(rv.has_dup_spec());
                }
            }
        }
        let mut lt = self.times;
        let mut lit = self.items;
        let mut rt = right.times;
        let mut rit = right.items;
        let mut out: Timeline<U, (Option<V>, Option<W>)> = Timeline::new();
        let ghost mut cl: int = 0;
        let ghost mut cr: int = 0;
        proof {
            assert(lt@ =~= lv.times@.skip(0));
            assert(lit@ =~= lv.items@.skip(0));
            assert(rt@ =~= rv.times@.skip(0));
            assert(rit@ =~= rv.items@.skip(0));
            assert(merge_loop_inv(lv, rv, out, 0, 0)) by {
                assert forall|k: U| #[trigger] out.times@.contains(k) <==> (lv.times@.take(
                    0,
                ).contains(k) || rv.times@.take(0).contains(k)) by {
                    if out.times@.contains(k) {
                        let i = choose|i: int| 0 <= i < out.times@.len() && out.times@[i] == k;
                        assert(false);
                    }
                    if lv.times@.take(0).contains(k) {
                        let i = choose|i: int| 0 <= i < 0 && lv.times@.take(0)[i] == k;
                        assert(false);
                    }
                    if rv.times@.take(0).contains(k) {
                        let i = choose|i: int| 0 <= i < 0 && rv.times@.take(0)[i] == k;
                        assert(false);
                    }
                }
            }
        }
        while lt.len() > 0 || rt.len() > 0
            invariant
                lv.inv(),
                rv.inv(),
                lv.strict_spec(),
                rv.strict_spec(),
                0 <= cl <= lv.times@.len(),
                0 <= cr <= rv.times@.len(),
                lt@ == lv.times@.skip(cl),
                lit@ == lv.items@.skip(cl),
                rt@ == rv.times@.skip(cr),
                rit@ == rv.items@.skip(cr),
                lv.times@.len() == lv.items@.len(),
                rv.times@.len() == rv.items@.len(),
                merge_loop_inv(lv, rv, out, cl, cr),
            decreases lt@.len() + rt@.len(),
        {
            let mut do_left = false;
            let mut do_right = false;
            if lt.len() > 0 && rt.len() > 0 {
                do_left = lt[0].le(&rt[0]);
                do_right = rt[0].le(&lt[0]);
                proof {
                    U::lemma_total_order(lv.times@[cl], rv.times@[cr], lv.times@[cl]);
                    assert(do_left || do_right);
                }
            } else if lt.len() > 0 {
                do_left = true;
            } else {
                do_right = true;
            }
            if do_left && do_right {
                proof {
                    // The two heads are equal by antisymmetry.
                    U::lemma_total_order(lv.times@[cl], rv.times@[cr], lv.times@[cl]);
                    assert(lv.times@[cl] == rv.times@[cr]);
                }
                let kt = lt.remove(0);
                let kv = lit.remove(0);
                let _krt = rt.remove(0);
                let krv = rit.remove(0);
                proof {
                    if out.times@.len() > 0 {
                        let last = out.times@.last();
                        assert(lt_key(last, kt));
                        if kt.le_spec(last) {
                            U::lemma_total_order(last, kt, last);
                            assert(false);
                        }
                    }
                }
                let ghost out_old = out;
                out.append(kt, (Some(kv), Some(krv)));
                proof {
                    lemma_merge_step(lv, rv, out_old, out, cl, cr, true, true, kt);
                    cl = cl + 1;
                    cr = cr + 1;
                    assert(lt@ =~= lv.times@.skip(cl));
                    assert(lit@ =~= lv.items@.skip(cl));
                    assert(rt@ =~= rv.times@.skip(cr));
                    assert(rit@ =~= rv.items@.skip(cr));
                }
            } else if do_left {
                proof {
                    if rt@.len() > 0 {
                        // Strictly below the right head: equality would make
                        // the right head comparable back.
                        assert(lv.times@[cl].le_spec(rv.times@[cr]));
                        if lv.times@[cl] == rv.times@[cr] {
                            U::lemma_total_order(rv.times@[cr], lv.times@[cl], rv.times@[cr]);
                            assert(false);
                        }
                        assert(lt_key(lv.times@[cl], rv.times@[cr]));
                    }
                }
                let kt = lt.remove(0);
                let kv = lit.remove(0);
                proof {
                    if out.times@.len() > 0 {
                        let last = out.times@.last();
                        assert(lt_key(last, kt));
                        if kt.le_spec(last) {
                            U::lemma_total_order(last, kt, last);
                            assert(false);
                        }
                    }
                }
                let ghost out_old = out;
                out.append(kt, (Some(kv), None));
                proof {
                    lemma_merge_step(lv, rv, out_old, out, cl, cr, true, false, kt);
                    cl = cl + 1;
                    assert(lt@ =~= lv.times@.skip(cl));
                    assert(lit@ =~= lv.items@.skip(cl));
                }
            } else {
                proof {
                    assert(do_right);
                    if lt@.len() > 0 {
                        assert(!lv.times@[cl].le_spec(rv.times@[cr]));
                        U::lemma_total_order(rv.times@[cr], lv.times@[cl], rv.times@[cr]);
                        assert(rv.times@[cr].le_spec(lv.times@[cl]));
                        if lv.times@[cl] == rv.times@[cr] {
                            U::lemma_total_order(lv.times@[cl], lv.times@[cl], lv.times@[cl]);
                            assert(false);
                        }
                        assert(lt_key(rv.times@[cr], lv.times@[cl]));
                    }
                }
                let kt = rt.remove(0);
                let kv = rit.remove(0);
                proof {
                    if out.times@.len() > 0 {
                        let last = out.times@.last();
                        assert(lt_key(last, kt));
                        if kt.le_spec(last) {
                            U::lemma_total_order(last, kt, last);
                            assert(false);
                        }
                    }
                }
                let ghost out_old = out;
                out.append(kt, (None, Some(kv)));
                proof {
                    lemma_merge_step(lv, rv, out_old, out, cl, cr, false, true, kt);
                    cr = cr + 1;
                    assert(rt@ =~= rv.times@.skip(cr));
                    assert(rit@ =~= rv.items@.skip(cr));
                }
            }
        }
        proof {
            assert(cl == lv.times@.len());
            assert(cr == rv.times@.len());
            assert(lv.times@.take(cl) =~= lv.times@);
            assert(rv.times@.take(cr) =~= rv.times@);
            assert forall|k: U| #[trigger] out.times@.contains(k) <==> (lv.times@.contains(k)
                || rv.times@.contains(k)) by {
                assert(out.times@.contains(k) <==> (lv.times@.take(cl).contains(k)
                    || rv.times@.take(cr).contains(k)));
            }
        }
        Ok(out)
    }
}

/// In a duplicate-free key sequence, `key_index` is the only position of `k`.
pub proof fn lemma_key_index_unique<U: TimeUnit>(s: Seq<U>, k: U, i: int)
    requires
        0 <= i < s.len(),
        s[i] == k,
        forall|p: int, q: int| 0 <= p < q < s.len() ==> s[p] != s[q],
    ensures
        key_index(s, k) == i,
{
    assert(s.contains(k)) by {
        assert(s[i] == k);
    }
    let j = choose|j: int| 0 <= j < s.len() && s[j] == k;
    assert(0 <= j < s.len() && s[j] == k) by {
        assert(s[i] == k);
    }
    if i < j {
        assert(s[i] != s[j]);
    }
    if j < i {
        assert(s[j] != s[i]);
    }
}

/// The invariant of the merge-join loop: `out` holds exactly the keys of the
/// processed prefixes (`cl` and `cr` entries), each entry correct against
/// the whole inputs, strictly sorted, and below every unprocessed key.
pub open spec fn merge_loop_inv<U: TimeUnit, V, W>(
    lv: Timeline<U, V>,
    rv: Timeline<U, W>,
    out: Timeline<U, (Option<V>, Option<W>)>,
    cl: int,
    cr: int,
) -> bool {
    &&& out.inv()
    &&& out.strict_spec()
    &&& 0 <= cl <= lv.times@.len()
    &&& 0 <= cr <= rv.times@.len()
    &&& forall|k: U|
        #[trigger] out.times@.contains(k) <==> (lv.times@.take(cl).contains(k)
            || rv.times@.take(cr).contains(k))
    &&& forall|i: int| 0 <= i < out.times@.len() ==> merged_entry_ok(lv, rv, out, i)
    &&& (out.times@.len() == 0 ==> cl == 0 && cr == 0)
    &&& (out.times@.len() > 0 && cl < lv.times@.len() ==> lt_key(
        out.times@.last(),
        lv.times@[cl],
    ))
    &&& (out.times@.len() > 0 && cr < rv.times@.len() ==> lt_key(
        out.times@.last(),
        rv.times@[cr],
    ))
}

/// One step of the merge-join: appending the next smallest unprocessed key
/// (taken from the left input, the right one, or both) preserves the loop
/// invariant.
#[verifier::rlimit(60)]
proof fn lemma_merge_step<U: TimeUnit, V, W>(
    lv: Timeline<U, V>,
    rv: Timeline<U, W>,
    out_old: Timeline<U, (Option<V>, Option<W>)>,
    out_new: Timeline<U, (Option<V>, Option<W>)>,
    cl: int,
    cr: int,
    take_l: bool,
    take_r: bool,
    k: U,
)
    requires
        lv.inv(),
        rv.inv(),
        lv.strict_spec(),
        rv.strict_spec(),
        merge_loop_inv(lv, rv, out_old, cl, cr),
        take_l || take_r,
        k.wf(),
        take_l ==> cl < lv.times@.len() && k == lv.times@[cl],
        take_r ==> cr < rv.times@.len() && k == rv.times@[cr],
        !take_l ==> cl == lv.times@.len() || lt_key(k, lv.times@[cl]),
        !take_r ==> cr == rv.times@.len() || lt_key(k, rv.times@[cr]),
        out_new.times@ == out_old.times@.push(k),
        out_new.items@ == out_old.items@.push(
            (
                if take_l {
                    Some(lv.items@[cl])
                } else {
                    None::<V>
                },
                if take_r {
                    Some(rv.items@[cr])
                } else {
                    None::<W>
                },
            ),
        ),
    ensures
        merge_loop_inv(
            lv,
            rv,
            out_new,
            if take_l {
                cl + 1
            } else {
                cl
            },
            if take_r {
                cr + 1
            } else {
                cr
            },
        ),
{
    let so = out_old.times@;
    let sn = out_new.times@;
    let n = so.len() as int;
    let cl2: int = if take_l { cl + 1 } else { cl };
    let cr2: int = if take_r { cr + 1 } else { cr };

    // Every key already in the output is strictly below `k`.
    assert forall|i: int| 0 <= i < n implies lt_key(so[i], k) by {
        assert(so[i].le_spec(so[n - 1]) || i == n - 1);
        U::lemma_total_order(so[i], so[i], so[i]);
        let last = so[n - 1];
        assert(lt_key(last, k));
        U::lemma_total_order(so[i], last, k);
        if so[i] == k {
            U::lemma_total_order(last, k, so[i]);
            U::lemma_total_order(k, last, k);
            assert(last == k);
            assert(false);
        }
    }

    // Sortedness, strictness, well-formedness of the grown output.
    assert(out_new.inv() && out_new.strict_spec()) by {
        assert forall|i: int, j: int| 0 <= i < j < sn.len() implies sn[i].le_spec(sn[j])
            && sn[i] != sn[j] by {
            if j < n {
                assert(so[i].le_spec(so[j]) && so[i] != so[j]);
            } else {
                assert(lt_key(so[i], k));
            }
        }
        assert forall|i: int| 0 <= i < sn.len() implies sn[i].wf() by {
            if i < n {
                assert(so[i].wf());
            }
        }
    }

    // Key-set bookkeeping: processed prefixes grow by exactly `k`.
    if take_l {
        assert(lv.times@.take(cl2) =~= lv.times@.take(cl).push(k));
    }
    if take_r {
        assert(rv.times@.take(cr2) =~= rv.times@.take(cr).push(k));
    }
    assert forall|x: U| #[trigger] sn.contains(x) <==> (lv.times@.take(cl2).contains(x)
        || rv.times@.take(cr2).contains(x)) by {
        if sn.contains(x) {
            let i = choose|i: int| 0 <= i < sn.len() && sn[i] == x;
            if i < n {
                assert(so.contains(x)) by {
                    assert(so[i] == x);
                }
                if lv.times@.take(cl).contains(x) {
                    let p = choose|p: int| 0 <= p < cl && lv.times@.take(cl)[p] == x;
                    assert(lv.times@.take(cl2)[p] == x);
                    assert(lv.times@.take(cl2).contains(x));
                } else {
                    let p = choose|p: int| 0 <= p < cr && rv.times@.take(cr)[p] == x;
                    assert(rv.times@.take(cr2)[p] == x);
                    assert(rv.times@.take(cr2).contains(x));
                }
            } else {
                assert(x == k);
                if take_l {
                    assert(lv.times@.take(cl2)[cl] == x);
                    assert(lv.times@.take(cl2).contains(x));
                } else {
                    assert(rv.times@.take(cr2)[cr] == x);
                    assert(rv.times@.take(cr2).contains(x));
                }
            }
        }
        if lv.times@.take(cl2).contains(x) {
            let p = choose|p: int| 0 <= p < cl2 && lv.times@.take(cl2)[p] == x;
            if p < cl {
                assert(lv.times@.take(cl).contains(x)) by {
                    assert(lv.times@.take(cl)[p] == x);
                }
                assert(so.contains(x));
                let i = choose|i: int| 0 <= i < so.len() && so[i] == x;
                assert(sn[i] == x);
                assert(sn.contains(x));
            } else {
                assert(take_l && p == cl && x == k);
                assert(sn[n] == x);
                assert(sn.contains(x));
            }
        }
        if rv.times@.take(cr2).contains(x) {
            let p = choose|p: int| 0 <= p < cr2 && rv.times@.take(cr2)[p] == x;
            if p < cr {
                assert(rv.times@.take(cr).contains(x)) by {
                    assert(rv.times@.take(cr)[p] == x);
                }
                assert(so.contains(x));
                let i = choose|i: int| 0 <= i < so.len() && so[i] == x;
                assert(sn[i] == x);
                assert(sn.contains(x));
            } else {
                assert(take_r && p == cr && x == k);
                assert(sn[n] == x);
                assert(sn.contains(x));
            }
        }
    }

    // `k` occurs in an input exactly when it was taken from that input.
    assert(lv.times@.contains(k) == take_l) by {
        if take_l {
            assert(lv.times@[cl] == k);
        } else if lv.times@.contains(k) {
            let p = choose|p: int| 0 <= p < lv.times@.len() && lv.times@[p] == k;
            if p >= cl {
                // Unprocessed left keys are at or above the head, which is above `k`.
                assert(cl < lv.times@.len());
                let head = lv.times@[cl];
                assert(lt_key(k, head));
                if p > cl {
                    assert(head.le_spec(lv.times@[p]) && head != lv.times@[p]);
                }
                U::lemma_total_order(head, lv.times@[p], k);
                U::lemma_total_order(k, head, k);
                assert(false);
            } else {
                // Processed keys already sit in the output, below `k`.
                assert(lv.times@.take(cl).contains(k)) by {
                    assert(lv.times@.take(cl)[p] == k);
                }
                assert(so.contains(k));
                let i = choose|i: int| 0 <= i < so.len() && so[i] == k;
                assert(lt_key(so[i], k));
                assert(false);
            }
        }
    }
    assert(rv.times@.contains(k) == take_r) by {
        if take_r {
            assert(rv.times@[cr] == k);
        } else if rv.times@.contains(k) {
            let p = choose|p: int| 0 <= p < rv.times@.len() && rv.times@[p] == k;
            if p >= cr {
                assert(cr < rv.times@.len());
                let head = rv.times@[cr];
                assert(lt_key(k, head));
                if p > cr {
                    assert(head.le_spec(rv.times@[p]) && head != rv.times@[p]);
                }
                U::lemma_total_order(head, rv.times@[p], k);
                U::lemma_total_order(k, head, k);
                assert(false);
            } else {
                assert(rv.times@.take(cr).contains(k)) by {
                    assert(rv.times@.take(cr)[p] == k);
                }
                assert(so.contains(k));
                let i = choose|i: int| 0 <= i < so.len() && so[i] == k;
                assert(lt_key(so[i], k));
                assert(false);
            }
        }
    }

    // Entry correctness: old entries are untouched, the new one matches.
    assert forall|i: int| 0 <= i < sn.len() implies merged_entry_ok(lv, rv, out_new, i) by {
        if i < n {
            assert(merged_entry_ok(lv, rv, out_old, i));
            assert(out_new.times@[i] == out_old.times@[i]);
            assert(out_new.items@[i] == out_old.items@[i]);
        } else {
            assert(out_new.times@[i] == k);
            if take_l {
                assert forall|p: int, q: int|
                    0 <= p < q < lv.times@.len() implies lv.times@[p] != lv.times@[q] by {
                    assert(lv.times@[p].le_spec(lv.times@[q]) && lv.times@[p] != lv.times@[q]);
                }
                lemma_key_index_unique(lv.times@, k, cl);
                assert(lv.value_at(k) == lv.items@[cl]);
            }
            if take_r {
                assert forall|p: int, q: int|
                    0 <= p < q < rv.times@.len() implies rv.times@[p] != rv.times@[q] by {
                    assert(rv.times@[p].le_spec(rv.times@[q]) && rv.times@[p] != rv.times@[q]);
                }
                lemma_key_index_unique(rv.times@, k, cr);
                assert(rv.value_at(k) == rv.items@[cr]);
            }
        }
    }

    // Boundary: the new last key is below both unprocessed heads.
    if cl2 < lv.times@.len() {
        assert(lt_key(sn.last(), lv.times@[cl2])) by {
            let head = lv.times@[cl2];
            if take_l {
                assert(lv.times@[cl].le_spec(lv.times@[cl + 1]));
                assert(lv.times@[cl] != lv.times@[cl + 1]);
            } else {
                assert(lt_key(k, head));
            }
        }
    }
    if cr2 < rv.times@.len() {
        assert(lt_key(sn.last(), rv.times@[cr2])) by {
            let head = rv.times@[cr2];
            if take_r {
                assert(rv.times@[cr].le_spec(rv.times@[cr + 1]));
                assert(rv.times@[cr] != rv.times@[cr + 1]);
            } else {
                assert(lt_key(k, head));
            }
        }
    }
}

/// The entry that `latest_item` reports is the one with the greatest time at
/// or before the query: it is at or before the query, every entry at or
/// before the query sits at or below its index, and no entry at all is at or
/// before the query when the result is empty.
pub proof fn lemma_latest_item_is_greatest<U: TimeUnit, V>(t: Timeline<U, V>, time: U)
    requires
        t.inv(),
        time.wf(),
    ensures
        ub_index(t.times@, time) > 0 ==> t.times@[ub_index(t.times@, time) - 1].le_spec(time),
        forall|j: int|
            0 <= j < t.times@.len() && (#[trigger] t.times@[j].le_spec(time)) ==> j <= ub_index(
                t.times@,
                time,
            ) - 1,
        ub_index(t.times@, time) == 0 ==> forall|j: int|
            0 <= j < t.times@.len() ==> !(#[trigger] t.times@[j].le_spec(time)),
{
    lemma_ub_index_props(t.times@, time);
}

/// In a merge result, each entry holds a value of a side exactly when that
/// input holds the entry's key: `(Some, Some)` appears only at shared keys,
/// and no key of either input is dropped.
pub proof fn lemma_merge_union<U: TimeUnit, V, W>(
    left: Timeline<U, V>,
    right: Timeline<U, W>,
    t: Timeline<U, (Option<V>, Option<W>)>,
)
    requires
        forall|i: int| 0 <= i < t.times@.len() ==> merged_entry_ok(left, right, t, i),
    ensures
        forall|i: int|
            0 <= i < t.times@.len() ==> (((#[trigger] t.items@[i]).0 is Some)
                <==> left.times@.contains(t.times@[i])),
        forall|i: int|
            0 <= i < t.times@.len() ==> (((#[trigger] t.items@[i]).1 is Some)
                <==> right.times@.contains(t.times@[i])),
{
    assert forall|i: int|
        0 <= i < t.times@.len() implies (((#[trigger] t.items@[i]).0 is Some)
        <==> left.times@.contains(t.times@[i])) && (((t.items@[i]).1 is Some)
        <==> right.times@.contains(t.times@[i])) by {
        assert(merged_entry_ok(left, right, t, i));
    }
}

} // verus!
