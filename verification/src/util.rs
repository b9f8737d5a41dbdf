//! Binary-search primitives over sorted sequences: `lower_bound` and
//! `upper_bound`, the building blocks of every positional query in the crate.

use vstd::prelude::*;

use crate::time::TimeUnit;

verus! {

/// The sequence is non-decreasing under the key ordering.
pub open spec fn sorted<T: TimeUnit>(s: Seq<T>) -> bool {
    forall|i: int, j: int| 0 <= i < j < s.len() ==> s[i].le_spec(s[j])
}

/// Every element is a well-formed key.
pub open spec fn all_wf<T: TimeUnit>(s: Seq<T>) -> bool {
    forall|i: int| 0 <= i < s.len() ==> s[i].wf()
}

/// The smallest index whose element is not below `key`; `s.len()` if none.
pub open spec fn lb_index<T: TimeUnit>(s: Seq<T>, key: T) -> int
    decreases s.len(),
{
    if s.len() == 0 {
        0
    } else if !key.le_spec(s[0]) {
        1 + lb_index(s.drop_first(), key)
    } else {
        0
    }
}

/// The smallest index whose element is above `key`; `s.len()` if none.
pub open spec fn ub_index<T: TimeUnit>(s: Seq<T>, key: T) -> int
    decreases s.len(),
{
    if s.len() == 0 {
        0
    } else if s[0].le_spec(key) {
        1 + ub_index(s.drop_first(), key)
    } else {
        0
    }
}

/// On a sorted sequence, `lb_index` splits the sequence into a strict prefix
/// below `key` and a suffix at or above it.
pub proof fn lemma_lb_index_props<T: TimeUnit>(s: Seq<T>, key: T)
    requires
        sorted(s),
        all_wf(s),
        key.wf(),
    ensures
        0 <= lb_index(s, key) <= s.len(),
        forall|j: int| 0 <= j < lb_index(s, key) ==> !key.le_spec(s[j]),
        forall|j: int| lb_index(s, key) <= j < s.len() ==> key.le_spec(s[j]),
    decreases s.len(),
{
    if s.len() == 0 {
    } else if !key.le_spec(s[0]) {
        let rest = s.drop_first();
        assert(sorted(rest)) by {
            assert forall|i: int, j: int| 0 <= i < j < rest.len() implies rest[i].le_spec(
                rest[j],
            ) by {
                assert(s[i + 1].le_spec(s[j + 1]));
            }
        }
        assert(all_wf(rest)) by {
            assert forall|i: int| 0 <= i < rest.len() implies rest[i].wf() by {
                assert(s[i + 1].wf());
            }
        }
        lemma_lb_index_props(rest, key);
        let r = lb_index(s, key);
        assert forall|j: int| 0 <= j < r implies !key.le_spec(s[j]) by {
            if j > 0 {
                assert(!key.le_spec(rest[j - 1]));
            }
        }
        assert forall|j: int| r <= j < s.len() implies key.le_spec(s[j]) by {
            assert(key.le_spec(rest[j - 1]));
        }
    } else {
        assert forall|j: int| 0 <= j < s.len() implies key.le_spec(s[j]) by {
            if j > 0 {
                T::lemma_total_order(key, s[0], s[j]);
            }
        }
    }
}

/// On a sorted sequence, `ub_index` splits the sequence into a prefix at or
/// below `key` and a suffix strictly above it.
pub proof fn lemma_ub_index_props<T: TimeUnit>(s: Seq<T>, key: T)
    requires
        sorted(s),
        all_wf(s),
        key.wf(),
    ensures
        0 <= ub_index(s, key) <= s.len(),
        forall|j: int| 0 <= j < ub_index(s, key) ==> s[j].le_spec(key),
        forall|j: int| ub_index(s, key) <= j < s.len() ==> !s[j].le_spec(key),
    decreases s.len(),
{
    if s.len() == 0 {
    } else if s[0].le_spec(key) {
        let rest = s.drop_first();
        assert(sorted(rest)) by {
            assert forall|i: int, j: int| 0 <= i < j < rest.len() implies rest[i].le_spec(
                rest[j],
            ) by {
                assert(s[i + 1].le_spec(s[j + 1]));
            }
        }
        assert(all_wf(rest)) by {
            assert forall|i: int| 0 <= i < rest.len() implies rest[i].wf() by {
                assert(s[i + 1].wf());
            }
        }
        lemma_ub_index_props(rest, key);
        let r = ub_index(s, key);
        assert forall|j: int| 0 <= j < r implies s[j].le_spec(key) by {
            if j > 0 {
                assert(rest[j - 1].le_spec(key));
            }
        }
        assert forall|j: int| r <= j < s.len() implies !s[j].le_spec(key) by {
            assert(!rest[j - 1].le_spec(key));
        }
    } else {
        assert forall|j: int| 0 <= j < s.len() implies !s[j].le_spec(key) by {
            if j > 0 {
                if s[j].le_spec(key) {
                    T::lemma_total_order(s[0], s[j], key);
                }
            }
        }
    }
}

/// Any index that realises the `lower_bound` split is `lb_index`.
pub proof fn lemma_lb_index_unique<T: TimeUnit>(s: Seq<T>, key: T, r: int)
    requires
        sorted(s),
        all_wf(s),
        key.wf(),
        0 <= r <= s.len(),
        forall|j: int| 0 <= j < r ==> !key.le_spec(s[j]),
        forall|j: int| r <= j < s.len() ==> key.le_spec(s[j]),
    ensures
        r == lb_index(s, key),
{
    lemma_lb_index_props(s, key);
    let l = lb_index(s, key);
    if r < l {
        assert(key.le_spec(s[r]));
        assert(!key.le_spec(s[r]));
    }
    if l < r {
        assert(key.le_spec(s[l]));
        assert(!key.le_spec(s[l]));
    }
}

/// Any index that realises the `upper_bound` split is `ub_index`.
pub proof fn lemma_ub_index_unique<T: TimeUnit>(s: Seq<T>, key: T, r: int)
    requires
        sorted(s),
        all_wf(s),
        key.wf(),
        0 <= r <= s.len(),
        forall|j: int| 0 <= j < r ==> s[j].le_spec(key),
        forall|j: int| r <= j < s.len() ==> !s[j].le_spec(key),
    ensures
        r == ub_index(s, key),
{
    lemma_ub_index_props(s, key);
    let u = ub_index(s, key);
    if r < u {
        assert(s[r].le_spec(key));
        assert(!s[r].le_spec(key));
    }
    if u < r {
        assert(s[u].le_spec(key));
        assert(!s[u].le_spec(key));
    }
}

/// On a sorted sequence, the lower bound never exceeds the upper bound, and
/// the half-open range between them is exactly the run of elements equal to
/// the key.
pub proof fn lemma_equal_run<T: TimeUnit>(s: Seq<T>, key: T)
    requires
        sorted(s),
        all_wf(s),
        key.wf(),
    ensures
        lb_index(s, key) <= ub_index(s, key),
        forall|j: int| lb_index(s, key) <= j < ub_index(s, key) ==> s[j] == key,
        forall|j: int| 0 <= j < lb_index(s, key) ==> s[j] != key,
        forall|j: int| ub_index(s, key) <= j < s.len() ==> s[j] != key,
{
    lemma_lb_index_props(s, key);
    lemma_ub_index_props(s, key);
    let lb = lb_index(s, key);
    let ub = ub_index(s, key);
    if ub < lb {
        assert(!key.le_spec(s[ub]));
        assert(!s[ub].le_spec(key));
        T::lemma_total_order(key, s[ub], key);
        assert(false);
    }
    assert forall|j: int| lb <= j < ub implies s[j] == key by {
        assert(key.le_spec(s[j]));
        assert(s[j].le_spec(key));
        T::lemma_total_order(key, s[j], key);
    }
    assert forall|j: int| 0 <= j < lb implies s[j] != key by {
        if s[j] == key {
            T::lemma_total_order(key, s[j], key);
            assert(key.le_spec(s[j]));
        }
    }
    assert forall|j: int| ub <= j < s.len() implies s[j] != key by {
        if s[j] == key {
            T::lemma_total_order(s[j], key, s[j]);
            assert(s[j].le_spec(key));
        }
    }
}

/// Searches the lower bound index for the given key: the first position whose
/// element is at or above `item`.
pub fn lower_bound<T: TimeUnit>(target: &[T], item: &T) -> (r: usize)
    requires
        sorted(target@),
        all_wf(target@),
        item.wf(),
    ensures
        r as int == lb_index(target@, *item),
        r <= target@.len(),
        forall|j: int| 0 <= j < r ==> !item.le_spec(target@[j]),
        forall|j: int| r <= j < target@.len() ==> item.le_spec(target@[j]),
{
    let ghost s = target@;
    let mut lo: usize = 0;
    let mut hi: usize = target.len();
    while lo < hi
        invariant
            sorted(s),
            all_wf(s),
            item.wf(),
            s == target@,
            0 <= lo <= hi <= s.len(),
            forall|j: int| 0 <= j < lo ==> !item.le_spec(s[j]),
            forall|j: int| hi <= j < s.len() ==> item.le_spec(s[j]),
        decreases hi - lo,
    {
        let mid = lo + (hi - lo) / 2;
        if item.le(&target[mid]) {
            proof {
                assert forall|j: int| mid <= j < s.len() implies item.le_spec(s[j]) by {
                    if j > mid {
                        T::lemma_total_order(*item, s[mid as int], s[j]);
                    }
                }
            }
            hi = mid;
        } else {
            proof {
                assert forall|j: int| 0 <= j < mid + 1 implies !item.le_spec(s[j]) by {
                    if j < mid && item.le_spec(s[j]) {
                        T::lemma_total_order(*item, s[j], s[mid as int]);
                    }
                }
            }
            lo = mid + 1;
        }
    }
    proof {
        lemma_lb_index_unique(s, *item, lo as int);
    }
    lo
}

/// Searches the upper bound index for the given key: the first position whose
/// element is strictly above `item`.
pub fn upper_bound<T: TimeUnit>(target: &[T], item: &T) -> (r: usize)
    requires
        sorted(target@),
        all_wf(target@),
        item.wf(),
    ensures
        r as int == ub_index(target@, *item),
        r <= target@.len(),
        forall|j: int| 0 <= j < r ==> target@[j].le_spec(*item),
        forall|j: int| r <= j < target@.len() ==> !target@[j].le_spec(*item),
{
    let ghost s = target@;
    let mut lo: usize = 0;
    let mut hi: usize = target.len();
    while lo < hi
        invariant
            sorted(s),
            all_wf(s),
            item.wf(),
            s == target@,
            0 <= lo <= hi <= s.len(),
            forall|j: int| 0 <= j < lo ==> s[j].le_spec(*item),
            forall|j: int| hi <= j < s.len() ==> !s[j].le_spec(*item),
        decreases hi - lo,
    {
        let mid = lo + (hi - lo) / 2;
        if target[mid].le(item) {
            proof {
                assert forall|j: int| 0 <= j < mid + 1 implies s[j].le_spec(*item) by {
                    if j < mid {
                        T::lemma_total_order(s[j], s[mid as int], *item);
                    }
                }
            }
            lo = mid + 1;
        } else {
            proof {
                assert forall|j: int| mid <= j < s.len() implies !s[j].le_spec(*item) by {
                    if j > mid && s[j].le_spec(*item) {
                        T::lemma_total_order(s[mid as int], s[j], *item);
                    }
                }
            }
            hi = mid;
        }
    }
    proof {
        lemma_ub_index_unique(s, *item, lo as int);
    }
    lo
}

} // verus!
