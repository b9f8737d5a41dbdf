//! Event value types: beat signatures, tempos, and the composition of both
//! timelines into one forward-filled rhythm timeline.

use vstd::prelude::*;

use crate::preintegral::Integrable;
use crate::rational::{
    canon, canon_rat, is_rep, lemma_canon_props, lemma_canon_zero_one, Rational,
};
use crate::time::{Instant, TimeUnit};
use crate::timeline::{
    key_index, lemma_key_index_unique, merged_entry_ok, Timeline, TimelineError,
};

verus! {

/// The instant at the start of measure `u`.
pub open spec fn inst_of(u: usize) -> Instant {
    Instant { measure: u, submeasure: Rational { numer: 0, denom: 1 } }
}

/// `k` is the rational-time image of a beat-timeline key: a whole measure
/// that the beat timeline holds.
pub open spec fn is_beat_key(beats: Timeline<usize, Beat>, k: Instant) -> bool {
    k.submeasure == (Rational { numer: 0, denom: 1 }) && beats.times@.contains(k.measure)
}

/// The beat signature in effect at position `i` of the key sequence `keys`:
/// the value bound at `keys[i]` where the beat timeline holds it, otherwise
/// the value inherited from the previous position (forward fill).
pub open spec fn filled_beat(beats: Timeline<usize, Beat>, keys: Seq<Instant>, i: int) -> Beat
    decreases i,
{
    if i <= 0 || is_beat_key(beats, keys[i]) {
        beats.value_at(keys[i].measure)
    } else {
        filled_beat(beats, keys, i - 1)
    }
}

/// The tempo in effect at position `i` of the key sequence `keys`, by the
/// same forward fill.
pub open spec fn filled_tempo(tempos: Timeline<Instant, Tempo>, keys: Seq<Instant>, i: int) -> Tempo
    decreases i,
{
    if i <= 0 || tempos.times@.contains(keys[i]) {
        tempos.value_at(keys[i])
    } else {
        filled_tempo(tempos, keys, i - 1)
    }
}

/// A beat-signature event: beats per measure, as an exact rational rate.
#[derive(Debug, Clone, Copy, PartialEq, Eq, Structural, Hash)]
pub struct Beat(pub Rational);

/// A tempo event.
#[derive(Debug, Clone, Copy, PartialEq, Eq, Structural, Hash)]
pub struct Tempo(pub Rational);

/// A rhythm change event: the beat signature and tempo in effect together.
#[derive(Debug, Clone, Copy, PartialEq, Eq, Structural, Hash)]
pub struct RhythmChange(pub Beat, pub Tempo);

impl Integrable<usize> for Beat {
    type Output = Rational;

    /// The interval is ordered and the exact rate-times-length product fits.
    open spec fn integrate_pre(&self, self_time: usize, target_time: usize) -> bool {
        &&& self.0.wf()
        &&& self_time <= target_time
        &&& canon(self.0.numer * (target_time - self_time), self.0.denom as int).0
            <= u32::MAX as int
        &&& canon(self.0.numer * (target_time - self_time), self.0.denom as int).1
            <= u32::MAX as int
    }

    /// Rate times the number of elapsed measures, in canonical form.
    open spec fn integrate_spec(&self, self_time: usize, target_time: usize) -> Rational {
        canon_rat(self.0.numer * (target_time - self_time), self.0.denom as int)
    }

    /// Both operands canonical and the exact sum fits.
    open spec fn accumlate_pre(lhs: Rational, rhs: Rational) -> bool {
        &&& lhs.wf()
        &&& rhs.wf()
        &&& canon(lhs.numer * rhs.denom + rhs.numer * lhs.denom, lhs.denom * rhs.denom).0
            <= u32::MAX as int
        &&& canon(lhs.numer * rhs.denom + rhs.numer * lhs.denom, lhs.denom * rhs.denom).1
            <= u32::MAX as int
    }

    /// Exact rational addition, in canonical form.
    open spec fn accumlate_spec(lhs: Rational, rhs: Rational) -> Rational {
        canon_rat(lhs.numer * rhs.denom + rhs.numer * lhs.denom, lhs.denom * rhs.denom)
    }

    open spec fn zero_spec() -> Rational {
        Rational { numer: 0, denom: 1 }
    }

    fn integrate_within(&self, self_time: usize, target_time: usize) -> (r: Rational) {
        let diff = target_time - self_time;
        proof {
            lemma_canon_props(self.0.numer * (target_time - self_time), self.0.denom as int);
        }
        self.0.scale(diff as u64)
    }

    fn accumlate(lhs: Rational, rhs: Rational) -> (r: Rational) {
        proof {
            assert(1 <= lhs.denom as int * rhs.denom as int) by (nonlinear_arith)
                requires 1 <= lhs.denom as int, 1 <= rhs.denom as int;
            assert(0 <= lhs.numer as int * rhs.denom as int && 0 <= rhs.numer as int
                * lhs.denom as int) by (nonlinear_arith);
            lemma_canon_props(
                lhs.numer * rhs.denom + rhs.numer * lhs.denom,
                lhs.denom * rhs.denom,
            );
        }
        lhs.plus(&rhs)
    }

    fn zero() -> (r: Rational) {
        proof {
            lemma_canon_zero_one();
        }
        Rational::new(0, 1)
    }
}

/// Every whole-measure instant is well formed.
proof fn lemma_inst_wf(u: usize)
    ensures
        inst_of(u).wf(),
{
    assert(is_rep(0, 1, 0, 1));
}

/// The rational-time image of a sorted beat timeline is a sorted timeline
/// with the same items, the same duplicates, and exactly the image keys.
proof fn lemma_mapped_props(beats: Timeline<usize, Beat>, mapped: Timeline<Instant, Beat>)
    requires
        beats.inv(),
        mapped.times@.len() == beats.times@.len(),
        mapped.items@ == beats.items@,
        forall|j: int|
            0 <= j < beats.times@.len() ==> mapped.times@[j] == inst_of(beats.times@[j]),
    ensures
        mapped.inv(),
        mapped.has_dup_spec() == beats.has_dup_spec(),
        forall|k: Instant| #[trigger] mapped.times@.contains(k) <==> is_beat_key(beats, k),
{
    assert((Rational { numer: 0, denom: 1 }).wf()) by {
        assert(is_rep(0, 1, 0, 1));
    }
    assert forall|i: int, j: int|
        0 <= i < j < mapped.times@.len() implies mapped.times@[i].le_spec(mapped.times@[j]) by {
        assert(beats.times@[i].le_spec(beats.times@[j]));
    }
    assert forall|i: int| 0 <= i < mapped.times@.len() implies mapped.times@[i].wf() by {
        assert(mapped.times@[i] == inst_of(beats.times@[i]));
    }
    if mapped.has_dup_spec() {
        let (i, j) = choose|i: int, j: int|
            0 <= i < j < mapped.times@.len() && mapped.times@[i] == mapped.times@[j];
        assert(beats.times@[i] == beats.times@[j]);
        assert(beats.has_dup_spec());
    }
    if beats.has_dup_spec() {
        let (i, j) = choose|i: int, j: int|
            0 <= i < j < beats.times@.len() && beats.times@[i] == beats.times@[j];
        assert(mapped.times@[i] == mapped.times@[j]);
        assert(mapped.has_dup_spec());
    }
    assert forall|k: Instant| #[trigger] mapped.times@.contains(k) <==> is_beat_key(beats, k) by {
        if mapped.times@.contains(k) {
            let p = choose|p: int| 0 <= p < mapped.times@.len() && mapped.times@[p] == k;
            assert(k == inst_of(beats.times@[p]));
            assert(beats.times@.contains(k.measure)) by {
                assert(beats.times@[p] == k.measure);
            }
        }
        if is_beat_key(beats, k) {
            let p = choose|p: int| 0 <= p < beats.times@.len() && beats.times@[p] == k.measure;
            assert(mapped.times@[p] == inst_of(k.measure));
            assert(k == inst_of(k.measure));
            assert(mapped.times@.contains(k)) by {
                assert(mapped.times@[p] == k);
            }
        }
    }
}

/// In a duplicate-free timeline that holds key `p` at index `q`, the stored
/// value at that key is the item of index `q`.
proof fn lemma_value_at<U: TimeUnit, V>(t: Timeline<U, V>, k: U, q: int)
    requires
        t.inv(),
        !t.has_dup_spec(),
        0 <= q < t.times@.len(),
        t.times@[q] == k,
    ensures
        t.value_at(k) == t.items@[q],
        key_index(t.times@, k) == q,
{
    assert forall|p: int, r: int| 0 <= p < r < t.times@.len() implies t.times@[p] != t.times@[r] by {
        if t.times@[p] == t.times@[r] {
            assert(t.has_dup_spec());
        }
    }
    lemma_key_index_unique(t.times@, k, q);
}

/// Combines a beat-signature timeline keyed by whole measures with a tempo
/// timeline keyed by rational time into one forward-filled rhythm timeline.
/// Fails on duplicate keys in either input, or when the combined result
/// would not start with both values present exactly at time zero.
pub fn merge_beats_and_tempo(beats: Timeline<usize, Beat>, tempos: Timeline<Instant, Tempo>) -> (r:
    Result<Timeline<Instant, RhythmChange>, TimelineError>)
    requires
        beats.inv(),
        tempos.inv(),
    ensures
        (beats.has_dup_spec() || tempos.has_dup_spec()) <==> r == Err::<
            Timeline<Instant, RhythmChange>,
            TimelineError,
        >(TimelineError::HasDuplicateTimes),
        !(beats.has_dup_spec() || tempos.has_dup_spec()) ==> ({
            let aligned = beats.times@.len() > 0 && tempos.times@.len() > 0 && beats.times@[0]
                == 0 && tempos.times@[0] == inst_of(0);
            &&& (!aligned ==> r == Err::<Timeline<Instant, RhythmChange>, TimelineError>(
                TimelineError::NotZeroAligned,
            ))
            &&& (aligned ==> r is Ok && ({
                let t = r.unwrap();
                &&& t.inv()
                &&& t.strict_spec()
                &&& t.times@.len() > 0
                &&& t.times@[0] == inst_of(0)
                &&& forall|k: Instant|
                    #[trigger] t.times@.contains(k) <==> (is_beat_key(beats, k)
                        || tempos.times@.contains(k))
                &&& forall|i: int|
                    0 <= i < t.times@.len() ==> #[trigger] t.items@[i] == RhythmChange(
                        filled_beat(beats, t.times@, i),
                        filled_tempo(tempos, t.times@, i),
                    )
            }))
        }),
{
    let ghost bsnap = beats;
    let ghost tsnap = tempos;
    // Map each whole-measure beat key to its rational-time image.
    let (btimes, bitems) = beats.into_pairs();
    let mut mtimes: Vec<Instant> = Vec::new();
    let mut i: usize = 0;
    while i < btimes.len()
        invariant
            i <= btimes@.len(),
            mtimes@.len() == i,
            forall|j: int| 0 <= j < i ==> mtimes@[j] == inst_of(btimes@[j]),
        decreases btimes@.len() - i,
    {
        let m = Instant::new_parts(btimes[i], 0, 1);
        proof {
            lemma_canon_zero_one();
            assert(m.submeasure == (Rational { numer: 0, denom: 1 }));
            assert(m == inst_of(btimes@[i as int]));
        }
        mtimes.push(m);
        i = i + 1;
    }
    let mapped: Timeline<Instant, Beat> = Timeline { times: mtimes, items: bitems };
    let ghost msnap = mapped;
    proof {
        lemma_mapped_props(bsnap, msnap);
    }
    let merged = match mapped.merge(tempos) {
        Ok(m) => m,
        Err(e) => {
            return Err(e);
        },
    };
    let ghost vsnap = merged;
    let (gtimes, gitems) = merged.into_pairs();
    proof {
        if bsnap.times@.len() > 0 && tsnap.times@.len() > 0 && bsnap.times@[0] == 0
            && tsnap.times@[0] == inst_of(0) {
            // Zero is a key of both inputs, hence the first merged key.
            assert(msnap.times@[0] == inst_of(0));
            assert(msnap.times@.contains(inst_of(0))) by {
                assert(msnap.times@[0] == inst_of(0));
            }
            assert(vsnap.times@.contains(inst_of(0)));
            let idx = choose|p: int|
                0 <= p < vsnap.times@.len() && vsnap.times@[p] == inst_of(0);
            assert(vsnap.times@[0].le_spec(vsnap.times@[idx]) || idx == 0);
            // Every merged key is a key of one input, each at or above zero.
            let k0 = vsnap.times@[0];
            lemma_inst_wf(0);
            assert(k0.wf()) by {
                assert(vsnap.times@[0].wf());
            }
            assert(vsnap.times@.contains(k0)) by {
                assert(vsnap.times@[0] == k0);
            }
            assert(inst_of(0).le_spec(k0)) by {
                if msnap.times@.contains(k0) {
                    let p = choose|p: int|
                        0 <= p < msnap.times@.len() && msnap.times@[p] == k0;
                    assert(msnap.times@[0].le_spec(msnap.times@[p]) || p == 0);
                } else {
                    let p = choose|p: int|
                        0 <= p < tsnap.times@.len() && tsnap.times@[p] == k0;
                    assert(tsnap.times@[0].le_spec(tsnap.times@[p]) || p == 0);
                }
            }
            Instant::lemma_total_order(k0, inst_of(0), k0);
            assert(k0 == inst_of(0));
        }
    }
    if gtimes.len() == 0 {
        proof {
            if bsnap.times@.len() > 0 && tsnap.times@.len() > 0 && bsnap.times@[0] == 0
                && tsnap.times@[0] == inst_of(0) {
                assert(vsnap.times@.contains(inst_of(0)));
                let idx = choose|p: int|
                    0 <= p < vsnap.times@.len() && vsnap.times@[p] == inst_of(0);
                assert(false);
            }
        }
        return Err(TimelineError::NotZeroAligned);
    }
    let zero_inst = Instant::new_parts(0, 0, 1);
    proof {
        lemma_canon_zero_one();
        lemma_inst_wf(0);
        assert(zero_inst.submeasure == (Rational { numer: 0, denom: 1 }));
        assert(zero_inst == inst_of(0));
        assert(merged_entry_ok(msnap, tsnap, vsnap, 0));
    }
    let k0 = gtimes[0];
    let p0 = gitems[0];
    let (first_b, first_t) = match p0 {
        (Some(b), Some(t)) => (b, t),
        _ => {
            proof {
                if bsnap.times@.len() > 0 && tsnap.times@.len() > 0 && bsnap.times@[0] == 0
                    && tsnap.times@[0] == inst_of(0) {
                    // Shown above: the first merged key is zero, held by both
                    // inputs, so both sides are present.
                    assert(msnap.times@.contains(vsnap.times@[0]));
                    assert(tsnap.times@.contains(vsnap.times@[0])) by {
                        assert(tsnap.times@[0] == inst_of(0));
                    }
                    assert(false);
                }
            }
            return Err(TimelineError::NotZeroAligned);
        },
    };
    if !(k0 == zero_inst) {
        proof {
            if bsnap.times@.len() > 0 && tsnap.times@.len() > 0 && bsnap.times@[0] == 0
                && tsnap.times@[0] == inst_of(0) {
                assert(false);
            }
        }
        return Err(TimelineError::NotZeroAligned);
    }
    proof {
        // The checks passed, so the inputs are aligned at zero.
        assert(msnap.times@.contains(k0) && tsnap.times@.contains(k0));
        assert(is_beat_key(bsnap, k0));
        assert(bsnap.times@[0] == 0) by {
            let q = choose|q: int| 0 <= q < bsnap.times@.len() && bsnap.times@[q] == k0.measure;
            assert(bsnap.times@[0].le_spec(bsnap.times@[q]) || q == 0);
        }
        assert(tsnap.times@[0] == inst_of(0)) by {
            let q = choose|q: int| 0 <= q < tsnap.times@.len() && tsnap.times@[q] == k0;
            assert(tsnap.times@[0].le_spec(tsnap.times@[q]) || q == 0);
            assert(inst_of(0).le_spec(tsnap.times@[0]));
            Instant::lemma_total_order(tsnap.times@[0], inst_of(0), tsnap.times@[0]);
        }
    }
    let mut out: Timeline<Instant, RhythmChange> = Timeline::new();
    proof {
        // The first output entry matches the fill at position zero.
        let q = choose|q: int| 0 <= q < msnap.times@.len() && msnap.times@[q] == k0;
        lemma_value_at(msnap, k0, q);
        assert(bsnap.times@[q] == k0.measure) by {
            assert(msnap.times@[q] == inst_of(bsnap.times@[q]));
        }
        lemma_value_at(bsnap, k0.measure, q);
        assert(first_b == bsnap.value_at(k0.measure));
        let qt = choose|q2: int| 0 <= q2 < tsnap.times@.len() && tsnap.times@[q2] == k0;
        lemma_value_at(tsnap, k0, qt);
        assert(first_t == tsnap.value_at(k0));
    }
    out.append(k0, RhythmChange(first_b, first_t));
    proof {
        assert(out.times@ =~= gtimes@.take(1));
    }
    let mut last_b = first_b;
    let mut last_t = first_t;
    let mut i: usize = 1;
    while i < gtimes.len()
        invariant
            bsnap.inv(),
            tsnap.inv(),
            !bsnap.has_dup_spec(),
            !tsnap.has_dup_spec(),
            msnap.inv(),
            !msnap.has_dup_spec(),
            msnap.items@ == bsnap.items@,
            msnap.times@.len() == bsnap.times@.len(),
            forall|j: int|
                0 <= j < bsnap.times@.len() ==> msnap.times@[j] == inst_of(bsnap.times@[j]),
            forall|k: Instant| #[trigger] msnap.times@.contains(k) <==> is_beat_key(bsnap, k),
            vsnap.inv(),
            vsnap.strict_spec(),
            gtimes@ == vsnap.times@,
            gitems@ == vsnap.items@,
            forall|j: int| 0 <= j < vsnap.times@.len() ==> merged_entry_ok(msnap, tsnap, vsnap, j),
            forall|k: Instant|
                #[trigger] vsnap.times@.contains(k) <==> (msnap.times@.contains(k)
                    || tsnap.times@.contains(k)),
            gtimes@.len() > 0,
            gtimes@[0] == inst_of(0),
            1 <= i <= gtimes@.len(),
            out.inv(),
            out.times@ == gtimes@.take(i as int),
            out.items@.len() == i,
            forall|j: int|
                0 <= j < i ==> #[trigger] out.items@[j] == RhythmChange(
                    filled_beat(bsnap, gtimes@, j),
                    filled_tempo(tsnap, gtimes@, j),
                ),
            last_b == filled_beat(bsnap, gtimes@, i as int - 1),
            last_t == filled_tempo(tsnap, gtimes@, i as int - 1),
        decreases gtimes@.len() - i,
    {
        let ghost ii = i as int;
        let k = gtimes[i];
        let p = gitems[i];
        proof {
            assert(merged_entry_ok(msnap, tsnap, vsnap, ii));
        }
        let b = match p.0 {
            Some(bb) => {
                proof {
                    assert(msnap.times@.contains(k));
                    let q = choose|q: int|
                        0 <= q < msnap.times@.len() && msnap.times@[q] == k;
                    lemma_value_at(msnap, k, q);
                    assert(bsnap.times@[q] == k.measure) by {
                        assert(msnap.times@[q] == inst_of(bsnap.times@[q]));
                    }
                    lemma_value_at(bsnap, k.measure, q);
                    assert(bb == bsnap.value_at(k.measure));
                    assert(is_beat_key(bsnap, k));
                    assert(filled_beat(bsnap, gtimes@, ii) == bb);
                }
                bb
            },
            None => {
                proof {
                    assert(!msnap.times@.contains(k));
                    assert(!is_beat_key(bsnap, k));
                    assert(filled_beat(bsnap, gtimes@, ii) == filled_beat(
                        bsnap,
                        gtimes@,
                        ii - 1,
                    ));
                }
                last_b
            },
        };
        let t = match p.1 {
            Some(tt) => {
                proof {
                    assert(tsnap.times@.contains(k));
                    let q = choose|q: int|
                        0 <= q < tsnap.times@.len() && tsnap.times@[q] == k;
                    lemma_value_at(tsnap, k, q);
                    assert(tt == tsnap.value_at(k));
                    assert(filled_tempo(tsnap, gtimes@, ii) == tt);
                }
                tt
            },
            None => {
                proof {
                    assert(!tsnap.times@.contains(k));
                    assert(filled_tempo(tsnap, gtimes@, ii) == filled_tempo(
                        tsnap,
                        gtimes@,
                        ii - 1,
                    ));
                }
                last_t
            },
        };
        proof {
            // The appended key is strictly above the current last key.
            assert(out.times@.last() == gtimes@[ii - 1]);
            assert(vsnap.times@[ii - 1].le_spec(vsnap.times@[ii]));
            assert(vsnap.times@[ii - 1] != vsnap.times@[ii]);
            if k.le_spec(out.times@.last()) {
                Instant::lemma_total_order(gtimes@[ii - 1], k, gtimes@[ii - 1]);
                assert(false);
            }
            assert(k.wf()) by {
                assert(vsnap.times@[ii].wf());
            }
        }
        out.append(k, RhythmChange(b, t));
        proof {
            assert(out.times@ =~= gtimes@.take(ii + 1));
        }
        last_b = b;
        last_t = t;
        i = i + 1;
    }
    proof {
        assert(out.times@ =~= gtimes@);
        assert forall|k: Instant| #[trigger] out.times@.contains(k) <==> (is_beat_key(bsnap, k)
            || tsnap.times@.contains(k)) by {
            assert(out.times@.contains(k) == vsnap.times@.contains(k));
            assert(vsnap.times@.contains(k) <==> (msnap.times@.contains(k)
                || tsnap.times@.contains(k)));
        }
    }
    Ok(out)
}

} // verus!
