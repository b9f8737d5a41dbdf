//! Time units: the ordering capability every timeline key must provide, and
//! the exact rational score position `Instant`.

use vstd::prelude::*;

use crate::rational::{canon, lemma_canon_props, lemma_rational_total_order, Rational};

verus! {

/// A type usable as the key axis of a timeline: copyable, totally ordered
/// (on its well-formed values), with a zero origin.
pub trait TimeUnit: Sized + Copy {
    /// Well-formedness of a key value; ordering laws are only promised
    /// between well-formed values.
    spec fn wf(self) -> bool;

    /// The "less than or equal" relation the timeline is sorted by.
    spec fn le_spec(self, other: Self) -> bool;

    /// The ordering laws: `le_spec` is a total order on well-formed values.
    proof fn lemma_total_order(a: Self, b: Self, c: Self)
        requires
            a.wf(),
            b.wf(),
            c.wf(),
        ensures
            a.le_spec(a),
            a.le_spec(b) && b.le_spec(a) ==> a == b,
            a.le_spec(b) && b.le_spec(c) ==> a.le_spec(c),
            a.le_spec(b) || b.le_spec(a),
    ;

    /// Decides `le_spec`.
    fn le(&self, other: &Self) -> (r: bool)
        requires
            self.wf(),
            other.wf(),
        ensures
            r == self.le_spec(*other),
    ;

    /// The zero (origin) value of the axis.
    fn zero() -> (r: Self)
        ensures
            r.wf(),
    ;
}

impl TimeUnit for usize {
    open spec fn wf(self) -> bool {
        true
    }

    open spec fn le_spec(self, other: Self) -> bool {
        self <= other
    }

    proof fn lemma_total_order(a: Self, b: Self, c: Self) {
    }

    fn le(&self, other: &Self) -> (r: bool) {
        *self <= *other
    }

    fn zero() -> (r: Self) {
        0
    }
}

/// A particular instant in a chart or score: a zero-based measure number
/// plus an exact rational offset within the measure, always below one.
#[derive(Debug, Clone, Copy, PartialEq, Eq, Structural, Hash)]
pub struct Instant {
    /// Zero-based measure number. Use the constructors rather than building
    /// values directly: the contracts of this crate only cover instants
    /// satisfying [`Instant::inv`].
    pub measure: usize,
    /// Offset within the measure, in `[0, 1)`.
    pub submeasure: Rational,
}

/// An error about `Instant` construction.
#[derive(Debug, Clone, Copy, PartialEq, Eq, Structural, Hash)]
pub enum InstantError {
    /// A submeasure at or above one whole measure was supplied.
    OverSubmeasure(Rational),
}

impl Instant {
    /// The measure number is exact and the submeasure is a canonical
    /// rational strictly below one.
    pub open spec fn inv(self) -> bool {
        self.submeasure.wf() && self.submeasure.numer < self.submeasure.denom
    }

    /// The measure number.
    pub open spec fn measure_spec(self) -> usize {
        self.measure
    }

    /// The in-measure offset.
    pub open spec fn submeasure_spec(self) -> Rational {
        self.submeasure
    }

    /// Creates a new instant, rejecting any submeasure at or above one
    /// whole measure; it never clamps.
    pub fn new(measure: usize, submeasure: Rational) -> (r: Result<Instant, InstantError>)
        requires
            submeasure.wf(),
        ensures
            submeasure.numer < submeasure.denom ==> r == Ok::<Instant, InstantError>(
                Instant { measure, submeasure },
            ),
            submeasure.numer >= submeasure.denom ==> r == Err::<Instant, InstantError>(
                InstantError::OverSubmeasure(submeasure),
            ),
            r is Ok ==> r.unwrap().inv(),
    {
        if submeasure.numer < submeasure.denom {
            Ok(Instant { measure, submeasure })
        } else {
            Err(InstantError::OverSubmeasure(submeasure))
        }
    }

    /// Creates an instant from literal parts. The fraction must already lie
    /// in `[0, 1)`: a violation is a caller-side mistake, not an input error.
    pub fn new_parts(measure: usize, sub_numer: u32, sub_denom: u32) -> (r: Instant)
        requires
            sub_denom != 0,
            sub_numer < sub_denom,
        ensures
            r.inv(),
            r.measure_spec() == measure,
            r.submeasure_spec().numer as int == canon(sub_numer as int, sub_denom as int).0,
            r.submeasure_spec().denom as int == canon(sub_numer as int, sub_denom as int).1,
    {
        let sub = Rational::new(sub_numer, sub_denom);
        proof {
            lemma_canon_props(sub_numer as int, sub_denom as int);
            assert(sub.numer < sub.denom) by (nonlinear_arith)
                requires
                    sub.numer * sub_denom == sub_numer * sub.denom,
                    sub_numer < sub_denom,
                    1 <= sub.denom,
                    1 <= sub_denom;
        }
        Instant { measure, submeasure: sub }
    }

    /// The measure number.
    pub fn measure(&self) -> (r: usize)
        ensures
            r == self.measure_spec(),
    {
        self.measure
    }

    /// The in-measure offset.
    pub fn submeasure(&self) -> (r: Rational)
        ensures
            r == self.submeasure_spec(),
    {
        self.submeasure
    }
}

impl TimeUnit for Instant {
    open spec fn wf(self) -> bool {
        self.inv()
    }

    open spec fn le_spec(self, other: Self) -> bool {
        self.measure < other.measure || (self.measure == other.measure
            && self.submeasure.le_spec(other.submeasure))
    }

    proof fn lemma_total_order(a: Self, b: Self, c: Self) {
        lemma_rational_total_order(a.submeasure, b.submeasure, c.submeasure);
    }

    fn le(&self, other: &Self) -> (r: bool) {
        if self.measure < other.measure {
            true
        } else if self.measure == other.measure {
            self.submeasure.le(&other.submeasure)
        } else {
            false
        }
    }

    fn zero() -> (r: Self) {
        Instant { measure: 0, submeasure: Rational::new(0, 1) }
    }
}

} // verus!
