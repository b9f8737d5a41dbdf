//! Exact non-negative rational numbers in canonical (least-denominator) form.
//!
//! Every well-formed `Rational` is the unique representation of its value
//! with the smallest possible positive denominator, so structural equality
//! coincides with equality of the represented values.

use vstd::prelude::*;

use vstd::arithmetic::div_mod::{
    lemma_fundamental_div_mod, lemma_mod_division_less_than_divisor, lemma_mod_multiples_basic,
    lemma_mod_multiples_vanish,
};
use vstd::arithmetic::mul::{lemma_mul_nonnegative, lemma_mul_upper_bound};

verus! {

/// The product of two values below the given bounds stays below the product
/// of the bounds.
proof fn lemma_prod_bound(a: int, ab: int, b: int, bb: int)
    requires
        0 <= a <= ab,
        0 <= b <= bb,
    ensures
        0 <= a * b,
        a * b <= ab * bb,
{
    lemma_mul_nonnegative(a, b);
    lemma_mul_upper_bound(a, ab, b, bb);
}

/// `n2 / d2` is a representation of the value `n / d` (denominators positive).
pub open spec fn is_rep(n: int, d: int, n2: int, d2: int) -> bool {
    1 <= d2 && n2 * d == n * d2
}

/// `n2 / d2` represents `n / d` and no fraction with a smaller positive
/// denominator does.
pub open spec fn is_canon_pair(n: int, d: int, n2: int, d2: int) -> bool {
    is_rep(n, d, n2, d2) && forall|n3: int, d3: int|
        1 <= d3 < d2 ==> !(#[trigger] is_rep(n, d, n3, d3))
}

/// The canonical (least-denominator) representation of `n / d`.
pub open spec fn canon(n: int, d: int) -> (int, int) {
    choose|p: (int, int)| is_canon_pair(n, d, p.0, p.1)
}

/// The canonical rational with the value `n / d`, as a `Rational`;
/// meaningful when the canonical pair fits the field width.
pub open spec fn canon_rat(n: int, d: int) -> Rational {
    Rational { numer: canon(n, d).0 as u32, denom: canon(n, d).1 as u32 }
}

/// An exact non-negative rational, kept in canonical form by every
/// constructor and operation of this crate.
#[derive(Debug, Clone, Copy, PartialEq, Eq, Structural, Hash)]
pub struct Rational {
    /// Numerator. Use [`Rational::new`] rather than building values directly:
    /// the contracts of this crate only cover canonical values.
    pub numer: u32,
    /// Denominator, positive in every well-formed value.
    pub denom: u32,
}

impl Rational {
    /// The value is in canonical form: positive denominator, and no equal
    /// value with a smaller denominator exists.
    pub open spec fn wf(self) -> bool {
        is_canon_pair(self.numer as int, self.denom as int, self.numer as int, self.denom as int)
    }

    /// Value order by cross multiplication: `self <= other` as rationals.
    pub open spec fn le_spec(self, other: Rational) -> bool {
        self.numer * other.denom <= other.numer * self.denom
    }
}

/// A representation with denominator `d2` exists if and only if `d` divides
/// `n * d2`, which the remainder `(n % d) * d2` decides.
proof fn lemma_rep_iff_mod(n: int, d: int, d2: int)
    requires
        0 <= n,
        1 <= d,
        1 <= d2,
    ensures
        ((n % d) * d2) % d == (n * d2) % d,
        ((n % d) * d2) % d == 0 <==> exists|n2: int| is_rep(n, d, n2, d2),
        ((n % d) * d2) % d == 0 ==> is_rep(n, d, (n / d) * d2 + ((n % d) * d2) / d, d2),
{
    lemma_fundamental_div_mod(n, d);
    assert(n * d2 == d * ((n / d) * d2) + (n % d) * d2) by (nonlinear_arith)
        requires n == d * (n / d) + n % d;
    lemma_mod_multiples_vanish((n / d) * d2, (n % d) * d2, d);
    assert(((n % d) * d2) % d == (n * d2) % d);
    if ((n % d) * d2) % d == 0 {
        lemma_fundamental_div_mod((n % d) * d2, d);
        let q = ((n % d) * d2) / d;
        assert((n % d) * d2 == d * q);
        let n2 = (n / d) * d2 + q;
        assert(n2 * d == n * d2) by (nonlinear_arith)
            requires
                n * d2 == d * ((n / d) * d2) + (n % d) * d2,
                (n % d) * d2 == d * q,
                n2 == (n / d) * d2 + q;
        assert(is_rep(n, d, n2, d2));
    }
    if exists|n2: int| is_rep(n, d, n2, d2) {
        let n2 = choose|n2: int| is_rep(n, d, n2, d2);
        assert(n2 * d == n * d2);
        lemma_mod_multiples_basic(n2, d);
        assert((n2 * d) % d == 0);
    }
}

/// A canonical representation of `n / d` exists: walk down from any
/// representation to one of least denominator.
proof fn lemma_canon_exists_helper(n: int, d: int, n2: int, d2: int)
    requires
        0 <= n,
        1 <= d,
        is_rep(n, d, n2, d2),
    ensures
        exists|p: (int, int)| is_canon_pair(n, d, p.0, p.1),
    decreases d2,
{
    if exists|n3: int, d3: int| 1 <= d3 < d2 && #[trigger] is_rep(n, d, n3, d3) {
        let (n3, d3) = choose|n3: int, d3: int| 1 <= d3 < d2 && #[trigger] is_rep(n, d, n3, d3);
        lemma_canon_exists_helper(n, d, n3, d3);
    } else {
        assert(is_canon_pair(n, d, n2, d2));
        assert(exists|p: (int, int)| is_canon_pair(n, d, p.0, p.1)) by {
            let p = (n2, d2);
            assert(is_canon_pair(n, d, p.0, p.1));
        }
    }
}

/// The properties of the canonical form `canon(n, d)`: it represents `n / d`,
/// is least in denominator, and is bounded by the original pair.
pub proof fn lemma_canon_props(n: int, d: int)
    requires
        0 <= n,
        1 <= d,
    ensures
        is_canon_pair(n, d, canon(n, d).0, canon(n, d).1),
        1 <= canon(n, d).1 <= d,
        0 <= canon(n, d).0 <= n,
{
    assert(n * d == n * d);
    assert(is_rep(n, d, n, d));
    lemma_canon_exists_helper(n, d, n, d);
    let p = choose|p: (int, int)| is_canon_pair(n, d, p.0, p.1);
    assert(is_canon_pair(n, d, canon(n, d).0, canon(n, d).1));
    let (cn, cd) = canon(n, d);
    if cd > d {
        assert(is_rep(n, d, n, d));
        assert(false);
    }
    assert(cn * d == n * cd);
    assert(0 <= cn && cn <= n) by (nonlinear_arith)
        requires cn * d == n * cd, 1 <= cd <= d, 0 <= n, 1 <= d;
}

/// Canonical representations are unique.
pub proof fn lemma_canon_unique(n: int, d: int, n2: int, d2: int)
    requires
        0 <= n,
        1 <= d,
        is_canon_pair(n, d, n2, d2),
    ensures
        (n2, d2) == canon(n, d),
{
    lemma_canon_props(n, d);
    let (cn, cd) = canon(n, d);
    if cd < d2 {
        assert(is_rep(n, d, cn, cd));
        assert(false);
    }
    if d2 < cd {
        assert(is_rep(n, d, n2, d2));
        assert(false);
    }
    assert(n2 * d == n * d2);
    assert(cn * d == n * cd);
    assert(n2 == cn) by (nonlinear_arith)
        requires n2 * d == n * d2, cn * d == n * cd, d2 == cd, 1 <= d;
}

/// The canonical form of any pair is itself well formed: representations of
/// the canonical pair are exactly the representations of the original pair.
pub proof fn lemma_canon_wf(n: int, d: int)
    requires
        0 <= n,
        1 <= d,
    ensures
        is_canon_pair(canon(n, d).0, canon(n, d).1, canon(n, d).0, canon(n, d).1),
{
    lemma_canon_props(n, d);
    let (cn, cd) = canon(n, d);
    assert(cn * cd == cn * cd);
    assert(is_rep(cn, cd, cn, cd));
    assert forall|n3: int, d3: int| 1 <= d3 < cd implies !(#[trigger] is_rep(cn, cd, n3, d3)) by {
        if is_rep(cn, cd, n3, d3) {
            assert(n3 * cd == cn * d3);
            assert(n3 * d == n * d3) by (nonlinear_arith)
                requires n3 * cd == cn * d3, cn * d == n * cd, 1 <= cd;
            assert(is_rep(n, d, n3, d3));
        }
    }
}

/// Zero over one is its own canonical form.
pub proof fn lemma_canon_zero_one()
    ensures
        canon(0, 1) == (0int, 1int),
{
    assert(is_rep(0, 1, 0, 1));
    assert(is_canon_pair(0, 1, 0, 1));
    lemma_canon_unique(0, 1, 0, 1);
}

/// The value order on well-formed rationals is a total order, and two
/// rationals of equal value are structurally equal.
pub proof fn lemma_rational_total_order(a: Rational, b: Rational, c: Rational)
    requires
        a.wf(),
        b.wf(),
        c.wf(),
    ensures
        a.le_spec(a),
        a.le_spec(b) && b.le_spec(a) ==> a == b,
        a.le_spec(b) && b.le_spec(c) ==> a.le_spec(c),
        a.le_spec(b) || b.le_spec(a),
{
    let (an, ad) = (a.numer as int, a.denom as int);
    let (bn, bd) = (b.numer as int, b.denom as int);
    let (cn, cd) = (c.numer as int, c.denom as int);
    if a.le_spec(b) && b.le_spec(a) {
        assert(an * bd == bn * ad);
        assert(is_rep(an, ad, bn, bd));
        assert(is_rep(bn, bd, an, ad)) by (nonlinear_arith)
            requires an * bd == bn * ad, 1 <= ad, 1 <= bd;
        if bd < ad {
            assert(false);
        }
        if ad < bd {
            assert(false);
        }
        assert(an == bn) by (nonlinear_arith)
            requires an * bd == bn * ad, ad == bd, 1 <= ad;
        assert(a.numer == b.numer && a.denom == b.denom);
    }
    if a.le_spec(b) && b.le_spec(c) {
        assert(an * cd <= cn * ad) by (nonlinear_arith)
            requires
                an * bd <= bn * ad,
                bn * cd <= cn * bd,
                1 <= ad, 1 <= bd, 1 <= cd;
    }
    assert(an * bd <= bn * ad || bn * ad <= an * bd);
}

/// Finds the canonical form of `n / d` by searching for the least
/// denominator that yields an integral numerator.
fn canonicalize(n: u128, d: u128) -> (r: (u32, u32))
    requires
        1 <= d,
        d <= u64::MAX as u128,
        canon(n as int, d as int).0 <= u32::MAX as int,
        canon(n as int, d as int).1 <= u32::MAX as int,
    ensures
        r.0 as int == canon(n as int, d as int).0,
        r.1 as int == canon(n as int, d as int).1,
        ({ let q = Rational { numer: r.0, denom: r.1 }; q.wf() }),
{
    proof {
        lemma_canon_props(n as int, d as int);
        lemma_canon_wf(n as int, d as int);
    }
    let ghost cn = canon(n as int, d as int).0;
    let ghost cd = canon(n as int, d as int).1;
    let nr = n % d;
    proof {
        lemma_mod_division_less_than_divisor(n as int, d as int);
        lemma_rep_iff_mod(n as int, d as int, cd);
        assert(is_rep(n as int, d as int, cn, cd));
        assert(((n as int % d as int) * cd) % d as int == 0) by {
            assert(exists|n2: int| is_rep(n as int, d as int, n2, cd)) by {
                assert(is_rep(n as int, d as int, cn, cd));
            }
        }
    }
    let mut d2: u128 = 1;
    proof {
        assert(nr as int * 1 == nr as int);
    }
    while (nr * d2) % d != 0
        invariant
            0 <= n,
            1 <= d <= u64::MAX as u128,
            nr == n % d,
            nr < d,
            canon(n as int, d as int) == (cn, cd),
            is_canon_pair(n as int, d as int, cn, cd),
            1 <= cd <= u32::MAX as int,
            0 <= cn <= u32::MAX as int,
            ((n as int % d as int) * cd) % d as int == 0,
            1 <= d2 <= cd,
            nr as int * d2 as int <= u128::MAX as int,
            forall|n3: int, d3: int| 1 <= d3 < d2 ==> !(#[trigger] is_rep(n as int, d as int, n3, d3)),
        decreases cd - d2,
    {
        proof {
            lemma_prod_bound(nr as int, u64::MAX as int, d2 as int + 1, u32::MAX as int);
            lemma_rep_iff_mod(n as int, d as int, d2 as int);
            assert forall|n3: int, d3: int| 1 <= d3 < d2 + 1 implies !(#[trigger] is_rep(
                n as int,
                d as int,
                n3,
                d3,
            )) by {
                if d3 == d2 as int && is_rep(n as int, d as int, n3, d3) {
                    assert(((n as int % d as int) * d2 as int) % d as int == 0);
                }
            }
            assert(d2 != cd);
        }
        d2 = d2 + 1;
    }
    proof {
        lemma_rep_iff_mod(n as int, d as int, d2 as int);
        let n2 = (n as int / d as int) * d2 as int + ((n as int % d as int) * d2 as int) / d as int;
        assert(is_rep(n as int, d as int, n2, d2 as int));
        assert(is_canon_pair(n as int, d as int, n2, d2 as int));
        lemma_canon_unique(n as int, d as int, n2, d2 as int);
        assert(n2 == cn && d2 as int == cd);
        assert((n as int / d as int) * d2 as int >= 0) by (nonlinear_arith)
            requires n as int / d as int >= 0, d2 as int >= 1;
        assert(((n as int % d as int) * d2 as int) / d as int >= 0) by (nonlinear_arith)
            requires (n as int % d as int) * d2 as int >= 0, d as int >= 1;
    }
    let hi = n / d;
    let num = hi * d2 + (nr * d2) / d;
    (num as u32, d2 as u32)
}

impl Rational {
    /// Creates the canonical rational with the value `numer / denom`.
    /// The denominator must not be zero.
    pub fn new(numer: u32, denom: u32) -> (r: Rational)
        requires
            denom != 0,
        ensures
            r.wf(),
            r.numer as int == canon(numer as int, denom as int).0,
            r.denom as int == canon(numer as int, denom as int).1,
            r.numer * denom == numer * r.denom,
    {
        proof {
            lemma_canon_props(numer as int, denom as int);
        }
        let (n2, d2) = canonicalize(numer as u128, denom as u128);
        Rational { numer: n2, denom: d2 }
    }

    /// Decides the value order `self <= other`.
    pub fn le(&self, other: &Rational) -> (r: bool)
        requires
            self.wf(),
            other.wf(),
        ensures
            r == self.le_spec(*other),
    {
        proof {
            lemma_prod_bound(self.numer as int, u32::MAX as int, other.denom as int, u32::MAX as int);
            lemma_prod_bound(other.numer as int, u32::MAX as int, self.denom as int, u32::MAX as int);
        }
        (self.numer as u64) * (other.denom as u64) <= (other.numer as u64) * (self.denom as u64)
    }

    /// Exact rational addition, with the result in canonical form.
    /// The canonical result must fit the field width.
    pub fn plus(&self, other: &Rational) -> (r: Rational)
        requires
            self.wf(),
            other.wf(),
            canon(
                self.numer * other.denom + other.numer * self.denom,
                self.denom * other.denom,
            ).0 <= u32::MAX as int,
            canon(
                self.numer * other.denom + other.numer * self.denom,
                self.denom * other.denom,
            ).1 <= u32::MAX as int,
        ensures
            r.wf(),
            r.numer as int == canon(
                self.numer * other.denom + other.numer * self.denom,
                self.denom * other.denom,
            ).0,
            r.denom as int == canon(
                self.numer * other.denom + other.numer * self.denom,
                self.denom * other.denom,
            ).1,
    {
        proof {
            lemma_prod_bound(self.numer as int, u32::MAX as int, other.denom as int, u32::MAX as int);
            lemma_prod_bound(other.numer as int, u32::MAX as int, self.denom as int, u32::MAX as int);
            lemma_prod_bound(self.denom as int, u32::MAX as int, other.denom as int, u32::MAX as int);
            assert(1 <= self.denom as int * other.denom as int) by (nonlinear_arith)
                requires 1 <= self.denom as int, 1 <= other.denom as int;
        }
        let n = (self.numer as u128) * (other.denom as u128) + (other.numer as u128)
            * (self.denom as u128);
        let d = (self.denom as u128) * (other.denom as u128);
        let (n2, d2) = canonicalize(n, d);
        Rational { numer: n2, denom: d2 }
    }

    /// Exact multiplication by a non-negative integer count, canonical result.
    pub fn scale(&self, count: u64) -> (r: Rational)
        requires
            self.wf(),
            canon(self.numer * count, self.denom as int).0 <= u32::MAX as int,
            canon(self.numer * count, self.denom as int).1 <= u32::MAX as int,
        ensures
            r.wf(),
            r.numer as int == canon(self.numer * count, self.denom as int).0,
            r.denom as int == canon(self.numer * count, self.denom as int).1,
    {
        proof {
            lemma_prod_bound(self.numer as int, u32::MAX as int, count as int, u64::MAX as int);
        }
        let n = (self.numer as u128) * (count as u128);
        let (n2, d2) = canonicalize(n, self.denom as u128);
        Rational { numer: n2, denom: d2 }
    }
}

} // verus!
