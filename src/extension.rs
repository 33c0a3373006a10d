//! Quadratic extension over φ^2 = φ - 2 and cubic extension over φ^3 = φ + 1. An extension
//! element is an array of base field coordinates, lowest power of φ first.
use crate::element::{quad_mul_0, quad_mul_1, AccelBaseElementRisc0, NativeMontMul};
use crate::hints::{HintError, InverseHints};
use crate::modular::{fadd, fmod, fmul, fsub, lemma_fmod_ops, M};
use vstd::prelude::*;

verus! {

/// Frobenius coefficients of the cubic extension, as canonical integers: row 0 is
/// (1, C01, C02), row 1 is (0, C11, C12), row 2 is (0, C21, C22).
pub const C01: u64 = 10615703402128488253;

pub const C02: u64 = 6700183068485440220;

pub const C11: u64 = 10050274602728160328;

pub const C12: u64 = 14531223735771536287;

pub const C21: u64 = 11746561000929144102;

pub const C22: u64 = 8396469466686423992;

/// Coordinate 0 of (a0 + a1 φ + a2 φ^2)(b0 + b1 φ + b2 φ^2) where φ^3 = φ + 1.
pub open spec fn cubic_mul_0(a: Seq<int>, b: Seq<int>) -> int {
    fmod(a[0] * b[0] + a[1] * b[2] + a[2] * b[1])
}

/// Coordinate 1 of the cubic product.
pub open spec fn cubic_mul_1(a: Seq<int>, b: Seq<int>) -> int {
    fmod(a[0] * b[1] + a[1] * b[0] + a[1] * b[2] + a[2] * b[1] + a[2] * b[2])
}

/// Coordinate 2 of the cubic product.
pub open spec fn cubic_mul_2(a: Seq<int>, b: Seq<int>) -> int {
    fmod(a[0] * b[2] + a[1] * b[1] + a[2] * b[0] + a[2] * b[2])
}

/// One row of a linear map: with the scaled terms reduced one by one, the sum is the reduction
/// of the whole row.
proof fn lemma_row(x0: int, e: int, x1: int, c1: int, x2: int, c2: int)
    requires
        0 <= x0 < M,
        0 <= x1 < M,
        0 <= x2 < M,
        0 <= c1 < M,
        0 <= c2 < M,
        e == 0 || e == 1,
    ensures
        fadd(fadd(e * x0, fmul(c1, x1)), fmul(c2, x2)) == fmod(e * x0 + c1 * x1 + c2 * x2),
        fadd(fmul(c1, x1), fmul(c2, x2)) == fmod(c1 * x1 + c2 * x2),
{
    lemma_fmod_ops(e * x0, 0);
    lemma_fmod_ops(c1 * x1, c2 * x2);
    lemma_fmod_ops(e * x0, c1 * x1);
    lemma_fmod_ops(e * x0 + c1 * x1, c2 * x2);
    vstd::arithmetic::div_mod::lemma_small_mod(x0 as nat, M as nat);
}

/// The values of the coordinates of an extension element.
pub open spec fn values<A, const N: usize>(a: [AccelBaseElementRisc0<A>; N]) -> Seq<int> {
    a@.map_values(|e: AccelBaseElementRisc0<A>| e@)
}

impl<A: NativeMontMul> AccelBaseElementRisc0<A> {
    /// Multiplies two quadratic extension elements through the strategy `A`.
    pub fn mul_quad(a: [Self; 2], b: [Self; 2]) -> (r: [Self; 2])
        ensures
            r[0]@ == quad_mul_0(a[0]@, a[1]@, b[0]@, b[1]@),
            r[1]@ == quad_mul_1(a[0]@, a[1]@, b[0]@, b[1]@),
    {
        let p = A::native_mul_ext([a[0].inner(), a[1].inner()], [b[0].inner(), b[1].inner()]);
        [Self::from_mont(p[0]), Self::from_mont(p[1])]
    }
}

impl<A> AccelBaseElementRisc0<A> {
    /// Multiplies a quadratic extension element by a base field element.
    pub fn mul_base_quad(a: [Self; 2], b: Self) -> (r: [Self; 2])
        ensures
            r[0]@ == fmul(a[0]@, b@),
            r[1]@ == fmul(a[1]@, b@),
    {
        [a[0].times(b), a[1].times(b)]
    }

    /// The Frobenius map of the quadratic extension: (a0, a1) to (a0 + a1, -a1).
    pub fn frobenius_quad(x: [Self; 2]) -> (r: [Self; 2])
        ensures
            r[0]@ == fadd(x[0]@, x[1]@),
            r[1]@ == fsub(0, x[1]@),
    {
        [x[0].plus(x[1]), Self::zero().minus(x[1])]
    }

    /// Looks up a cached inverse of a quadratic extension element by the raw words of its
    /// coordinates. The cache holds canonical integers, which are brought into Montgomery form.
    pub fn use_hint_quad(a: [Self; 2], hints: &InverseHints) -> (r: Option<[Self; 2]>)
        ensures
            r is Some <==> hints.quad_map().contains_key((a[0].word(), a[1].word())),
            r is Some ==> ({
                let c = hints.quad_map()[(a[0].word(), a[1].word())];
                &&& r->Some_0[0]@ == fmod(c.0 as int)
                &&& r->Some_0[1]@ == fmod(c.1 as int)
            }),
    {
        match hints.lookup_quad((a[0].inner(), a[1].inner())) {
            Some(c) => Some([Self::convert_into(c.0), Self::convert_into(c.1)]),
            None => None,
        }
    }

    /// Records `b` as the inverse of `a` in the quadratic cache, keyed and valued by the
    /// canonical integers of the coordinates.
    pub fn save_hint_quad(a: [Self; 2], b: [Self; 2], hints: &mut InverseHints)
        ensures
            final(hints).quad_map() == old(hints).quad_map().insert(
                (a[0]@ as u64, a[1]@ as u64),
                (b[0]@ as u64, b[1]@ as u64),
            ),
            final(hints).base_map() == old(hints).base_map(),
    {
        let k = (a[0].as_int(), a[1].as_int());
        let v = (b[0].as_int(), b[1].as_int());
        hints.record_quad(k, v);
    }

    /// Multiplies two cubic extension elements with 6 base field multiplications.
    pub fn mul_cubic(a: [Self; 3], b: [Self; 3]) -> (r: [Self; 3])
        ensures
            r[0]@ == cubic_mul_0(values(a), values(b)),
            r[1]@ == cubic_mul_1(values(a), values(b)),
            r[2]@ == cubic_mul_2(values(a), values(b)),
    {
        let a0b0 = a[0].times(b[0]);
        let a1b1 = a[1].times(b[1]);
        let a2b2 = a[2].times(b[2]);

        let a0b0_a0b1_a1b0_a1b1 = a[0].plus(a[1]).times(b[0].plus(b[1]));
        let a0b0_a0b2_a2b0_a2b2 = a[0].plus(a[2]).times(b[0].plus(b[2]));
        let a1b1_a1b2_a2b1_a2b2 = a[1].plus(a[2]).times(b[1].plus(b[2]));

        let a0b0_minus_a1b1 = a0b0.minus(a1b1);

        let a0b0_a1b2_a2b1 = a1b1_a1b2_a2b1_a2b2.plus(a0b0_minus_a1b1).minus(a2b2);
        let a0b1_a1b0_a1b2_a2b1_a2b2 = a0b0_a0b1_a1b0_a1b1.plus(a1b1_a1b2_a2b1_a2b2).minus(
            a1b1.double(),
        ).minus(a0b0);
        let a0b2_a1b1_a2b0_a2b2 = a0b0_a0b2_a2b0_a2b2.minus(a0b0_minus_a1b1);
        proof {
            let (x0, x1, x2) = (a[0]@, a[1]@, a[2]@);
            let (y0, y1, y2) = (b[0]@, b[1]@, b[2]@);
            assert(values(a) =~= seq![x0, x1, x2]);
            assert(values(b) =~= seq![y0, y1, y2]);
            lemma_fmod_ops(x0, 0);
            lemma_fmod_ops(x1, 0);
            lemma_fmod_ops(x2, 0);
            lemma_fmod_ops(y0, 0);
            lemma_fmod_ops(y1, 0);
            lemma_fmod_ops(y2, 0);
            // every intermediate value is the reduction of the matching integer polynomial
            lemma_fmod_ops(x0 + x1, y0 + y1);
            lemma_fmod_ops(x0 + x2, y0 + y2);
            lemma_fmod_ops(x1 + x2, y1 + y2);
            lemma_fmod_ops(x0 * y0, x1 * y1);
            let p01 = (x0 + x1) * (y0 + y1);
            let p02 = (x0 + x2) * (y0 + y2);
            let p12 = (x1 + x2) * (y1 + y2);
            let d = x0 * y0 - x1 * y1;
            lemma_fmod_ops(p12, d);
            lemma_fmod_ops(p12 + d, x2 * y2);
            lemma_fmod_ops(p01, p12);
            lemma_fmod_ops(x1 * y1, x1 * y1);
            lemma_fmod_ops(p01 + p12, x1 * y1 + x1 * y1);
            lemma_fmod_ops(p01 + p12 - (x1 * y1 + x1 * y1), x0 * y0);
            lemma_fmod_ops(p02, d);
            assert(p01 == x0 * y0 + x0 * y1 + x1 * y0 + x1 * y1) by (nonlinear_arith)
                requires p01 == (x0 + x1) * (y0 + y1);
            assert(p02 == x0 * y0 + x0 * y2 + x2 * y0 + x2 * y2) by (nonlinear_arith)
                requires p02 == (x0 + x2) * (y0 + y2);
            assert(p12 == x1 * y1 + x1 * y2 + x2 * y1 + x2 * y2) by (nonlinear_arith)
                requires p12 == (x1 + x2) * (y1 + y2);
        }
        [a0b0_a1b2_a2b1, a0b1_a1b0_a1b2_a2b1_a2b2, a0b2_a1b1_a2b0_a2b2]
    }

    /// Multiplies a cubic extension element by a base field element.
    pub fn mul_base_cubic(a: [Self; 3], b: Self) -> (r: [Self; 3])
        ensures
            r[0]@ == fmul(a[0]@, b@),
            r[1]@ == fmul(a[1]@, b@),
            r[2]@ == fmul(a[2]@, b@),
    {
        [a[0].times(b), a[1].times(b), a[2].times(b)]
    }

    /// The Frobenius map of the cubic extension, a fixed linear map of the coordinates.
    pub fn frobenius_cubic(x: [Self; 3]) -> (r: [Self; 3])
        ensures
            r[0]@ == fmod(x[0]@ + C01 * x[1]@ + C02 * x[2]@),
            r[1]@ == fmod(C11 * x[1]@ + C12 * x[2]@),
            r[2]@ == fmod(C21 * x[1]@ + C22 * x[2]@),
    {
        let c01 = Self::convert_into(C01);
        let c02 = Self::convert_into(C02);
        let c11 = Self::convert_into(C11);
        let c12 = Self::convert_into(C12);
        let c21 = Self::convert_into(C21);
        let c22 = Self::convert_into(C22);
        let t01 = c01.times(x[1]);
        let t02 = c02.times(x[2]);
        let t11 = c11.times(x[1]);
        let t12 = c12.times(x[2]);
        let t21 = c21.times(x[1]);
        let t22 = c22.times(x[2]);
        let r0 = x[0].plus(t01).plus(t02);
        let r1 = t11.plus(t12);
        let r2 = t21.plus(t22);
        proof {
            x[0].lemma_view_range();
            x[1].lemma_view_range();
            x[2].lemma_view_range();
            vstd::arithmetic::div_mod::lemma_small_mod(C01 as nat, M as nat);
            vstd::arithmetic::div_mod::lemma_small_mod(C02 as nat, M as nat);
            vstd::arithmetic::div_mod::lemma_small_mod(C11 as nat, M as nat);
            vstd::arithmetic::div_mod::lemma_small_mod(C12 as nat, M as nat);
            vstd::arithmetic::div_mod::lemma_small_mod(C21 as nat, M as nat);
            vstd::arithmetic::div_mod::lemma_small_mod(C22 as nat, M as nat);
            lemma_row(x[0]@, 1, x[1]@, C01 as int, x[2]@, C02 as int);
            lemma_row(0, 0, x[1]@, C11 as int, x[2]@, C12 as int);
            lemma_row(0, 0, x[1]@, C21 as int, x[2]@, C22 as int);
            lemma_fmod_ops(x[0]@, 0);
        }
        [r0, r1, r2]
    }

    /// The cubic extension has no hints: lookup is unsupported.
    pub fn use_hint_cubic(a: [Self; 3], hints: &InverseHints) -> (r: Result<[Self; 3], HintError>)
        ensures
            r == Err::<[Self; 3], HintError>(HintError::Unsupported),
    {
        Err(HintError::Unsupported)
    }

    /// The cubic extension has no hints: recording is unsupported and changes nothing.
    pub fn save_hint_cubic(a: [Self; 3], b: [Self; 3], hints: &mut InverseHints) -> (r: Result<
        (),
        HintError,
    >)
        ensures
            r == Err::<(), HintError>(HintError::Unsupported),
            *final(hints) == *old(hints),
    {
        Err(HintError::Unsupported)
    }
}

} // verus!
