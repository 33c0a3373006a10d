//! Base field elements in Montgomery form.
use crate::modular::{
    equals, fadd, fmod, fmul, fpow, fsub, lemma_fmod_ops, lemma_fpow_add, lemma_fpow_fpow,
    lemma_fpow_succ, lemma_fpow_zero, lemma_reduction_is_value, lemma_value_add,
    lemma_value_of_conversion, lemma_value_of_product, lemma_value_of_word, lemma_value_shift,
    lemma_value_sub, lemma_word_of_value, mont_red_cst, mont_value, mont_word, r_int, sub_borrow, M,
    R2,
};
use core::marker::PhantomData;
use vstd::arithmetic::power2::pow2;
use vstd::prelude::*;

verus! {

/// 2^32 root of unity, as a canonical integer.
pub const G: u64 = 1753635133440165772;

/// The largest k with 2^k dividing M - 1.
pub const TWO_ADICITY: u32 = 32;

/// Number of bits of the modulus.
pub const MODULUS_BITS: u32 = 64;

/// Number of bytes needed to represent a field element.
pub const ELEMENT_BYTES: usize = 8;

/// A strategy for multiplying two quadratic extension elements given as the canonical
/// Montgomery words of their coordinates. Every strategy computes the same product.
pub trait NativeMontMul: Copy {
    fn native_mul_ext(a: [u64; 2], b: [u64; 2]) -> (r: [u64; 2])
        requires
            a[0] < M,
            a[1] < M,
            b[0] < M,
            b[1] < M,
        ensures
            r[0] < M,
            r[1] < M,
            mont_value(r[0] as int) == quad_mul_0(
                mont_value(a[0] as int),
                mont_value(a[1] as int),
                mont_value(b[0] as int),
                mont_value(b[1] as int),
            ),
            mont_value(r[1] as int) == quad_mul_1(
                mont_value(a[0] as int),
                mont_value(a[1] as int),
                mont_value(b[0] as int),
                mont_value(b[1] as int),
            ),
    ;
}

/// First coordinate of (a0 + a1 φ)(b0 + b1 φ) where φ^2 = φ - 2.
pub open spec fn quad_mul_0(a0: int, a1: int, b0: int, b1: int) -> int {
    fmod(a0 * b0 - 2 * (a1 * b1))
}

/// Second coordinate of (a0 + a1 φ)(b0 + b1 φ) where φ^2 = φ - 2.
pub open spec fn quad_mul_1(a0: int, a1: int, b0: int, b1: int) -> int {
    fmod(a0 * b1 + a1 * b0 + a1 * b1)
}

/// The default strategy: three base field multiplications, Karatsuba style.
#[derive(Clone, Copy, Debug, Default, PartialEq, Eq, PartialOrd, Ord)]
pub struct DefaultNativeMul {}

impl NativeMontMul for DefaultNativeMul {
    fn native_mul_ext(a: [u64; 2], b: [u64; 2]) -> (r: [u64; 2]) {
        let a_fp = [BaseElement::from_mont(a[0]), BaseElement::from_mont(a[1])];
        let b_fp = [BaseElement::from_mont(b[0]), BaseElement::from_mont(b[1])];

        let a0b0 = a_fp[0].times(b_fp[0]);
        let a1b1 = a_fp[1].times(b_fp[1]);
        let first = a0b0.minus(a1b1.double());
        let a0a1 = a_fp[0].plus(a_fp[1]);
        let b0b1 = b_fp[0].plus(b_fp[1]);
        let second = a0a1.times(b0b1).minus(a0b0);
        proof {
            let (x0, x1, y0, y1) = (a_fp[0]@, a_fp[1]@, b_fp[0]@, b_fp[1]@);
            BaseElement::lemma_of_value(fadd(x1 * y1 % (M as int), x1 * y1 % (M as int)));
            lemma_fmod_ops(x1 * y1, x1 * y1);
            lemma_fmod_ops(x0 * y0, x1 * y1 + x1 * y1);
            assert(x1 * y1 + x1 * y1 == 2 * (x1 * y1));
            lemma_fmod_ops(x0 + x1, y0 + y1);
            lemma_fmod_ops((x0 + x1) * (y0 + y1), x0 * y0);
            assert((x0 + x1) * (y0 + y1) - x0 * y0 == x0 * y1 + x1 * y0 + x1 * y1)
                by (nonlinear_arith);
        }
        [first.inner(), second.inner()]
    }
}

/// The base field with the default extension multiplication.
pub type BaseElement = AccelBaseElementRisc0<DefaultNativeMul>;

/// A base field element. The word `val` is the Montgomery form of the value it stands for,
/// v * 2^64 mod M, and is always kept below M.
///
/// The derived order compares these raw words, not the integers they stand for.
#[derive(Debug, Ord)]
pub struct AccelBaseElementRisc0<A> {
    val: u64,
    t: PhantomData<A>,
}

impl<A> Clone for AccelBaseElementRisc0<A> {
    fn clone(&self) -> (r: Self)
        ensures
            r == *self,
    {
        *self
    }
}

impl<A> Copy for AccelBaseElementRisc0<A> {

}

impl<A> View for AccelBaseElementRisc0<A> {
    type V = int;

    /// The field value, in [0, M), that this element stands for.
    closed spec fn view(&self) -> int {
        mont_value(self.val as int)
    }
}

impl<A> AccelBaseElementRisc0<A> {
    #[verifier::type_invariant]
    spec fn canonical(self) -> bool {
        self.val < M
    }

    /// The raw Montgomery word.
    pub closed spec fn word(self) -> u64 {
        self.val
    }

    /// The element that stands for `x mod M`.
    pub closed spec fn of_value(x: int) -> Self {
        AccelBaseElementRisc0 { val: mont_word(fmod(x)) as u64, t: PhantomData }
    }

    /// An element is fixed by its value, and its word is the canonical Montgomery form of it.
    pub proof fn lemma_determined(self)
        requires
            self.word() < M,
        ensures
            0 <= self@ < M,
            self.word() < M,
            self.word() == mont_word(self@),
            self == Self::of_value(self@),
    {
        lemma_word_of_value(self.val as int);
        vstd::arithmetic::div_mod::lemma_small_mod(self@ as nat, M as nat);
    }

    /// The element built for a value stands for that value mod M.
    pub proof fn lemma_of_value(x: int)
        ensures
            Self::of_value(x)@ == fmod(x),
            Self::of_value(x).word() < M,
            0 <= x < M ==> Self::of_value(x)@ == x,
    {
        vstd::arithmetic::div_mod::lemma_mod_bound(x, M as int);
        lemma_value_of_word(fmod(x));
        if 0 <= x < M {
            vstd::arithmetic::div_mod::lemma_small_mod(x as nat, M as nat);
        }
    }

    /// The value of an element lies in [0, M).
    pub proof fn lemma_view_range(self)
        ensures
            0 <= self@ < M,
    {
        vstd::arithmetic::div_mod::lemma_mod_bound(self.val * R2, M as int);
    }

    /// An element stands for the value of its word.
    pub proof fn lemma_view_word(self)
        ensures
            self@ == mont_value(self.word() as int),
    {
    }

    /// Two canonical elements have the same word exactly when they stand for the same value.
    pub proof fn lemma_word_eq_iff(a: Self, b: Self)
        requires
            a.word() < M,
            b.word() < M,
        ensures
            (a.word() == b.word()) <==> (a@ == b@),
    {
        a.lemma_determined();
        b.lemma_determined();
    }

    /// Two elements are equal exactly when they stand for the same value.
    pub proof fn lemma_eq_iff_value(a: Self, b: Self)
        requires
            a.word() < M,
            b.word() < M,
        ensures
            (a == b) <==> (a@ == b@),
    {
        a.lemma_determined();
        b.lemma_determined();
    }

    /// Creates a new field element from `value`, converting it into Montgomery form. A value
    /// at or above the modulus is reduced.
    pub fn convert_into(value: u64) -> (r: Self)
        ensures
            r@ == fmod(value as int),
            r == Self::of_value(value as int),
            r.word() < M,
    {
        proof {
            assert((value as int) * (R2 as int) < M as int * r_int()) by (nonlinear_arith)
                requires value < r_int(), R2 < M;
        }
        let w = mont_red_cst((value as u128) * (R2 as u128));
        proof {
            lemma_value_of_conversion(w as int, value as int);
            Self::lemma_word_is(w, value as int);
        }
        AccelBaseElementRisc0 { val: w, t: PhantomData }
    }

    /// Returns a field element from `value`, which must already be a canonical Montgomery word.
    pub fn from_mont(value: u64) -> (r: Self)
        requires
            value < M,
        ensures
            r.word() == value,
            r@ == mont_value(value as int),
    {
        AccelBaseElementRisc0 { val: value, t: PhantomData }
    }

    /// Returns the raw Montgomery word.
    pub fn inner(&self) -> (r: u64)
        ensures
            r == self.word(),
            r < M,
            self@ == mont_value(r as int),
    {
        proof {
            use_type_invariant(self);
        }
        self.val
    }
}

impl<A> AccelBaseElementRisc0<A> {
    /// A canonical word that stands for `fmod(x)` is the element `of_value(x)`.
    proof fn lemma_word_is(w: u64, x: int)
        requires
            w < M,
            mont_value(w as int) == fmod(x),
        ensures
            (AccelBaseElementRisc0 { val: w, t: PhantomData::<A> }) == Self::of_value(x),
    {
        lemma_word_of_value(w as int);
        vstd::arithmetic::div_mod::lemma_mod_twice(x, M as int);
    }

    /// The additive identity.
    pub fn zero() -> (r: Self)
        ensures
            r@ == 0,
            r.word() == 0,
    {
        let r = Self::convert_into(0);
        proof {
            r.lemma_determined();
            lemma_value_of_word(0);
        }
        r
    }

    /// The multiplicative identity.
    pub fn one() -> (r: Self)
        ensures
            r@ == 1,
            r.word() < M,
    {
        let r = Self::convert_into(1);
        proof {
            use_type_invariant(r);
        }
        r
    }


    /// Doubles the element with one shift and one masked subtraction; the result equals
    /// `self + self` word for word.
    pub fn double(self) -> (r: Self)
        ensures
            r@ == fadd(self@, self@),
            r == Self::of_value(fadd(self@, self@)),
    {
        proof {
            use_type_invariant(self);
        }
        let v = self.val;
        let ret = (v as u128) << 1u32;
        let d = ret.wrapping_sub(M as u128);
        let borrow = (d >> 127u32) as u64;
        let mask = 0u64.wrapping_sub(borrow);
        let res = (d as u64).wrapping_add(M & mask);
        assert((v as u128) * 2 < 0xFFFFFFFF00000001u128 ==> res as u128 == (v as u128) * 2)
            by (bit_vector)
            requires
                v < 0xFFFFFFFF00000001u64,
                ret == (v as u128) << 1u32,
                d == ret.wrapping_sub(0xFFFFFFFF00000001u128),
                borrow == (d >> 127u32) as u64,
                mask == 0u64.wrapping_sub(borrow),
                res == (d as u64).wrapping_add(0xFFFFFFFF00000001u64 & mask),
        ;
        assert((v as u128) * 2 >= 0xFFFFFFFF00000001u128 ==> res as u128 + 0xFFFFFFFF00000001u128
            == (v as u128) * 2) by (bit_vector)
            requires
                v < 0xFFFFFFFF00000001u64,
                ret == (v as u128) << 1u32,
                d == ret.wrapping_sub(0xFFFFFFFF00000001u128),
                borrow == (d >> 127u32) as u64,
                mask == 0u64.wrapping_sub(borrow),
                res == (d as u64).wrapping_add(0xFFFFFFFF00000001u64 & mask),
        ;
        proof {
            lemma_value_add(v as int, v as int);
            if 2 * v >= M {
                lemma_value_shift(2 * v, -1);
            }
            Self::lemma_word_is(res, fadd(self@, self@));
        }
        AccelBaseElementRisc0 { val: res, t: PhantomData }
    }

    /// Squares the element.
    pub fn square(self) -> (r: Self)
        ensures
            r@ == fmul(self@, self@),
    {
        let r = self * self;
        proof {
            Self::lemma_of_value(fmul(self@, self@));
            vstd::arithmetic::div_mod::lemma_mod_twice(self@ * self@, M as int);
        }
        r
    }
}

impl<A> core::ops::Add for AccelBaseElementRisc0<A> {
    type Output = Self;

    /// Computes a + b as a - (M - b), with a masked correction instead of a branch.
    fn add(self, rhs: Self) -> (r: Self) {
        proof {
            use_type_invariant(self);
            use_type_invariant(rhs);
        }
        let (x1, c1) = sub_borrow(self.val, M - rhs.val);
        let adj = 0u32.wrapping_sub(c1 as u32);
        let res = x1.wrapping_sub(adj as u64);
        proof {
            lemma_value_add(self.val as int, rhs.val as int);
            if c1 == 0 {
                lemma_value_shift(self.val + rhs.val, -1);
            }
            Self::lemma_word_is(res, fadd(self@, rhs@));
        }
        AccelBaseElementRisc0 { val: res, t: PhantomData }
    }
}

impl<A> vstd::std_specs::ops::AddSpecImpl for AccelBaseElementRisc0<A> {
    open spec fn obeys_add_spec() -> bool {
        true
    }

    open spec fn add_req(self, rhs: Self) -> bool {
        true
    }

    open spec fn add_spec(self, rhs: Self) -> Self {
        Self::of_value(fadd(self@, rhs@))
    }
}

impl<A> core::ops::Sub for AccelBaseElementRisc0<A> {
    type Output = Self;

    /// Computes a - b with a masked correction by M on borrow.
    fn sub(self, rhs: Self) -> (r: Self) {
        proof {
            use_type_invariant(self);
            use_type_invariant(rhs);
        }
        let (x1, c1) = sub_borrow(self.val, rhs.val);
        let adj = 0u32.wrapping_sub(c1 as u32);
        let res = x1.wrapping_sub(adj as u64);
        proof {
            lemma_value_sub(self.val as int, rhs.val as int);
            if c1 == 1 {
                lemma_value_shift(self.val - rhs.val, 1);
            }
            Self::lemma_word_is(res, fsub(self@, rhs@));
        }
        AccelBaseElementRisc0 { val: res, t: PhantomData }
    }
}

impl<A> vstd::std_specs::ops::SubSpecImpl for AccelBaseElementRisc0<A> {
    open spec fn obeys_sub_spec() -> bool {
        true
    }

    open spec fn sub_req(self, rhs: Self) -> bool {
        true
    }

    open spec fn sub_spec(self, rhs: Self) -> Self {
        Self::of_value(fsub(self@, rhs@))
    }
}

impl<A> core::ops::Mul for AccelBaseElementRisc0<A> {
    type Output = Self;

    /// Montgomery multiplication: the reduction of the 128-bit product of the words.
    fn mul(self, rhs: Self) -> (r: Self) {
        proof {
            use_type_invariant(self);
            use_type_invariant(rhs);
            assert((self.val as int) * (rhs.val as int) < M as int * r_int()) by (nonlinear_arith)
                requires self.val < M, rhs.val < M, M < r_int();
        }
        let w = mont_red_cst((self.val as u128) * (rhs.val as u128));
        proof {
            lemma_value_of_product(w as int, self.val as int, rhs.val as int);
            Self::lemma_word_is(w, fmul(self@, rhs@));
        }
        AccelBaseElementRisc0 { val: w, t: PhantomData }
    }
}

impl<A> vstd::std_specs::ops::MulSpecImpl for AccelBaseElementRisc0<A> {
    open spec fn obeys_mul_spec() -> bool {
        true
    }

    open spec fn mul_req(self, rhs: Self) -> bool {
        true
    }

    open spec fn mul_spec(self, rhs: Self) -> Self {
        Self::of_value(fmul(self@, rhs@))
    }
}

impl<A> core::ops::Neg for AccelBaseElementRisc0<A> {
    type Output = Self;

    /// Computes ZERO - a.
    fn neg(self) -> (r: Self) {
        Self::zero() - self
    }
}

impl<A> vstd::std_specs::ops::NegSpecImpl for AccelBaseElementRisc0<A> {
    open spec fn obeys_neg_spec() -> bool {
        true
    }

    open spec fn neg_req(self) -> bool {
        true
    }

    open spec fn neg_spec(self) -> Self {
        Self::of_value(fsub(0, self@))
    }
}

impl<A> AccelBaseElementRisc0<A> {
    /// Computes the 7th power with the fixed chain x^2, x^4, x^3 = x^2 * x, x^3 * x^4. This is
    /// the Rescue-Prime S-box over this field.
    pub fn exp7(self) -> (r: Self)
        ensures
            r@ == fpow(self@, 7),
    {
        proof {
            use_type_invariant(self);
            self.lemma_determined();
            lemma_fpow_succ(self@, 0);
            lemma_fpow_add(self@, 1, 1);
            lemma_fpow_add(self@, 2, 2);
            lemma_fpow_add(self@, 2, 1);
            lemma_fpow_add(self@, 3, 4);
        }
        let x2 = self.square();
        let x4 = x2.square();
        let x3 = x2 * self;
        let r = x3 * x4;
        proof {
            Self::lemma_of_value(fmul(x2@, self@));
            Self::lemma_of_value(fmul(x3@, x4@));
            vstd::arithmetic::div_mod::lemma_mod_twice(x2@ * self@, M as int);
            vstd::arithmetic::div_mod::lemma_mod_twice(x3@ * x4@, M as int);
        }
        r
    }

    /// Field multiplication with its value spelled out.
    pub fn times(self, rhs: Self) -> (r: Self)
        ensures
            r@ == fmul(self@, rhs@),
    {
        let r = self * rhs;
        proof {
            Self::lemma_of_value(fmul(self@, rhs@));
            vstd::arithmetic::div_mod::lemma_mod_twice(self@ * rhs@, M as int);
        }
        r
    }

    /// Raises the element to `power` by square-and-multiply, most significant bit first.
    /// 0^0 = 1.
    pub fn exp(self, power: u64) -> (r: Self)
        ensures
            r@ == fpow(self@, power as nat),
    {
        proof {
            use_type_invariant(self);
            self.lemma_determined();
        }
        proof {
            lemma_fpow_zero(self@);
        }
        if power == 0 {
            return Self::one();
        }
        let mut acc = Self::one();
        let lz = power.leading_zeros();
        let bit_length: u32 = 64 - lz;
        proof {
            vstd::std_specs::bits::axiom_u64_leading_zeros(power);
            vstd::arithmetic::power2::lemma2_to64();
            vstd::arithmetic::power2::lemma2_to64_rest();
            if bit_length < 64 {
                assert(power >> (bit_length as u64) == 0);
                vstd::bits::lemma_u64_shr_is_div(power, bit_length as u64);
            } else {
                vstd::arithmetic::div_mod::lemma_basic_div(power as int, pow2(64) as int);
            }
            vstd::arithmetic::div_mod::lemma_small_mod(1, M as nat);
            assert(power as nat / pow2(bit_length as nat) == 0);
        }
        let mut i: u32 = 0;
        while i < bit_length
            invariant
                1 <= bit_length <= 64,
                i <= bit_length,
                0 <= self@ < M,
                acc@ == fpow(self@, power as nat / pow2((bit_length - i) as nat)),
            decreases bit_length - i,
        {
            let k: u32 = bit_length - 1 - i;
            let prefix: Ghost<nat> = Ghost(power as nat / pow2((k + 1) as nat));
            let next: Ghost<nat> = Ghost(power as nat / pow2(k as nat));
            proof {
                vstd::bits::lemma_u64_shr_is_div(power, k as u64);
                vstd::arithmetic::power2::lemma_pow2_unfold((k + 1) as nat);
                vstd::arithmetic::power2::lemma_pow2_pos(k as nat);
                vstd::arithmetic::div_mod::lemma_div_denominator(power as int, pow2(k as nat) as int, 2);
                assert(next@ == 2 * prefix@ + next@ % 2) by {
                    vstd::arithmetic::div_mod::lemma_fundamental_div_mod(next@ as int, 2);
                }
                let kk = k as u64;
                assert(((power & (1u64 << kk)) != 0) == ((power >> kk) % 2 == 1)) by (bit_vector)
                    requires kk < 64;
                lemma_fpow_add(self@, prefix@, prefix@);
            }
            acc = acc.times(acc);
            if power & (1u64 << k) != 0 {
                proof {
                    lemma_fpow_succ(self@, 2 * prefix@);
                }
                acc = acc.times(self);
            }
            i += 1;
        }
        proof {
            vstd::arithmetic::div_mod::lemma_div_basics(power as int);
        }
        acc
    }
}

/// Raising x^e1 to 2^n and multiplying by x^e2 gives x^(e1 * 2^n + e2).
proof fn lemma_chain_step(x: int, e1: nat, n: nat, e2: nat)
    ensures
        fmul(fpow(fpow(x, e1), pow2(n)), fpow(x, e2)) == fpow(x, e1 * pow2(n) + e2),
{
    lemma_fpow_fpow(x, e1, pow2(n));
    lemma_fpow_add(x, e1 * pow2(n), e2);
}

/// Squaring x^e and multiplying by x gives x^(2e + 1).
proof fn lemma_square_step(x: int, e: nat)
    requires
        0 <= x < M,
    ensures
        fmul(fmul(fpow(x, e), fpow(x, e)), x) == fpow(x, 2 * e + 1),
{
    lemma_fpow_add(x, e, e);
    lemma_fpow_succ(x, e + e);
}

/// Squares `base` N times and multiplies the result by `tail`.
fn exp_acc<const N: usize, A>(
    base: AccelBaseElementRisc0<A>,
    tail: AccelBaseElementRisc0<A>,
) -> (r: AccelBaseElementRisc0<A>)
    ensures
        r@ == fmul(fpow(base@, pow2(N as nat)), tail@),
{
    proof {
        use_type_invariant(base);
        base.lemma_determined();
        lemma_fpow_succ(base@, 0);
        vstd::arithmetic::power2::lemma2_to64();
    }
    let mut result = base;
    let mut i: usize = 0;
    while i < N
        invariant
            i <= N,
            result@ == fpow(base@, pow2(i as nat)),
        decreases N - i,
    {
        proof {
            lemma_fpow_add(base@, pow2(i as nat), pow2(i as nat));
            vstd::arithmetic::power2::lemma_pow2_unfold((i + 1) as nat);
        }
        result = result.square();
        i += 1;
    }
    result.times(tail)
}

impl<A> AccelBaseElementRisc0<A> {
    /// Computes self^(M - 2) with a fixed chain of 72 multiplications that follows the runs of
    /// ones in M - 2 = 0b1111111111111111111111111111111011111111111111111111111111111111.
    /// For a nonzero element this is its inverse; zero maps to zero.
    pub fn inv(self) -> (r: Self)
        ensures
            r@ == fpow(self@, (M - 2) as nat),
            r == Self::of_value(fpow(self@, (M - 2) as nat)),
    {
        let ghost x = self@;
        proof {
            use_type_invariant(self);
            self.lemma_determined();
            lemma_fpow_succ(x, 0);
            vstd::arithmetic::power2::lemma2_to64();
            vstd::arithmetic::power2::lemma2_to64_rest();
            lemma_square_step(x, 1);
            lemma_square_step(x, 3);
            lemma_chain_step(x, 7, 3, 7);
            lemma_chain_step(x, 63, 6, 63);
            lemma_chain_step(x, 4095, 12, 4095);
            lemma_chain_step(x, 0xFF_FFFF, 6, 63);
            lemma_square_step(x, 0x3FFF_FFFF);
            lemma_chain_step(x, 0x7FFF_FFFF, 32, 0x7FFF_FFFF);
            lemma_square_step(x, 0x7FFF_FFFF_7FFF_FFFF);
        }
        // base^11
        let t2 = self.square().times(self);
        // base^111
        let t3 = t2.square().times(self);
        // base^111111 (6 ones)
        let t6 = exp_acc::<3, A>(t3, t3);
        // base^111111111111 (12 ones)
        let t12 = exp_acc::<6, A>(t6, t6);
        // base^111111111111111111111111 (24 ones)
        let t24 = exp_acc::<12, A>(t12, t12);
        // base^1111111111111111111111111111111 (31 ones)
        let t30 = exp_acc::<6, A>(t24, t6);
        let t31 = t30.square().times(self);
        // base^111111111111111111111111111111101111111111111111111111111111111
        let t63 = exp_acc::<32, A>(t31, t31);
        // base^1111111111111111111111111111111011111111111111111111111111111111
        let r = t63.square().times(self);
        proof {
            use_type_invariant(r);
            r.lemma_determined();
        }
        r
    }
}

impl<A> AccelBaseElementRisc0<A> {
    /// Field addition with its value spelled out.
    pub fn plus(self, rhs: Self) -> (r: Self)
        ensures
            r@ == fadd(self@, rhs@),
            r == Self::of_value(fadd(self@, rhs@)),
    {
        let r = self + rhs;
        proof {
            Self::lemma_of_value(fadd(self@, rhs@));
            lemma_fmod_ops(self@ + rhs@, 0);
        }
        r
    }

    /// Field subtraction with its value spelled out.
    pub fn minus(self, rhs: Self) -> (r: Self)
        ensures
            r@ == fsub(self@, rhs@),
            r == Self::of_value(fsub(self@, rhs@)),
    {
        let r = self - rhs;
        proof {
            Self::lemma_of_value(fsub(self@, rhs@));
            lemma_fmod_ops(self@ - rhs@, 0);
        }
        r
    }

    /// Returns the canonical integer in [0, M) that this element stands for.
    pub fn as_int(&self) -> (r: u64)
        ensures
            r == self@,
    {
        proof {
            use_type_invariant(self);
            assert(self.val < M as int * r_int());
        }
        let r = mont_red_cst(self.val as u128);
        proof {
            lemma_reduction_is_value(r as int, self.val as int);
        }
        r
    }

    /// The conjugate of a base field element is the element itself.
    pub fn conjugate(&self) -> (r: Self)
        ensures
            r == *self,
    {
        proof {
            use_type_invariant(self);
        }
        Self::from_mont(self.val)
    }

    /// The generator of the multiplicative group, 7.
    pub fn generator() -> (r: Self)
        ensures
            r@ == 7,
    {
        Self::convert_into(7)
    }

    /// The designated root of unity of order 2^32.
    pub fn two_adic_root_of_unity() -> (r: Self)
        ensures
            r@ == G,
    {
        Self::convert_into(G)
    }

    /// The field modulus.
    pub fn modulus() -> (r: u64)
        ensures
            r == M,
    {
        M
    }

    /// The modulus as 8 little-endian bytes.
    pub fn get_modulus_le_bytes() -> (r: Vec<u8>)
        ensures
            r@ == crate::bytes::le_bytes(M as nat, 8),
    {
        crate::bytes::u64_to_le_bytes(M)
    }
}

impl<A> PartialEq for AccelBaseElementRisc0<A> {
    /// Compares the raw words in constant time.
    fn eq(&self, other: &Self) -> (r: bool) {
        equals(self.val, other.val) == 0xFFFF_FFFF_FFFF_FFFFu64
    }
}

impl<A> vstd::std_specs::cmp::PartialEqSpecImpl for AccelBaseElementRisc0<A> {
    open spec fn obeys_eq_spec() -> bool {
        true
    }

    open spec fn eq_spec(&self, other: &Self) -> bool {
        self.word() == other.word()
    }
}

impl<A> Eq for AccelBaseElementRisc0<A> {

}

impl<A> core::ops::Div for AccelBaseElementRisc0<A> {
    type Output = Self;

    /// Computes self * rhs^(M - 2). Dividing by zero gives zero; callers exclude it.
    fn div(self, rhs: Self) -> (r: Self) {
        self * rhs.inv()
    }
}

impl<A> vstd::std_specs::ops::DivSpecImpl for AccelBaseElementRisc0<A> {
    open spec fn obeys_div_spec() -> bool {
        true
    }

    open spec fn div_req(self, rhs: Self) -> bool {
        true
    }

    open spec fn div_spec(self, rhs: Self) -> Self {
        Self::of_value(fmul(self@, fpow(rhs@, (M - 2) as nat)))
    }
}

impl<A> PartialOrd for AccelBaseElementRisc0<A> {
    /// Orders elements by their raw Montgomery words, not by the integers they stand for.
    fn partial_cmp(&self, other: &Self) -> (r: Option<core::cmp::Ordering>) {
        if self.val < other.val {
            Some(core::cmp::Ordering::Less)
        } else if self.val == other.val {
            Some(core::cmp::Ordering::Equal)
        } else {
            Some(core::cmp::Ordering::Greater)
        }
    }
}

impl<A> vstd::std_specs::cmp::PartialOrdSpecImpl for AccelBaseElementRisc0<A> {
    open spec fn obeys_partial_cmp_spec() -> bool {
        true
    }

    open spec fn partial_cmp_spec(&self, other: &Self) -> Option<core::cmp::Ordering> {
        if self.word() < other.word() {
            Some(core::cmp::Ordering::Less)
        } else if self.word() == other.word() {
            Some(core::cmp::Ordering::Equal)
        } else {
            Some(core::cmp::Ordering::Greater)
        }
    }
}

impl<A> Default for AccelBaseElementRisc0<A> {
    /// The zero element.
    fn default() -> (r: Self)
        ensures
            r@ == 0,
    {
        Self::zero()
    }
}

} // verus!
