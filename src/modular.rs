//! Montgomery reduction over the modulus M = 2^64 - 2^32 + 1 with R = 2^64.
use vstd::arithmetic::div_mod::*;
use vstd::arithmetic::power::{lemma_pow0, lemma_pow1, lemma_pow_adds, lemma_pow_mod_noop, lemma_pow_multiplies, pow};
use vstd::prelude::*;

verus! {

/// Field modulus = 2^64 - 2^32 + 1.
pub const M: u64 = 0xFFFFFFFF00000001;

/// 2^128 mod M; used to bring integers into Montgomery form. Since R^3 = 1 (mod M) it is also
/// the inverse of R = 2^64 modulo M.
pub const R2: u64 = 0xFFFFFFFE00000001;

/// R = 2^64 as a mathematical integer.
pub open spec fn r_int() -> int {
    0x1_0000_0000_0000_0000
}

/// The field value, in [0, M), that the Montgomery word `v` stands for: v * R^-1 mod M.
pub open spec fn mont_value(v: int) -> int {
    (v * R2) % (M as int)
}

/// The canonical Montgomery word of the field value `x`: x * R mod M.
pub open spec fn mont_word(x: int) -> int {
    (x * r_int()) % (M as int)
}

/// R * R2 = 1 (mod M), and R2^3 = 1 (mod M).
pub proof fn lemma_r2_facts()
    ensures
        (r_int() * R2) % (M as int) == 1,
        (R2 * R2 * R2) % (M as int) == 1,
        r_int() % (M as int) == 0xFFFF_FFFF,
{
    assert((0x1_0000_0000_0000_0000int * 0xFFFFFFFE00000001int) % 0xFFFFFFFF00000001int == 1);
    assert((0xFFFFFFFE00000001int * 0xFFFFFFFE00000001int * 0xFFFFFFFE00000001int)
        % 0xFFFFFFFF00000001int == 1);
}

/// The high word of `q * M`, where `q` is the low word times M^-1 (mod 2^64), written with shifts
/// and subtractions only.
proof fn lemma_reduce_step(xl: u64, s: u128, a: u64, e: u64, b: u64)
    requires
        s == xl as u128 + (xl << 32u64) as u128,
        a == s as u64,
        e == (s >> 64u128) as u64,
        b == ((a - (a >> 32u64)) as u64 - e) as u64,
    ensures
        a as int * M as int == b as int * r_int() + xl as int,
{
    assert(((a as u128) << 64u128) + (a as u128) == ((b as u128) << 64u128) + (xl as u128) + ((
    a as u128) << 32u128)) by (bit_vector)
        requires
            s == xl as u128 + (xl << 32u64) as u128,
            a == s as u64,
            e == (s >> 64u128) as u64,
            b == ((a - (a >> 32u64)) as u64 - e) as u64,
    ;
    assert(((b as u128) << 64u128) == (b as u128) * 0x1_0000_0000_0000_0000u128) by (bit_vector);
    assert(((a as u128) << 64u128) == (a as u128) * 0x1_0000_0000_0000_0000u128) by (bit_vector);
    assert(((a as u128) << 32u128) == (a as u128) * 0x1_0000_0000u128) by (bit_vector);
}

/// Montgomery reduction in constant time: returns a word `r` with r * R = x (mod M), using only
/// shifts, additions and subtractions. The result is canonical (below M) when x < M * R.
pub fn mont_red_cst(x: u128) -> (r: u64)
    ensures
        (r as int * r_int()) % (M as int) == (x as int) % (M as int),
        x < M as int * r_int() ==> r < M,
{
    let xl = x as u64;
    let xh = (x >> 64u32) as u64;
    let s = (xl as u128) + ((xl << 32u32) as u128);
    let a = s as u64;
    let e = (s >> 64u32) as u64;
    let b = a.wrapping_sub(a >> 32u32).wrapping_sub(e);
    let d = (xh as u128) + 0x1_0000_0000_0000_0000u128 - (b as u128);
    let r = d as u64;
    assert((d >> 64u32) <= 1) by (bit_vector)
        requires d == (xh as u128) + 0x1_0000_0000_0000_0000u128 - (b as u128);
    let c = 1u64 - (d >> 64u32) as u64;
    let res = r.wrapping_sub(0u32.wrapping_sub(c as u32) as u64);
    proof {
        assert(x as int == xh as int * r_int() + xl as int) by (bit_vector)
            requires xl == x as u64, xh == (x >> 64u32) as u64;
        assert(b == ((a - (a >> 32u64)) as u64 - e) as u64) by (bit_vector)
            requires b == a.wrapping_sub(a >> 32u32).wrapping_sub(e);
        lemma_reduce_step(xl, s, a, e, b);
        assert(b < M) by (nonlinear_arith)
            requires a as int * M as int == b as int * r_int() + xl as int, a < r_int(), xl >= 0;
        assert(xh >= b ==> res == xh - b) by (bit_vector)
            requires
                d == (xh as u128) + 0x1_0000_0000_0000_0000u128 - (b as u128),
                r == d as u64,
                c == 1u64 - (d >> 64u32) as u64,
                res == r.wrapping_sub(0u32.wrapping_sub(c as u32) as u64);
        assert(xh < b ==> res as u128 == xh as u128 + 0xFFFFFFFF00000001u128 - b as u128)
            by (bit_vector)
            requires
                d == (xh as u128) + 0x1_0000_0000_0000_0000u128 - (b as u128),
                r == d as u64,
                c == 1u64 - (d >> 64u32) as u64,
                res == r.wrapping_sub(0u32.wrapping_sub(c as u32) as u64),
                b < 0xFFFFFFFF00000001u64;
        let q = a as int;
        let mi = M as int;
        if xh >= b {
            assert(res == xh - b);
            assert(res as int * r_int() == x as int - q * mi) by (nonlinear_arith)
                requires
                    x as int == xh as int * r_int() + xl as int,
                    q * mi == b as int * r_int() + xl as int,
                    res as int == xh as int - b as int;
            lemma_mod_multiples_vanish(-q, x as int, mi);
            assert((mi * (-q) + x as int) == x as int - q * mi) by (nonlinear_arith);
        } else {
            assert(res as int == xh as int - b as int + mi);
            assert(res as int * r_int() == x as int + (r_int() - q) * mi) by (nonlinear_arith)
                requires
                    x as int == xh as int * r_int() + xl as int,
                    q * mi == b as int * r_int() + xl as int,
                    res as int == xh as int - b as int + mi;
            lemma_mod_multiples_vanish(r_int() - q, x as int, mi);
            assert((mi * (r_int() - q) + x as int) == x as int + (r_int() - q) * mi)
                by (nonlinear_arith);
        }
        if x < M as int * r_int() {
            assert(xh < M) by (nonlinear_arith)
                requires
                    x as int == xh as int * r_int() + xl as int,
                    x < M as int * r_int(),
                    xl >= 0;
        }
    }
    res
}

/// Reduction of an integer to [0, M).
pub open spec fn fmod(x: int) -> int {
    x % (M as int)
}

/// Field addition on values in [0, M).
pub open spec fn fadd(x: int, y: int) -> int {
    fmod(x + y)
}

/// Field subtraction on values in [0, M).
pub open spec fn fsub(x: int, y: int) -> int {
    fmod(x - y)
}

/// Field multiplication on values in [0, M).
pub open spec fn fmul(x: int, y: int) -> int {
    fmod(x * y)
}

/// A Montgomery word is determined by the value it stands for: the canonical word of
/// `mont_value(v)` is `v` itself.
pub proof fn lemma_word_of_value(v: int)
    requires
        0 <= v < M,
    ensures
        mont_word(mont_value(v)) == v,
        0 <= mont_value(v) < M,
{
    let m = M as int;
    lemma_r2_facts();
    lemma_mul_mod_noop_left(v * R2, r_int(), m);
    assert(v * R2 * r_int() == v * (r_int() * R2)) by (nonlinear_arith);
    lemma_mul_mod_noop_right(v, r_int() * R2, m);
    lemma_small_mod(v as nat, m as nat);
    lemma_mod_bound(v * R2, m);
}

/// Two canonical words that stand for the same value are equal.
pub proof fn lemma_value_injective(v: int, w: int)
    requires
        0 <= v < M,
        0 <= w < M,
        mont_value(v) == mont_value(w),
    ensures
        v == w,
{
    lemma_word_of_value(v);
    lemma_word_of_value(w);
}

/// The canonical word of a value is below M and stands for that value.
pub proof fn lemma_value_of_word(x: int)
    requires
        0 <= x < M,
    ensures
        0 <= mont_word(x) < M,
        mont_value(mont_word(x)) == x,
{
    let m = M as int;
    lemma_r2_facts();
    lemma_mod_bound(x * r_int(), m);
    lemma_mul_mod_noop_left(x * r_int(), R2 as int, m);
    assert(x * r_int() * R2 == x * (r_int() * R2)) by (nonlinear_arith);
    lemma_mul_mod_noop_right(x, r_int() * R2, m);
    lemma_small_mod(x as nat, m as nat);
}

/// The value of a sum of words is the field sum of their values.
pub proof fn lemma_value_add(v: int, w: int)
    ensures
        mont_value(v + w) == fadd(mont_value(v), mont_value(w)),
{
    let m = M as int;
    assert((v + w) * R2 == v * R2 + w * R2) by (nonlinear_arith);
    lemma_add_mod_noop(v * R2, w * R2, m);
}

/// The value of a difference of words is the field difference of their values.
pub proof fn lemma_value_sub(v: int, w: int)
    ensures
        mont_value(v - w) == fsub(mont_value(v), mont_value(w)),
{
    let m = M as int;
    assert((v - w) * R2 == v * R2 - w * R2) by (nonlinear_arith);
    lemma_sub_mod_noop(v * R2, w * R2, m);
}

/// Adding a multiple of M to a word keeps its value.
pub proof fn lemma_value_shift(v: int, k: int)
    ensures
        mont_value(v + k * M) == mont_value(v),
{
    let m = M as int;
    assert((v + k * m) * R2 == m * (k * R2) + v * R2) by (nonlinear_arith);
    lemma_mod_multiples_vanish(k * R2, v * R2, m);
}

/// A word `r` with r * R = x (mod M) stands for x * R^-2.
pub proof fn lemma_value_of_reduction(r: int, x: int)
    requires
        (r * r_int()) % (M as int) == x % (M as int),
    ensures
        mont_value(r) == (x * R2 * R2) % (M as int),
{
    let m = M as int;
    let k = R2 as int;
    lemma_r2_facts();
    // r * K = r * K * (R * K) = (r * R) * (K * K)
    lemma_mul_mod_noop_right(r * k, r_int() * k, m);
    assert(r * k * (r_int() * k) == (r * r_int()) * (k * k)) by (nonlinear_arith);
    lemma_mul_mod_noop_left(r * r_int(), k * k, m);
    lemma_mul_mod_noop_left(x, k * k, m);
    assert(x * (k * k) == x * k * k) by (nonlinear_arith);
}

/// The value of the reduction of a product of words is the field product of their values.
pub proof fn lemma_value_of_product(r: int, v: int, w: int)
    requires
        (r * r_int()) % (M as int) == (v * w) % (M as int),
    ensures
        mont_value(r) == fmul(mont_value(v), mont_value(w)),
{
    let m = M as int;
    let k = R2 as int;
    lemma_value_of_reduction(r, v * w);
    assert(v * w * k * k == (v * k) * (w * k)) by (nonlinear_arith);
    lemma_mul_mod_noop(v * k, w * k, m);
}

/// The value of the reduction of x * R2 is x mod M.
pub proof fn lemma_value_of_conversion(r: int, x: int)
    requires
        (r * r_int()) % (M as int) == (x * R2) % (M as int),
    ensures
        mont_value(r) == fmod(x),
{
    let m = M as int;
    let k = R2 as int;
    lemma_r2_facts();
    lemma_value_of_reduction(r, x * k);
    assert(x * k * k * k == x * (k * k * k)) by (nonlinear_arith);
    lemma_mul_mod_noop_right(x, k * k * k, m);
}

/// Montgomery reduction in variable time: subtracts q * M, with q the low word times M^-1
/// (mod 2^64), and shifts; the branch depends on the operand. Same result as `mont_red_cst`.
pub fn mont_red_var(x: u128) -> (r: u64)
    ensures
        (r as int * r_int()) % (M as int) == (x as int) % (M as int),
        x < M as int * r_int() ==> r < M,
{
    // M^-1 mod 2^64
    let nprime: u64 = 4294967297;
    let xl = x as u64;
    let q = xl.wrapping_mul(nprime);
    let m = (q as u128) * (M as u128);
    let ghost xh = (x >> 64u32) as u64;
    let ghost s = ((xl as u128) + ((xl << 32u32) as u128)) as u128;
    let ghost e = (s >> 64u32) as u64;
    let ghost b = q.wrapping_sub(q >> 32u32).wrapping_sub(e);
    proof {
        assert(q == s as u64) by (bit_vector)
            requires
                q == xl.wrapping_mul(4294967297u64),
                s == (xl as u128) + ((xl << 32u32) as u128),
        ;
        assert(b == ((q - (q >> 32u64)) as u64 - e) as u64) by (bit_vector)
            requires b == q.wrapping_sub(q >> 32u32).wrapping_sub(e);
        lemma_reduce_step(xl, s, q, e, b);
        assert(x as int == xh as int * r_int() + xl as int) by (bit_vector)
            requires xl == x as u64, xh == (x >> 64u32) as u64;
        assert(b < M) by (nonlinear_arith)
            requires q as int * M as int == b as int * r_int() + xl as int, q < r_int(), xl >= 0;
    }
    let res = if x < m {
        let d = (m - x) >> 64u32;
        proof {
            assert((m - x) as u128 >> 64u32 == ((m - x) as u128) / 0x1_0000_0000_0000_0000u128)
                by (bit_vector);
            assert(d == b - xh) by (nonlinear_arith)
                requires
                    d == (m - x) / r_int(),
                    m == b * r_int() + xl,
                    x == xh * r_int() + xl,
                    xh < b,
            ;
        }
        ((M as u128) - d) as u64
    } else {
        let d = (x - m) >> 64u32;
        proof {
            assert((x - m) as u128 >> 64u32 == ((x - m) as u128) / 0x1_0000_0000_0000_0000u128)
                by (bit_vector);
            assert(d == xh - b) by (nonlinear_arith)
                requires
                    d == (x - m) / r_int(),
                    m == b * r_int() + xl,
                    x == xh * r_int() + xl,
                    xh >= b,
            ;
        }
        d as u64
    };
    proof {
        let mi = M as int;
        let qi = q as int;
        if x >= m {
            assert(res as int * r_int() == x as int - qi * mi) by (nonlinear_arith)
                requires
                    x as int == xh as int * r_int() + xl as int,
                    qi * mi == b as int * r_int() + xl as int,
                    res as int == xh as int - b as int;
            lemma_mod_multiples_vanish(-qi, x as int, mi);
            assert((mi * (-qi) + x as int) == x as int - qi * mi) by (nonlinear_arith);
        } else {
            assert(res as int * r_int() == x as int + (r_int() - qi) * mi) by (nonlinear_arith)
                requires
                    x as int == xh as int * r_int() + xl as int,
                    qi * mi == b as int * r_int() + xl as int,
                    res as int == xh as int - b as int + mi;
            lemma_mod_multiples_vanish(r_int() - qi, x as int, mi);
            assert((mi * (r_int() - qi) + x as int) == x as int + (r_int() - qi) * mi)
                by (nonlinear_arith);
        }
        if x < M as int * r_int() {
            assert(xh < M) by (nonlinear_arith)
                requires
                    x as int == xh as int * r_int() + xl as int,
                    x < M as int * r_int(),
                    xl >= 0;
        }
    }
    res
}

/// Subtraction with borrow: the wrapped difference and 1 when `a < b`, else 0. Computed without
/// a branch.
pub fn sub_borrow(a: u64, b: u64) -> (r: (u64, u64))
    ensures
        r.1 == (if a < b { 1u64 } else { 0u64 }),
        r.0 as int == (if a < b { a - b + r_int() } else { a - b }),
{
    let d = (a as u128) + 0x1_0000_0000_0000_0000u128 - (b as u128);
    let lo = d as u64;
    let hi = (d >> 64u32) as u64;
    assert(hi <= 1 && (hi == 0 <==> a < b) && (hi == 0 ==> lo as u128 == d) && (hi == 1 ==> lo
        as u128 + 0x1_0000_0000_0000_0000u128 == d)) by (bit_vector)
        requires
            d == (a as u128) + 0x1_0000_0000_0000_0000u128 - (b as u128),
            lo == d as u64,
            hi == (d >> 64u32) as u64,
    ;
    (lo, 1u64 - hi)
}

/// Field exponentiation on values in [0, M).
pub open spec fn fpow(x: int, e: nat) -> int {
    fmod(pow(x, e))
}

/// x^0 = 1 in the field.
pub proof fn lemma_fpow_zero(x: int)
    ensures
        fpow(x, 0) == 1,
{
    lemma_pow0(x);
    lemma_small_mod(1, M as nat);
}

/// x^e1 * x^e2 = x^(e1 + e2) in the field.
pub proof fn lemma_fpow_add(x: int, e1: nat, e2: nat)
    ensures
        fmul(fpow(x, e1), fpow(x, e2)) == fpow(x, e1 + e2),
{
    lemma_pow_adds(x, e1, e2);
    lemma_mul_mod_noop(pow(x, e1), pow(x, e2), M as int);
}

/// x^e * x = x^(e + 1) in the field, for a value x in [0, M).
pub proof fn lemma_fpow_succ(x: int, e: nat)
    requires
        0 <= x < M,
    ensures
        fmul(fpow(x, e), x) == fpow(x, e + 1),
        fpow(x, 1) == x,
{
    lemma_small_mod(x as nat, M as nat);
    lemma_pow1(x);
    lemma_fpow_add(x, e, 1);
}

/// (x^e)^k = x^(e * k) in the field.
pub proof fn lemma_fpow_fpow(x: int, e: nat, k: nat)
    ensures
        fpow(fpow(x, e), k) == fpow(x, e * k),
{
    lemma_pow_mod_noop(pow(x, e), k, M as int);
    lemma_pow_multiplies(x, e, k);
}

/// Constant-time test of equality between two raw words: all ones when they are equal, zero
/// otherwise.
pub fn equals(lhs: u64, rhs: u64) -> (r: u64)
    ensures
        r == (if lhs == rhs { 0xFFFF_FFFF_FFFF_FFFFu64 } else { 0u64 }),
{
    let t = lhs ^ rhs;
    // the top bit of `t | -t` is set exactly when `t` is nonzero
    let nonzero = (t | 0u64.wrapping_sub(t)) >> 63u64;
    let r = !0u64.wrapping_sub(nonzero);
    assert(r == (if lhs == rhs { 0xFFFF_FFFF_FFFF_FFFFu64 } else { 0u64 })) by (bit_vector)
        requires
            t == lhs ^ rhs,
            nonzero == (t | 0u64.wrapping_sub(t)) >> 63u64,
            r == !0u64.wrapping_sub(nonzero),
    ;
    r
}

/// A canonical word `r` with r * R = v (mod M) is the value that `v` stands for.
pub proof fn lemma_reduction_is_value(r: int, v: int)
    requires
        0 <= r < M,
        (r * r_int()) % (M as int) == v % (M as int),
    ensures
        r == mont_value(v),
{
    let m = M as int;
    lemma_r2_facts();
    lemma_mul_mod_noop_left(r * r_int(), R2 as int, m);
    lemma_mul_mod_noop_left(v, R2 as int, m);
    assert(r * r_int() * R2 == r * (r_int() * R2)) by (nonlinear_arith);
    lemma_mul_mod_noop_right(r, r_int() * R2, m);
    lemma_small_mod(r as nat, m as nat);
}

/// Field operations commute with reduction mod M.
pub proof fn lemma_fmod_ops(x: int, y: int)
    ensures
        fadd(fmod(x), fmod(y)) == fmod(x + y),
        fsub(fmod(x), fmod(y)) == fmod(x - y),
        fmul(fmod(x), fmod(y)) == fmod(x * y),
        fmod(fmod(x)) == fmod(x),
        0 <= fmod(x) < M,
{
    let m = M as int;
    lemma_add_mod_noop(x, y, m);
    lemma_sub_mod_noop(x, y, m);
    lemma_mul_mod_noop(x, y, m);
    lemma_mod_twice(x, m);
    lemma_mod_bound(x, m);
}

/// Two reductions in a row divide by R^2, which is multiplying by R, since R^3 = 1 (mod M): the
/// result is the Montgomery form of x.
pub proof fn lemma_double_reduction(w1: int, w2: int, x: int)
    requires
        (w1 * r_int()) % (M as int) == x % (M as int),
        (w2 * r_int()) % (M as int) == w1 % (M as int),
    ensures
        mont_value(w2) == fmod(x),
{
    let m = M as int;
    let k = R2 as int;
    lemma_r2_facts();
    lemma_value_of_reduction(w2, w1);
    // w1 * K = w1 * K * (R * K) = (w1 * R) * K * K = x * K * K
    lemma_mul_mod_noop_right(w1 * k, r_int() * k, m);
    assert(w1 * k * (r_int() * k) == (w1 * r_int()) * (k * k)) by (nonlinear_arith);
    lemma_mul_mod_noop_left(w1 * r_int(), k * k, m);
    lemma_mul_mod_noop_left(x, k * k, m);
    // w1 * K * K = x * K^3 = x
    lemma_mul_mod_noop_left(w1 * k, k, m);
    lemma_mul_mod_noop_left(x * (k * k), k, m);
    assert(w1 * k * k == (w1 * k) * k);
    assert(x * (k * k) * k == x * (k * k * k)) by (nonlinear_arith);
    lemma_mul_mod_noop_right(x, k * k * k, m);
    assert((w1 * r_int()) * (k * k) == w1 * r_int() * (k * k));
}

} // verus!
