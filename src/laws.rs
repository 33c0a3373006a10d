//! Algebraic laws of the field, its codec and its hint caches, stated over the values that the
//! operations' contracts speak of.
use crate::bytes::{le_bytes, le_value, lemma_le_round_trip, lemma_pow256_8};
use crate::convert::element_from_bytes;
use crate::element::{quad_mul_0, quad_mul_1, AccelBaseElementRisc0};
use crate::hints::{consumed_inverse, HintError, InverseHints};
use crate::modular::{fadd, fmod, fmul, fpow, lemma_fmod_ops, lemma_fpow_zero, M};
use vstd::prelude::*;

verus! {

/// The element that `a + b` returns.
pub open spec fn sum<A>(a: AccelBaseElementRisc0<A>, b: AccelBaseElementRisc0<A>) -> AccelBaseElementRisc0<A> {
    AccelBaseElementRisc0::of_value(fadd(a@, b@))
}

/// The element that `a * b` returns.
pub open spec fn product<A>(a: AccelBaseElementRisc0<A>, b: AccelBaseElementRisc0<A>) -> AccelBaseElementRisc0<A> {
    AccelBaseElementRisc0::of_value(fmul(a@, b@))
}

/// Addition is commutative: a + b == b + a.
pub proof fn lemma_add_commutative<A>(a: AccelBaseElementRisc0<A>, b: AccelBaseElementRisc0<A>)
    ensures
        sum(a, b) == sum(b, a),
{
    assert(a@ + b@ == b@ + a@);
}

/// Addition is associative: (a + b) + c == a + (b + c).
pub proof fn lemma_add_associative<A>(
    a: AccelBaseElementRisc0<A>,
    b: AccelBaseElementRisc0<A>,
    c: AccelBaseElementRisc0<A>,
)
    ensures
        sum(sum(a, b), c) == sum(a, sum(b, c)),
{
    a.lemma_view_range();
    b.lemma_view_range();
    c.lemma_view_range();
    AccelBaseElementRisc0::<A>::lemma_of_value(fadd(a@, b@));
    AccelBaseElementRisc0::<A>::lemma_of_value(fadd(b@, c@));
    lemma_fmod_ops(a@ + b@, c@);
    lemma_fmod_ops(a@, b@ + c@);
    lemma_fmod_ops(c@, 0);
    lemma_fmod_ops(a@, 0);
    assert(a@ + b@ + c@ == a@ + (b@ + c@));
}

/// Multiplication distributes over addition: a * (b + c) == a * b + a * c.
pub proof fn lemma_mul_distributive<A>(
    a: AccelBaseElementRisc0<A>,
    b: AccelBaseElementRisc0<A>,
    c: AccelBaseElementRisc0<A>,
)
    ensures
        product(a, sum(b, c)) == sum(product(a, b), product(a, c)),
{
    a.lemma_view_range();
    b.lemma_view_range();
    c.lemma_view_range();
    AccelBaseElementRisc0::<A>::lemma_of_value(fadd(b@, c@));
    AccelBaseElementRisc0::<A>::lemma_of_value(fmul(a@, b@));
    AccelBaseElementRisc0::<A>::lemma_of_value(fmul(a@, c@));
    lemma_fmod_ops(a@, b@ + c@);
    lemma_fmod_ops(a@, 0);
    lemma_fmod_ops(a@ * b@, a@ * c@);
    assert(a@ * (b@ + c@) == a@ * b@ + a@ * c@) by (nonlinear_arith);
}

/// Zero is the additive identity: a + ZERO == a.
pub proof fn lemma_add_zero<A>(a: AccelBaseElementRisc0<A>, zero: AccelBaseElementRisc0<A>)
    requires
        a.word() < M,
        zero@ == 0,
    ensures
        sum(a, zero) == a,
{
    a.lemma_determined();
    lemma_fmod_ops(a@, 0);
}

/// One is the multiplicative identity: a * ONE == a.
pub proof fn lemma_mul_one<A>(a: AccelBaseElementRisc0<A>, one: AccelBaseElementRisc0<A>)
    requires
        a.word() < M,
        one@ == 1,
    ensures
        product(a, one) == a,
{
    a.lemma_determined();
    lemma_fmod_ops(a@, 0);
}

/// Any element to the power zero is one, zero included: exp(a, 0) == ONE.
pub proof fn lemma_exp_zero<A>(a: AccelBaseElementRisc0<A>)
    ensures
        fpow(a@, 0) == 1,
{
    lemma_fpow_zero(a@);
}

/// The fixed chain of `exp7` and square-and-multiply `exp(a, 7)` give the same element.
pub proof fn lemma_exp7_is_exp<A>(
    a: AccelBaseElementRisc0<A>,
    by_chain: AccelBaseElementRisc0<A>,
    by_exp: AccelBaseElementRisc0<A>,
)
    requires
        by_chain.word() < M,
        by_exp.word() < M,
        by_chain@ == fpow(a@, 7),
        by_exp@ == fpow(a@, 7u64 as nat),
    ensures
        by_chain == by_exp,
{
    AccelBaseElementRisc0::<A>::lemma_eq_iff_value(by_chain, by_exp);
}

/// Serialisation round trip: the 8 bytes written for an element are below M and read back as
/// the same element.
pub proof fn lemma_serialize_round_trip<A>(a: AccelBaseElementRisc0<A>)
    requires
        a.word() < M,
    ensures
        le_bytes(a@ as nat, 8).len() == 8,
        le_value(le_bytes(a@ as nat, 8)) == a@,
        le_value(le_bytes(a@ as nat, 8)) < M,
        element_from_bytes::<A>(le_bytes(a@ as nat, 8)) == Ok::<
            AccelBaseElementRisc0<A>,
            crate::bytes::DeserializationError,
        >(a),
{
    a.lemma_determined();
    lemma_le_round_trip(a@ as nat, 8);
    lemma_pow256_8();
    vstd::arithmetic::div_mod::lemma_small_mod(a@ as nat, 0x1_0000_0000_0000_0000);
}

/// A cached inverse that inversion with hints returns has passed its check: it times the
/// element is one.
pub proof fn lemma_consumed_hint_is_inverse<A>(a: AccelBaseElementRisc0<A>, h: InverseHints)
    requires
        h.base_map().contains_key(a.word()),
        consumed_inverse(a, h) is Ok,
    ensures
        fmul(consumed_inverse(a, h)->Ok_0@, a@) == 1,
{
    let c = h.base_map()[a.word()];
    AccelBaseElementRisc0::<A>::lemma_of_value(crate::modular::mont_value(c as int));
    crate::modular::lemma_word_of_value(c as int);
}

/// After a generating pass records the inverse of `a`, a consuming pass returns exactly the
/// inverse that the plain chain computes, or fails loudly where that value does not pass the
/// check (zero is the one such element).
pub proof fn lemma_generated_hint_consumed<A>(
    a: AccelBaseElementRisc0<A>,
    r: AccelBaseElementRisc0<A>,
    before: InverseHints,
    after: InverseHints,
)
    requires
        r == AccelBaseElementRisc0::<A>::of_value(fpow(a@, (M - 2) as nat)),
        after.base_map() == before.base_map().insert(a.word(), r.word()),
    ensures
        consumed_inverse(a, after) == (if fmul(r@, a@) == 1 {
            Ok::<AccelBaseElementRisc0<A>, HintError>(r)
        } else {
            Err::<AccelBaseElementRisc0<A>, HintError>(HintError::InconsistentHint)
        }),
{
    AccelBaseElementRisc0::<A>::lemma_of_value(fpow(a@, (M - 2) as nat));
    r.lemma_determined();
    r.lemma_view_word();
}

/// After `save_hint_quad(a, b)`, a lookup by the words that equal the canonical integers of `a`
/// brings back the coordinates of `b`.
pub proof fn lemma_quad_hint_round_trip<A>(
    a: [AccelBaseElementRisc0<A>; 2],
    b: [AccelBaseElementRisc0<A>; 2],
    before: InverseHints,
    after: InverseHints,
)
    requires
        after.quad_map() == before.quad_map().insert(
            (a[0]@ as u64, a[1]@ as u64),
            (b[0]@ as u64, b[1]@ as u64),
        ),
    ensures
        after.quad_map().contains_key((a[0]@ as u64, a[1]@ as u64)),
        fmod(after.quad_map()[(a[0]@ as u64, a[1]@ as u64)].0 as int) == b[0]@,
        fmod(after.quad_map()[(a[0]@ as u64, a[1]@ as u64)].1 as int) == b[1]@,
{
    b[0].lemma_view_range();
    b[1].lemma_view_range();
    lemma_fmod_ops(b[0]@, 0);
    lemma_fmod_ops(b[1]@, 0);
    vstd::arithmetic::div_mod::lemma_small_mod(b[0]@ as nat, M as nat);
    vstd::arithmetic::div_mod::lemma_small_mod(b[1]@ as nat, M as nat);
}

/// The embedded base field one, (1, 0), is the identity of quadratic extension
/// multiplication.
pub proof fn lemma_quad_mul_one(e0: int, e1: int)
    requires
        0 <= e0 < M,
        0 <= e1 < M,
    ensures
        quad_mul_0(1, 0, e0, e1) == e0,
        quad_mul_1(1, 0, e0, e1) == e1,
{
    vstd::arithmetic::div_mod::lemma_small_mod(e0 as nat, M as nat);
    vstd::arithmetic::div_mod::lemma_small_mod(e1 as nat, M as nat);
}

} // verus!
