//! Conversions between field elements, integers and bytes.
use crate::bytes::{
    le_bytes, le_value, lemma_le_round_trip, lemma_pow256_8, u64_from_le_bytes, u64_to_le_bytes,
    DeserializationError,
};
use crate::element::{AccelBaseElementRisc0, ELEMENT_BYTES};
use crate::modular::{fmod, lemma_double_reduction, mont_red_cst, r_int, M};
use vstd::prelude::*;

verus! {

/// What reading an element from `bytes` gives: exactly 8 little-endian bytes of a canonical
/// integer below M, else `InvalidValue`.
pub open spec fn element_from_bytes<A>(bytes: Seq<u8>) -> Result<
    AccelBaseElementRisc0<A>,
    DeserializationError,
> {
    if bytes.len() != 8 {
        Err(DeserializationError::InvalidValue)
    } else if le_value(bytes) >= M {
        Err(DeserializationError::InvalidValue)
    } else {
        Ok(AccelBaseElementRisc0::of_value(le_value(bytes) as int))
    }
}

impl<A> AccelBaseElementRisc0<A> {
    /// Converts a 128-bit value into a field element, reducing it mod M.
    pub fn from_u128(x: u128) -> (r: Self)
        ensures
            r == Self::of_value(x as int),
    {
        let w1 = mont_red_cst(x);
        proof {
            assert(w1 < M as int * r_int());
        }
        let w2 = mont_red_cst(w1 as u128);
        proof {
            lemma_double_reduction(w1 as int, w2 as int, x as int);
        }
        let r = Self::from_mont(w2);
        proof {
            r.lemma_determined();
            Self::lemma_of_value(x as int);
            Self::lemma_eq_iff_value(r, Self::of_value(x as int));
        }
        r
    }

    /// Converts 8 little-endian bytes of a canonical integer into a field element; a value at
    /// or above M is reduced.
    pub fn from_le_array(bytes: [u8; 8]) -> (r: Self)
        ensures
            r@ == fmod(le_value(bytes@) as int),
            r == Self::of_value(le_value(bytes@) as int),
    {
        let value = u64_from_le_bytes(&bytes, 0);
        proof {
            assert(bytes@.subrange(0, 8) =~= bytes@);
        }
        Self::convert_into(value)
    }

    /// Reads a field element from a slice that holds exactly 8 little-endian bytes of a
    /// canonical integer.
    pub fn try_from_bytes(bytes: &[u8]) -> (r: Result<Self, DeserializationError>)
        ensures
            r == element_from_bytes::<A>(bytes@),
    {
        if bytes.len() < ELEMENT_BYTES {
            return Err(DeserializationError::InvalidValue);
        }
        if bytes.len() > ELEMENT_BYTES {
            return Err(DeserializationError::InvalidValue);
        }
        let value = u64_from_le_bytes(bytes, 0);
        proof {
            assert(bytes@.subrange(0, 8) =~= bytes@);
        }
        if value >= M {
            return Err(DeserializationError::InvalidValue);
        }
        let r = Self::convert_into(value);
        Ok(r)
    }

    /// Reads a field element from random bytes; `None` where they do not encode one.
    pub fn from_random_bytes(bytes: &[u8]) -> (r: Option<Self>)
        ensures
            r == (match element_from_bytes::<A>(bytes@) {
                Ok(e) => Some(e),
                Err(_) => None,
            }),
    {
        match Self::try_from_bytes(bytes) {
            Ok(e) => Some(e),
            Err(_) => None,
        }
    }

    /// Appends the canonical integer of this element, 8 bytes little-endian, to `target`.
    pub fn write_into(&self, target: &mut Vec<u8>)
        ensures
            final(target)@ == old(target)@ + le_bytes(self@ as nat, 8),
    {
        let v = self.as_int();
        let mut b = u64_to_le_bytes(v);
        target.append(&mut b);
    }

    /// The raw Montgomery word of this element, 8 bytes little-endian.
    pub fn as_bytes(&self) -> (r: Vec<u8>)
        ensures
            r@ == le_bytes(self.word() as nat, 8),
    {
        u64_to_le_bytes(self.inner())
    }

    /// Reads a field element at `*pos` in `source` and moves `*pos` past it. Fails with
    /// `UnexpectedEOF` where fewer than 8 bytes are left and with `InvalidValue` where the
    /// value is not below M; on failure `*pos` is unchanged.
    pub fn read_from(source: &[u8], pos: &mut usize) -> (r: Result<Self, DeserializationError>)
        ensures
            old(pos) + 8 > source@.len() ==> r == Err::<Self, DeserializationError>(
                DeserializationError::UnexpectedEOF,
            ) && *final(pos) == *old(pos),
            old(pos) + 8 <= source@.len() ==> r == element_from_bytes::<A>(
                source@.subrange(*old(pos) as int, old(pos) + 8),
            ) && *final(pos) == (if r is Ok {
                old(pos) + 8
            } else {
                *old(pos) as int
            }),
    {
        let p = *pos;
        if source.len() < 8 || p > source.len() - 8 {
            return Err(DeserializationError::UnexpectedEOF);
        }
        let value = u64_from_le_bytes(source, p);
        if value >= M {
            return Err(DeserializationError::InvalidValue);
        }
        let r = Self::convert_into(value);
        *pos = p + 8;
        Ok(r)
    }
}

/// The `i`-th group of 8 bytes of `s`.
pub open spec fn chunk(s: Seq<u8>, i: int) -> Seq<u8> {
    s.subrange(8 * i, 8 * i + 8)
}

impl<A> AccelBaseElementRisc0<A> {
    /// The raw Montgomery words of `elements`, 8 little-endian bytes each, one after another.
    pub fn elements_as_bytes(elements: &[Self]) -> (r: Vec<u8>)
        ensures
            r@.len() == 8 * elements@.len(),
            forall|i: int|
                0 <= i < elements@.len() ==> #[trigger] chunk(r@, i) == le_bytes(
                    elements@[i].word() as nat,
                    8,
                ),
    {
        let mut out: Vec<u8> = Vec::new();
        let mut k: usize = 0;
        while k < elements.len()
            invariant
                k <= elements@.len(),
                out@.len() == 8 * k,
                forall|i: int|
                    0 <= i < k ==> #[trigger] chunk(out@, i) == le_bytes(
                        elements@[i].word() as nat,
                        8,
                    ),
            decreases elements@.len() - k,
        {
            let ghost before = out@;
            let mut b = u64_to_le_bytes(elements[k].inner());
            proof {
                lemma_le_round_trip(elements@[k as int].word() as nat, 8);
            }
            out.append(&mut b);
            proof {
                assert forall|i: int| 0 <= i < k + 1 implies #[trigger] chunk(out@, i) == le_bytes(
                    elements@[i].word() as nat,
                    8,
                ) by {
                    if i < k {
                        assert(chunk(out@, i) =~= chunk(before, i));
                    } else {
                        assert(chunk(out@, i) =~= le_bytes(elements@[k as int].word() as nat, 8));
                    }
                }
            }
            k += 1;
        }
        out
    }

    /// Reads raw Montgomery words, 8 little-endian bytes each. Fails with `InvalidValue` where
    /// the length is not a multiple of 8 or a word is not a canonical Montgomery word.
    pub fn bytes_as_elements(bytes: &[u8]) -> (r: Result<Vec<Self>, DeserializationError>)
        ensures
            r is Ok <==> bytes@.len() % 8 == 0 && forall|i: int|
                0 <= i < bytes@.len() / 8 ==> #[trigger] le_value(chunk(bytes@, i)) < M,
            r is Err ==> r == Err::<Vec<Self>, DeserializationError>(
                DeserializationError::InvalidValue,
            ),
            r is Ok ==> r->Ok_0@.len() == bytes@.len() / 8 && forall|i: int|
                0 <= i < bytes@.len() / 8 ==> #[trigger] r->Ok_0@[i].word() == le_value(
                    chunk(bytes@, i),
                ),
    {
        if bytes.len() % ELEMENT_BYTES != 0 {
            return Err(DeserializationError::InvalidValue);
        }
        let len = bytes.len();
        let n = len / ELEMENT_BYTES;
        let mut out: Vec<Self> = Vec::new();
        let mut k: usize = 0;
        while k < n
            invariant
                n == bytes@.len() / 8,
                len == bytes@.len(),
                bytes@.len() % 8 == 0,
                k <= n,
                out@.len() == k,
                forall|i: int| 0 <= i < k ==> #[trigger] le_value(chunk(bytes@, i)) < M,
                forall|i: int|
                    0 <= i < k ==> #[trigger] out@[i].word() == le_value(chunk(bytes@, i)),
            decreases n - k,
        {
            proof {
                assert(k * 8 + 8 <= bytes@.len()) by (nonlinear_arith)
                    requires k < n, n == bytes@.len() / 8, bytes@.len() % 8 == 0;
                assert(chunk(bytes@, k as int) == bytes@.subrange(k * 8, k * 8 + 8));
            }
            let w = u64_from_le_bytes(bytes, k * 8);
            if w >= M {
                return Err(DeserializationError::InvalidValue);
            }
            out.push(Self::from_mont(w));
            k += 1;
        }
        Ok(out)
    }

    /// A vector of `n` zero elements.
    pub fn zeroed_vector(n: usize) -> (r: Vec<Self>)
        ensures
            r@.len() == n,
            forall|i: int| 0 <= i < n ==> #[trigger] r@[i]@ == 0,
    {
        let mut out: Vec<Self> = Vec::new();
        let mut k: usize = 0;
        while k < n
            invariant
                k <= n,
                out@.len() == k,
                forall|i: int| 0 <= i < k ==> #[trigger] out@[i]@ == 0,
            decreases n - k,
        {
            out.push(Self::zero());
            k += 1;
        }
        out
    }

    /// Base field elements are their own base field coordinates.
    pub fn as_base_elements(elements: &[Self]) -> (r: &[Self])
        ensures
            r@ == elements@,
    {
        elements
    }
}

impl<A> From<u128> for AccelBaseElementRisc0<A> {
    /// Converts a 128-bit value into a field element, reducing it mod M.
    fn from(value: u128) -> (r: Self) {
        Self::from_u128(value)
    }
}

impl<A> vstd::std_specs::convert::FromSpecImpl<u128> for AccelBaseElementRisc0<A> {
    open spec fn obeys_from_spec() -> bool {
        true
    }

    open spec fn from_spec(v: u128) -> Self {
        Self::of_value(v as int)
    }
}

impl<A> From<u64> for AccelBaseElementRisc0<A> {
    /// Converts a 64-bit value into a field element, reducing it mod M.
    fn from(value: u64) -> (r: Self) {
        Self::convert_into(value)
    }
}

impl<A> vstd::std_specs::convert::FromSpecImpl<u64> for AccelBaseElementRisc0<A> {
    open spec fn obeys_from_spec() -> bool {
        true
    }

    open spec fn from_spec(v: u64) -> Self {
        Self::of_value(v as int)
    }
}

impl<A> From<u32> for AccelBaseElementRisc0<A> {
    /// Converts a 32-bit value into a field element.
    fn from(value: u32) -> (r: Self) {
        Self::convert_into(value as u64)
    }
}

impl<A> vstd::std_specs::convert::FromSpecImpl<u32> for AccelBaseElementRisc0<A> {
    open spec fn obeys_from_spec() -> bool {
        true
    }

    open spec fn from_spec(v: u32) -> Self {
        Self::of_value(v as int)
    }
}

impl<A> From<u16> for AccelBaseElementRisc0<A> {
    /// Converts a 16-bit value into a field element.
    fn from(value: u16) -> (r: Self) {
        Self::convert_into(value as u64)
    }
}

impl<A> vstd::std_specs::convert::FromSpecImpl<u16> for AccelBaseElementRisc0<A> {
    open spec fn obeys_from_spec() -> bool {
        true
    }

    open spec fn from_spec(v: u16) -> Self {
        Self::of_value(v as int)
    }
}

impl<A> From<u8> for AccelBaseElementRisc0<A> {
    /// Converts an 8-bit value into a field element.
    fn from(value: u8) -> (r: Self) {
        Self::convert_into(value as u64)
    }
}

impl<A> vstd::std_specs::convert::FromSpecImpl<u8> for AccelBaseElementRisc0<A> {
    open spec fn obeys_from_spec() -> bool {
        true
    }

    open spec fn from_spec(v: u8) -> Self {
        Self::of_value(v as int)
    }
}

impl<A> From<[u8; 8]> for AccelBaseElementRisc0<A> {
    /// Converts 8 little-endian bytes of a canonical integer into a field element, reducing it
    /// mod M.
    fn from(value: [u8; 8]) -> (r: Self) {
        Self::from_le_array(value)
    }
}

impl<A> vstd::std_specs::convert::FromSpecImpl<[u8; 8]> for AccelBaseElementRisc0<A> {
    open spec fn obeys_from_spec() -> bool {
        true
    }

    open spec fn from_spec(v: [u8; 8]) -> Self {
        Self::of_value(le_value(v@) as int)
    }
}

impl<'a, A> TryFrom<&'a [u8]> for AccelBaseElementRisc0<A> {
    type Error = DeserializationError;

    /// Reads a field element from exactly 8 little-endian bytes of a canonical integer.
    fn try_from(bytes: &'a [u8]) -> (r: Result<Self, DeserializationError>) {
        Self::try_from_bytes(bytes)
    }
}

impl<'a, A> vstd::std_specs::convert::TryFromSpecImpl<&'a [u8]> for AccelBaseElementRisc0<A> {
    open spec fn obeys_try_from_spec() -> bool {
        true
    }

    open spec fn try_from_spec(v: &'a [u8]) -> Result<Self, DeserializationError> {
        element_from_bytes::<A>(v@)
    }
}

} // verus!
