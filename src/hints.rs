//! Caches of inverse hints: values computed by one run of a computation and checked, rather than
//! recomputed, by a later run of the same computation.
use crate::element::AccelBaseElementRisc0;
use crate::modular::{fmod, fmul, fpow, mont_value, M};
use std::collections::BTreeMap;
use vstd::prelude::*;

verus! {

broadcast use vstd::std_specs::btree::group_btree_axioms, vstd::laws_cmp::group_laws_cmp;

/// Why a hint could not be used.
#[derive(Clone, Copy, Debug, PartialEq, Eq, Structural)]
pub enum HintError {
    /// A cached inverse failed its check against the element it was stored for.
    InconsistentHint,
    /// This extension has no hints.
    Unsupported,
}

/// The two hint caches: base field words to the words of their inverses, and pairs of
/// quadratic extension coordinates to the coordinates of their inverses. Entries are only ever
/// added or overwritten.
pub struct InverseHints {
    base: BTreeMap<u64, u64>,
    quad: BTreeMap<(u64, u64), (u64, u64)>,
}

impl InverseHints {
    /// The base field cache.
    pub closed spec fn base_map(&self) -> Map<u64, u64> {
        self.base@
    }

    /// The quadratic extension cache.
    pub closed spec fn quad_map(&self) -> Map<(u64, u64), (u64, u64)> {
        self.quad@
    }

    /// Two empty caches.
    pub fn new() -> (r: Self)
        ensures
            r.base_map() == Map::<u64, u64>::empty(),
            r.quad_map() == Map::<(u64, u64), (u64, u64)>::empty(),
    {
        InverseHints { base: BTreeMap::new(), quad: BTreeMap::new() }
    }

    /// Looks up the base field cache.
    pub fn lookup_base(&self, key: u64) -> (r: Option<u64>)
        ensures
            r == (if self.base_map().contains_key(key) {
                Some(self.base_map()[key])
            } else {
                None
            }),
    {
        match self.base.get(&key) {
            Some(v) => Some(*v),
            None => None,
        }
    }

    /// Records an entry in the base field cache; the last write for a key wins.
    pub fn record_base(&mut self, key: u64, value: u64)
        ensures
            final(self).base_map() == old(self).base_map().insert(key, value),
            final(self).quad_map() == old(self).quad_map(),
    {
        self.base.insert(key, value);
    }

    /// Looks up the quadratic extension cache.
    pub fn lookup_quad(&self, key: (u64, u64)) -> (r: Option<(u64, u64)>)
        ensures
            r == (if self.quad_map().contains_key(key) {
                Some(self.quad_map()[key])
            } else {
                None
            }),
    {
        match self.quad.get(&key) {
            Some(v) => Some(*v),
            None => None,
        }
    }

    /// Records an entry in the quadratic extension cache; the last write for a key wins.
    pub fn record_quad(&mut self, key: (u64, u64), value: (u64, u64))
        ensures
            final(self).quad_map() == old(self).quad_map().insert(key, value),
            final(self).base_map() == old(self).base_map(),
    {
        self.quad.insert(key, value);
    }
}

/// What inversion with hints returns for `a` given the caches `h`: a cached inverse that passes
/// the check `cached * a == 1`, an error for one that fails it, and the computed inverse when
/// nothing is cached for the word of `a`.
pub open spec fn consumed_inverse<A>(a: AccelBaseElementRisc0<A>, h: InverseHints) -> Result<
    AccelBaseElementRisc0<A>,
    HintError,
> {
    if h.base_map().contains_key(a.word()) {
        let c = h.base_map()[a.word()];
        if c < M && fmul(mont_value(c as int), a@) == 1 {
            Ok(AccelBaseElementRisc0::of_value(mont_value(c as int)))
        } else {
            Err(HintError::InconsistentHint)
        }
    } else {
        Ok(AccelBaseElementRisc0::of_value(fpow(a@, (M - 2) as nat)))
    }
}

impl<A> AccelBaseElementRisc0<A> {
    /// Inverts using a cached inverse when there is one for this word, after checking that the
    /// cached value times this element is one; without a cached value the inverse is computed.
    /// A cached value that fails the check is an error, never a result.
    pub fn inv_consuming(self, hints: &InverseHints) -> (r: Result<Self, HintError>)
        ensures
            r == consumed_inverse(self, *hints),
    {
        let w = self.inner();
        match hints.lookup_base(w) {
            Some(c) => {
                if c < M {
                    let cached = Self::from_mont(c);
                    let one = Self::one();
                    let prod = cached * self;
                    proof {
                        Self::lemma_of_value(fmul(cached@, self@));
                        Self::lemma_of_value(fmod(fmul(cached@, self@)));
                        Self::lemma_word_eq_iff(prod, one);
                        cached.lemma_determined();
                    }
                    if prod == one {
                        Ok(cached)
                    } else {
                        Err(HintError::InconsistentHint)
                    }
                } else {
                    Err(HintError::InconsistentHint)
                }
            },
            None => Ok(self.inv()),
        }
    }

    /// Computes the inverse and records it in the base field cache under this element's word.
    pub fn inv_generating(self, hints: &mut InverseHints) -> (r: Self)
        ensures
            r == Self::of_value(fpow(self@, (M - 2) as nat)),
            final(hints).base_map() == old(hints).base_map().insert(self.word(), r.word()),
            final(hints).quad_map() == old(hints).quad_map(),
    {
        let r = self.inv();
        let w = self.inner();
        let rw = r.inner();
        hints.record_base(w, rw);
        r
    }
}

} // verus!
