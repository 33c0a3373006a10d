//! A 64-bit STARK-friendly prime field with modulus 2^64 - 2^32 + 1 in Montgomery form, its
//! quadratic and cubic extensions, and caches of inverse hints.
//!
//! Every element keeps its Montgomery word below the modulus, so two elements are equal exactly
//! when they stand for the same field value.
use vstd::prelude::*;

pub use bytes::DeserializationError;
pub use element::{
    AccelBaseElementRisc0, BaseElement, DefaultNativeMul, NativeMontMul, ELEMENT_BYTES, G,
    MODULUS_BITS, TWO_ADICITY,
};
pub use hints::{HintError, InverseHints};
pub use modular::{equals, mont_red_cst, mont_red_var, M};

pub mod bytes;
pub mod convert;
pub mod element;
pub mod extension;
pub mod hints;
pub mod laws;
pub mod modular;

verus! {

} // verus!
