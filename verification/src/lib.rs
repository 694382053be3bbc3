//! Keshet: the verified core of a symbolic search for closed-form identities.
//!
//! The library holds everything that the search decides over plain values:
//! reading the operator's answers, building the symbolic universe of terms,
//! ordering it, counting combinations, signing and registering the identities
//! that were found, and laying out a polynomial in textbook form.
use vstd::prelude::*;

pub mod texto;
pub mod entrada;
pub mod universo;
pub mod organizacao;
pub mod busca;
pub mod render;

verus! {

} // verus!
