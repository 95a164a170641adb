//! Model-level records.

use vstd::prelude::*;

verus! {

/// A model attribute; its layout is not known yet.
#[derive(Debug, Clone, Copy)]
pub struct Attribute {}

} // verus!
