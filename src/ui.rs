//! The drawing context that the registry hands on to each demo.

use vstd::prelude::*;

verus! {

#[verifier::external_type_specification]
#[verifier::external_body]
pub struct ExCtxRef(egui::CtxRef);

} // verus!
