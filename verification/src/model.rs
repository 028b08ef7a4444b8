//! What the graph is and what it is called.

use vstd::prelude::*;

verus! {

/// The name the host binds the graph to. `-nn matte=<path>`.
pub const MODEL: &'static str = "matte";

/// The size the graph is exported at, fixed: the TF-style pads inside it
/// trace to constants, so the export carries exactly one geometry.
pub const MODEL_W: usize = 320;

pub const MODEL_H: usize = 192;

/// The samples of one plane at the model's size.
pub const MODEL_PLANE: usize = 61440;

/// The graph's name and its one geometry; a plane is a sample for each row
/// and column of it.
pub proof fn lemma_the_model_has_one_geometry()
    ensures
        MODEL@ == "matte"@,
        MODEL_W == 320,
        MODEL_H == 192,
        MODEL_PLANE == 320 * 192,
{
}

} // verus!
