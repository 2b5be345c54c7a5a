use vstd::prelude::*;

use crate::error::Error;
use crate::instruction::{Instruction, LinkedInstructions, UnlinkedInstructions};
use crate::lower::lower_spec;
use crate::optimise::{single_pass_spec, Optimisations};

verus! {

/// The fixed pass set of the one-shot transformer: clear-loop fusion and
/// run grouping.
pub open spec fn transform_opts() -> Optimisations {
    Optimisations {
        combine_clears: true,
        group_instructions: true,
        reorder_instructions: false,
        combine_multiply_loops: false,
        combine_scan_loops: false,
    }
}

/// The one-shot pipeline from source text to linked, lightly optimised
/// instructions.
pub struct Transformer;

impl Transformer {
    /// Lower source bytes, fuse clear loops, group runs, and link.
    pub fn transform(bytes: &[u8]) -> (r: Result<LinkedInstructions, Error>)
        ensures
            match r {
                Ok(l) => single_pass_spec(lower_spec(bytes@), transform_opts())
                    == Ok::<Seq<Instruction>, Error>(l@),
                Err(e) => single_pass_spec(lower_spec(bytes@), transform_opts())
                    == Err::<Seq<Instruction>, Error>(e),
            },
    {
        let opts = Optimisations {
            combine_clears: true,
            group_instructions: true,
            reorder_instructions: false,
            combine_multiply_loops: false,
            combine_scan_loops: false,
        };
        UnlinkedInstructions::from_text(bytes).optimise_single_pass(&opts)
    }
}

} // verus!
