use vstd::prelude::*;
use crate::cir::CirInstruction;

verus! {

/// A store of compact instructions.
#[derive(Debug)]
pub struct ProgramRepo {
    pub instructions: Vec<CirInstruction>,
}

impl ProgramRepo {
    /// An empty store.
    pub fn new() -> (r: ProgramRepo)
        ensures
            r.instructions@.len() == 0,
    {
        ProgramRepo { instructions: Vec::new() }
    }
}

impl Default for ProgramRepo {
    fn default() -> (r: ProgramRepo)
        ensures
            r.instructions@.len() == 0,
    {
        ProgramRepo::new()
    }
}

} // verus!
