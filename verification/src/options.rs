use vstd::prelude::*;

verus! {

/// Command line options for the surrounding program: the input file to
/// assemble and an optional output file name.
#[derive(Debug)]
pub struct ProgramOptions {
    pub arg_input: String,
    pub flag_output: Option<String>,
}

} // verus!
