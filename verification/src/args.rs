//! The run's arguments, as the library sees them: plain path strings. The
//! command-line front end parses its own copy and converts.
use vstd::prelude::*;

verus! {

/// The files a run processes.
#[derive(Debug)]
pub struct Args {
    /// Any number of python files.
    pub paths: Vec<String>,
}

} // verus!
