//! The choice of engine for a run.
//!
//! A run either holds all records in memory, or indexes the byte ranges of
//! the records and reads each range back when it is written. The second way
//! has to read its source twice, so it cannot take standard input.

use crate::text::bytes_equal;
use vstd::prelude::*;

verus! {

/// The name that stands for standard input or standard output: `-`.
pub open spec fn standard_stream() -> Seq<u8> {
    seq![45u8]
}

/// How a run is carried out.
#[derive(Debug, PartialEq, Eq, Clone, Copy, Structural)]
pub enum Engine {
    /// All records are held in memory.
    InMemory,
    /// Only the keys and the byte ranges of the records are held.
    External,
}

/// Why a run cannot start.
#[derive(Debug, PartialEq, Eq, Clone, Copy, Structural)]
pub enum RunError {
    /// The records were to be indexed by byte range and the input is
    /// standard input, which cannot be read a second time.
    StandardInputNotSeekable,
}

/// Whether a path names standard input or standard output.
pub fn is_standard_stream(path: &[u8]) -> (yes: bool)
    ensures
        yes == (path@ == standard_stream()),
{
    let dash: [u8; 1] = [45u8];
    let yes = bytes_equal(path, dash.as_slice());
    proof {
        assert(dash@ =~= standard_stream());
    }
    yes
}

/// Chooses the engine of a run from its input and from whether large files
/// are to be handled. Large files call for the external engine, which
/// refuses standard input.
pub fn choose_engine(input: &[u8], large_files: bool) -> (choice: Result<Engine, RunError>)
    ensures
        choice == if !large_files {
            Ok::<Engine, RunError>(Engine::InMemory)
        } else if input@ == standard_stream() {
            Err::<Engine, RunError>(RunError::StandardInputNotSeekable)
        } else {
            Ok::<Engine, RunError>(Engine::External)
        },
{
    if !large_files {
        Ok(Engine::InMemory)
    } else if is_standard_stream(input) {
        Err(RunError::StandardInputNotSeekable)
    } else {
        Ok(Engine::External)
    }
}

} // verus!
