use vstd::prelude::*;

verus! {

/// The fatal conditions of a run.
#[derive(Debug, Clone, Copy, PartialEq, Eq, Structural)]
pub enum EngineError {
    /// A record of the ensemble stream could not be decoded.
    StreamDecode,
    /// A requested node attribute is neither a number nor a numeric string.
    MalformedAttribute,
    /// An assignment whose length or labels do not fit the graph or the run.
    CorruptAssignment,
    /// The ensemble stream holds no record at all.
    EmptyStream,
}

} // verus!
