//! The error taxonomy of the context layer.

use vstd::prelude::*;

verus! {

/// A parse failure.
#[derive(Debug, Clone, Copy, PartialEq, Eq, Structural)]
pub enum ParseError {
    /// The byte stream violates the grammar at the given offset.
    Malformed {
        /// The offset of the offending byte.
        byte_offset: usize,
    },
    /// The message ends before its grammar allows.
    UnexpectedEnd,
}

/// Which side of an enforcement is missing a part.
#[derive(Debug, Clone, Copy, PartialEq, Eq, Structural)]
pub enum Side {
    /// The structure template.
    Structure,
    /// The parsed candidate.
    Candidate,
}

/// A violation of the declared structure, or a failure on the way to checking
/// it.
#[derive(Debug, PartialEq, Eq)]
pub enum EnforceError {
    /// The transcript could not be parsed.
    Parse(ParseError),
    /// The candidate has a different number of messages than the structure.
    CountMismatch {
        /// The kind of message whose counts disagree.
        kind: crate::http_transcript::MessageKind,
        /// The number of messages the structure declares.
        expected: usize,
        /// The number of messages the candidate holds.
        actual: usize,
    },
    /// The request methods differ.
    MethodMismatch,
    /// The request targets differ.
    TargetMismatch,
    /// The response status codes differ.
    StatusMismatch,
    /// A header named by the structure is absent from the candidate.
    HeaderMissing {
        /// The header's name.
        name: Vec<u8>,
    },
    /// A header named by the structure carries a different value.
    HeaderValueMismatch {
        /// The header's name.
        name: Vec<u8>,
    },
    /// One side declares a body the other lacks.
    BodyMissing {
        /// The side that declares the body.
        side: Side,
    },
    /// The bodies are of different content classes.
    BodyTypeMismatch,
    /// The bodies are of the same class but hold different bytes.
    BodyContentMismatch,
    /// The JSON trees diverge in shape or literals at the given dotted path.
    StructureMismatch {
        /// The dotted path of the divergence.
        path: Vec<u8>,
    },
}

} // verus!
