use vstd::prelude::*;

verus! {

/// The ways a buffer-level call can be refused.
#[derive(Clone, Copy, Debug, PartialEq, Eq, Structural)]
pub enum EngineError {
    /// The handle does not name a buffer of the registry.
    UnknownHandle,
    /// A buffer has the wrong length for the operation (not a power of two,
    /// or two buffers that must match do not).
    InvalidLength,
    /// A linear system has no unique solution.
    SingularSystem,
}

/// The text that reports an error.
pub open spec fn reason_text(e: EngineError) -> Seq<char> {
    match e {
        EngineError::UnknownHandle => "unknown handle"@,
        EngineError::InvalidLength => "invalid length"@,
        EngineError::SingularSystem => "singular system"@,
    }
}

impl EngineError {
    /// A short textual reason, for reporting across the engine boundary.
    pub fn reason(&self) -> (r: &'static str)
        ensures
            r@ == reason_text(*self),
    {
        match self {
            EngineError::UnknownHandle => {
                proof { reveal_strlit("unknown handle"); }
                "unknown handle"
            },
            EngineError::InvalidLength => {
                proof { reveal_strlit("invalid length"); }
                "invalid length"
            },
            EngineError::SingularSystem => {
                proof { reveal_strlit("singular system"); }
                "singular system"
            },
        }
    }
}

} // verus!
