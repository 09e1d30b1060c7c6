use vstd::prelude::*;

verus! {

/// Why a version string, or one of its components, was rejected.
#[derive(Clone, Copy, Debug, PartialEq, Eq, Structural)]
pub enum DebianVersionError {
    /// The epoch before the first `:` is empty or not made of ASCII digits only,
    /// or does not fit in a `usize`.
    InvalidEpoch,
    /// The whole input, or what follows the epoch separator, is empty.
    Empty,
    /// The upstream version is not acceptable as a whole.
    InvalidUpstream,
    /// The upstream version is empty.
    EmptyUpstream,
    /// The upstream version does not start with an ASCII digit.
    UpstreamStartWithDigit,
    /// The upstream version holds a character outside its alphabet.
    UpstreamInvalidCharacters,
    /// A revision separator is present but nothing follows it.
    EmptyRevision,
    /// The revision holds a character outside its alphabet.
    RevisionInvalidCharacters,
    /// The combination of flags is not acceptable.
    InvalidFlags,
}

/// The human-readable text of each error.
pub open spec fn error_message(e: DebianVersionError) -> Seq<char> {
    match e {
        DebianVersionError::InvalidEpoch => "Epochs must be numeric."@,
        DebianVersionError::Empty => "Version is empty."@,
        DebianVersionError::InvalidUpstream => "Invalid upstream version."@,
        DebianVersionError::EmptyUpstream => "Upstream version is empty."@,
        DebianVersionError::UpstreamStartWithDigit => "Upstream version must start with a digit."@,
        DebianVersionError::UpstreamInvalidCharacters => "Upstream version contains invalid characters."@,
        DebianVersionError::EmptyRevision => "Debian revision is empty."@,
        DebianVersionError::RevisionInvalidCharacters => "Debian revision contains invalid characters."@,
        DebianVersionError::InvalidFlags => "Invalid flag combination."@,
    }
}

impl DebianVersionError {
    /// A short sentence that describes the error.
    pub fn message(&self) -> (r: &'static str)
        ensures
            r@ == error_message(*self),
    {
        match self {
            DebianVersionError::InvalidEpoch => "Epochs must be numeric.",
            DebianVersionError::Empty => "Version is empty.",
            DebianVersionError::InvalidUpstream => "Invalid upstream version.",
            DebianVersionError::EmptyUpstream => "Upstream version is empty.",
            DebianVersionError::UpstreamStartWithDigit => "Upstream version must start with a digit.",
            DebianVersionError::UpstreamInvalidCharacters => "Upstream version contains invalid characters.",
            DebianVersionError::EmptyRevision => "Debian revision is empty.",
            DebianVersionError::RevisionInvalidCharacters => "Debian revision contains invalid characters.",
            DebianVersionError::InvalidFlags => "Invalid flag combination.",
        }
    }
}

} // verus!
