use vstd::prelude::*;

verus! {

/// Everything that can go wrong while reading or changing a ledger.
#[derive(Debug, Clone, Copy, PartialEq, Eq, Structural)]
pub enum LedgerError {
    /// A parameter is out of range (a ledger must draw at least one person).
    InvalidArgument,
    /// A member of that name is already in the ledger.
    DuplicateMember,
    /// No member has that name.
    MemberNotFound,
    /// The ledger has no members to draw from.
    NoMembers,
    /// The token holds a character outside the 64-character kana block.
    InvalidTokenCharacter,
    /// The symbols of the token are not valid unpadded base64.
    CorruptBase64,
    /// The payload does not describe a valid ledger.
    MalformedLedgerSchema,
}

impl LedgerError {
    /// A short description of the error.
    pub fn message(&self) -> (r: &'static str) {
        match self {
            LedgerError::InvalidArgument => "invalid argument: people must be at least 1",
            LedgerError::DuplicateMember => "a member of that name already exists",
            LedgerError::MemberNotFound => "no member of that name was found",
            LedgerError::NoMembers => "the ledger has no members",
            LedgerError::InvalidTokenCharacter => "invalid token character",
            LedgerError::CorruptBase64 => "corrupt token: base64 decoding failed",
            LedgerError::MalformedLedgerSchema => "malformed ledger data",
        }
    }
}

} // verus!
