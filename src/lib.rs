//! A duty rotation ledger whose whole state travels as one printable token.
//!
//! The token codec maps bytes to a string of 64 kana code points through
//! unpadded URL-safe base64; the rotation selector picks who serves next
//! from the members tied at the lowest service count.

pub mod codec;
pub mod error;
pub mod ledger;
pub mod names;
pub mod rotation;

pub use codec::{
    base64url_char_to_hiragana, base64url_to_hiragana, decode_bytes, encode_bytes,
    hiragana_char_to_base64url, hiragana_to_base64url,
};
pub use error::LedgerError;
pub use ledger::{Ledger, Member, MAX_COUNT};
pub use names::split_members_arg;
pub use rotation::Assignment;
