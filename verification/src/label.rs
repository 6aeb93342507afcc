//! The name of a volume.
use vstd::prelude::*;

verus! {

/// A volume label: its UTF-16 units, little-endian, and how many characters of
/// them are in use.
#[derive(Clone, Copy, Debug, PartialEq, Eq)]
pub struct Label(pub [u8; 22], pub u8);

/// The most characters that a label can have.
pub const MAX_LABEL_LEN: u8 = 11;

} // verus!
