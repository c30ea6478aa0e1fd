use vstd::prelude::*;

verus! {

/// Why a text could not be decoded.
#[derive(Clone, Copy, Debug, PartialEq, Eq, Structural)]
pub enum Error {
    /// A data position holds a byte that is not a symbol of the alphabet.
    InvalidDigit(u8),
    /// The text does not have the layout's length; the actual length is given.
    InvalidStrLen(usize),
}

} // verus!
