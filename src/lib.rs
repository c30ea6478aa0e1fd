//! Compact, sortable identifiers: a time field and a random field packed into
//! one fixed-width integer, written as fixed-length text over a 32-symbol
//! alphabet, with a verified codec between the two forms.

pub mod alphabet;
pub mod codec;
pub mod error;
pub mod id;

pub use alphabet::{map_byte, symbol_byte, Aliasing};
pub use codec::{Layout, LayoutView, MAX_BITS, SEPARATOR};
pub use error::Error;
pub use id::{
    decode, encode_array, timestamp_from_unix_millis, to_100bit, Id, Identifiable, EPOCH_MILLIS,
    STR_LEN,
};
