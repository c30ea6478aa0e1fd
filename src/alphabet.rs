//! The 32-symbol alphabet `0123456789abcdefghjkmnpqrstvwxyz` and its inverse.
use vstd::prelude::*;

use crate::error::Error;

verus! {

/// How a decoder treats bytes outside the canonical lowercase alphabet.
#[derive(Clone, Copy, Debug, PartialEq, Eq, Structural)]
pub enum Aliasing {
    /// Only the 32 canonical symbols are digits.
    Strict,
    /// Uppercase letters stand for their lowercase forms, `i` and `l` for `1`,
    /// and `o` for `0`.
    Lenient,
}

/// The canonical byte of digit `d` (for `d < 32`): the digits `0`-`9`, then the
/// lowercase letters without `i`, `l`, `o` and `u`.
pub open spec fn symbol(d: u8) -> u8 {
    if d < 10 {
        (48 + d) as u8  // '0'..'9'
    } else if d < 18 {
        (97 + (d - 10)) as u8  // 'a'..'h'
    } else if d < 20 {
        (106 + (d - 18)) as u8  // 'j', 'k'
    } else if d < 22 {
        (109 + (d - 20)) as u8  // 'm', 'n'
    } else if d < 27 {
        (112 + (d - 22)) as u8  // 'p'..'t'
    } else {
        (118 + (d - 27)) as u8  // 'v'..'z'
    }
}

/// `b` is one of the 32 canonical symbols.
pub open spec fn is_symbol(b: u8) -> bool {
    exists|d: u8| d < 32 && symbol(d) == b
}

/// The digit that a canonical symbol stands for.
pub open spec fn canonical_digit(b: u8) -> Option<u8> {
    if is_symbol(b) {
        Some(choose|d: u8| d < 32 && symbol(d) == b)
    } else {
        None
    }
}

/// The canonical byte that `b` is read as under lenient decoding.
pub open spec fn fold_alias(b: u8) -> u8 {
    // 'A'..'Z' to 'a'..'z'; then 'i' and 'l' read as '1', 'o' as '0'
    let lower = if 65 <= b <= 90 {
        (b + 32) as u8
    } else {
        b
    };
    if lower == 105 || lower == 108 {
        49
    } else if lower == 111 {
        48
    } else {
        lower
    }
}

/// The digit that the input byte `b` denotes under the given aliasing, if any.
pub open spec fn digit_of(b: u8, aliasing: Aliasing) -> Option<u8> {
    match aliasing {
        Aliasing::Strict => canonical_digit(b),
        Aliasing::Lenient => canonical_digit(fold_alias(b)),
    }
}

/// Distinct digits have distinct symbols.
pub proof fn lemma_symbol_injective(d: u8, e: u8)
    requires
        d < 32,
        e < 32,
        symbol(d) == symbol(e),
    ensures
        d == e,
{
}

/// Every digit's symbol decodes back to that digit, under either aliasing.
pub proof fn lemma_symbol_decodes(d: u8, aliasing: Aliasing)
    requires
        d < 32,
    ensures
        digit_of(symbol(d), aliasing) == Some(d),
{
    assert(is_symbol(symbol(d)));
    let c = choose|c: u8| c < 32 && symbol(c) == symbol(d);
    lemma_symbol_injective(c, d);
    assert(fold_alias(symbol(d)) == symbol(d));
}

/// The canonical byte of digit `d`.
pub fn symbol_byte(d: u8) -> (b: u8)
    requires
        d < 32,
    ensures
        b == symbol(d),
{
    if d < 10 {
        48 + d
    } else if d < 18 {
        97 + (d - 10)
    } else if d < 20 {
        106 + (d - 18)
    } else if d < 22 {
        109 + (d - 20)
    } else if d < 27 {
        112 + (d - 22)
    } else {
        118 + (d - 27)
    }
}

/// The digit of a canonical symbol, or `None` for any other byte.
fn canonical_digit_exec(b: u8) -> (r: Option<u8>)
    ensures
        r == canonical_digit(b),
{
    let r = if 48 <= b && b <= 57 {
        Some(b - 48)
    } else if 97 <= b && b <= 104 {
        Some(b - 97 + 10)
    } else if b == 106 || b == 107 {
        Some(b - 106 + 18)
    } else if b == 109 || b == 110 {
        Some(b - 109 + 20)
    } else if 112 <= b && b <= 116 {
        Some(b - 112 + 22)
    } else if 118 <= b && b <= 122 {
        Some(b - 118 + 27)
    } else {
        None
    };
    proof {
        match r {
            Some(d) => {
                assert(d < 32 && symbol(d) == b);
                let c = choose|c: u8| c < 32 && symbol(c) == b;
                lemma_symbol_injective(c, d);
            },
            None => {
                assert(!is_symbol(b));
            },
        }
    }
    r
}

/// The digit that `byte` denotes under `aliasing`; a byte that denotes none is
/// an `InvalidDigit` error.
pub fn map_byte(byte: u8, aliasing: Aliasing) -> (r: Result<u8, Error>)
    ensures
        r == (match digit_of(byte, aliasing) {
            Some(d) => Ok::<u8, Error>(d),
            None => Err(Error::InvalidDigit(byte)),
        }),
{
    let b = match aliasing {
        Aliasing::Strict => byte,
        Aliasing::Lenient => {
            let lower = if 65 <= byte && byte <= 90 {
                byte + 32
            } else {
                byte
            };
            if lower == 105 || lower == 108 {
                49
            } else if lower == 111 {
                48
            } else {
                lower
            }
        },
    };
    match canonical_digit_exec(b) {
        Some(d) => Ok(d),
        None => Err(Error::InvalidDigit(byte)),
    }
}

} // verus!
