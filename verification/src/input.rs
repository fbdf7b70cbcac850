//! Hex text handed to the node by its users: payloads to timestamp and
//! miner secret keys.

use vstd::prelude::*;
use crate::types::Payload;
use crate::outside::hex_decode;

verus! {

/// The value of an ASCII hex digit of either case.
pub open spec fn hex_digit(c: u8) -> Option<u8> {
    if 0x30 <= c <= 0x39 {
        Some((c - 0x30) as u8)
    } else if 0x41 <= c <= 0x46 {
        Some((c - 0x41 + 10) as u8)
    } else if 0x61 <= c <= 0x66 {
        Some((c - 0x61 + 10) as u8)
    } else {
        None
    }
}

/// The bytes written in `text` as pairs of hex digits, high digit first;
/// `None` for an odd length or a character that is no hex digit.
pub open spec fn hex_decoded(text: Seq<u8>) -> Option<Seq<u8>> {
    if text.len() % 2 == 0 && forall|i: int| 0 <= i < text.len() ==> #[trigger] hex_digit(text[i]) is Some {
        Some(
            Seq::new(
                text.len() / 2,
                |k: int| (hex_digit(text[2 * k]).unwrap() * 16 + hex_digit(text[2 * k + 1]).unwrap()) as u8,
            ),
        )
    } else {
        None
    }
}

/// Why hex text was refused.
pub enum HexError {
    /// Not hex: an odd length or a character that is no hex digit.
    Malformed(hex::FromHexError),
    /// Hex for the given number of bytes, which is the wrong number.
    WrongLength(usize),
}

/// The outcome that `decoded` hex text gives for a value of `n` bytes.
pub open spec fn expected_len_result(decoded: Option<Seq<u8>>, n: nat, r: Result<Seq<u8>, HexError>) -> bool {
    match decoded {
        None => r matches Err(HexError::Malformed(_)),
        Some(b) => if b.len() == n {
            r == Ok::<Seq<u8>, HexError>(b)
        } else {
            r matches Err(HexError::WrongLength(m)) && m == b.len()
        },
    }
}

/// The bytes of `text` when it is hex for exactly `n` bytes.
fn decode_exact(text: &[u8], n: usize) -> (r: Result<Vec<u8>, HexError>)
    ensures
        expected_len_result(
            hex_decoded(text@),
            n as nat,
            match r {
                Ok(v) => Ok(v@),
                Err(e) => Err(e),
            },
        ),
{
    match hex_decode(text) {
        Err(e) => Err(HexError::Malformed(e)),
        Ok(bytes) => if bytes.len() == n {
            Ok(bytes)
        } else {
            Err(HexError::WrongLength(bytes.len()))
        },
    }
}

/// A payload written as hex: exactly 512 hex digits (256 bytes), either case.
pub fn decode_payload(text: &[u8]) -> (r: Result<Payload, HexError>)
    ensures
        expected_len_result(
            hex_decoded(text@),
            256,
            match r {
                Ok(p) => Ok(p.0@),
                Err(e) => Err(e),
            },
        ),
{
    match decode_exact(text, 256) {
        Err(e) => Err(e),
        Ok(bytes) => {
            let mut arr = [0u8; 256];
            let mut i: usize = 0;
            while i < 256
                invariant
                    bytes@.len() == 256,
                    i <= 256,
                    forall|j: int| 0 <= j < i ==> #[trigger] arr@[j] == bytes@[j],
                decreases 256 - i,
            {
                arr[i] = bytes[i];
                i = i + 1;
            }
            assert(arr@ =~= bytes@);
            Ok(Payload(arr))
        },
    }
}

/// A miner secret key written as hex: exactly 64 hex digits (32 bytes).
pub fn decode_secret(text: &[u8]) -> (r: Result<[u8; 32], HexError>)
    ensures
        expected_len_result(
            hex_decoded(text@),
            32,
            match r {
                Ok(s) => Ok(s@),
                Err(e) => Err(e),
            },
        ),
{
    match decode_exact(text, 32) {
        Err(e) => Err(e),
        Ok(bytes) => {
            let mut arr = [0u8; 32];
            let mut i: usize = 0;
            while i < 32
                invariant
                    bytes@.len() == 32,
                    i <= 32,
                    forall|j: int| 0 <= j < i ==> #[trigger] arr@[j] == bytes@[j],
                decreases 32 - i,
            {
                arr[i] = bytes[i];
                i = i + 1;
            }
            assert(arr@ =~= bytes@);
            Ok(arr)
        },
    }
}

} // verus!
