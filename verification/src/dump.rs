//! What a tool that shows blobs needs besides the decoder: input that may
//! come as hexadecimal text, and binary data shown as hexadecimal text.

use crate::deser::{Decoder, MAX_BLOB_LEN, MSG_TOO_LONG};
use crate::opts::Dump;
use crate::types::{digit_char, Error};
use crate::value::{read_value_from_entrypoint, spec_read_from_entrypoint, Value, ValueView};
use vstd::prelude::*;
use vstd::slice::{slice_subrange, slice_to_vec};

verus! {

/// Why hexadecimal text cannot be turned into bytes.
#[derive(Debug, Clone, Copy, PartialEq)]
pub enum HexError {
    /// A character that is no hexadecimal digit, and where it stands.
    InvalidHexCharacter { c: char, index: usize },
    /// An odd number of digits.
    OddLength,
    /// A number of digits that does not fit a container of fixed size.
    InvalidStringLength,
}

/// Why input cannot be read as a value.
#[derive(Debug, Clone, Copy)]
pub enum InputError {
    /// The input was to be hexadecimal text and is not.
    Hex(HexError),
    /// The blob does not hold a value at its entry point.
    Twine(Error),
}

/// The bytes of `bs` as hexadecimal text: two lower-case digits for each
/// byte, the high one first.
pub open spec fn hex_text(bs: Seq<u8>) -> Seq<char> {
    Seq::new(
        2 * bs.len(),
        |i: int|
            digit_char(
                if i % 2 == 0 {
                    bs[i / 2] as int / 16
                } else {
                    bs[i / 2] as int % 16
                },
            ),
    )
}

/// The number that a hexadecimal digit, in either case, stands for.
pub open spec fn hex_digit(c: u8) -> Option<u8> {
    if 48 <= c <= 57 {
        Some((c - 48) as u8)
    } else if 97 <= c <= 102 {
        Some((c - 87) as u8)
    } else if 65 <= c <= 70 {
        Some((c - 55) as u8)
    } else {
        None
    }
}

/// The place of the first character of `s`, from `from` on, that is no
/// hexadecimal digit.
pub open spec fn first_bad_digit(s: Seq<u8>, from: int) -> Option<int>
    decreases s.len() - from,
{
    if from >= s.len() {
        None
    } else if hex_digit(s[from]) is None {
        Some(from)
    } else {
        first_bad_digit(s, from + 1)
    }
}

/// The bytes that the hexadecimal text `s` stands for: one for each pair
/// of digits. A text of odd length is refused, then the first character
/// that is no digit.
pub open spec fn unhex(s: Seq<u8>) -> Result<Seq<u8>, HexError> {
    if s.len() % 2 != 0 {
        Err(HexError::OddLength)
    } else {
        match first_bad_digit(s, 0) {
            Some(i) => Err(HexError::InvalidHexCharacter { c: s[i] as char, index: i as usize }),
            None => Ok(
                Seq::new(
                    s.len() / 2,
                    |i: int|
                        (hex_digit(s[2 * i]).unwrap() * 16 + hex_digit(s[2 * i + 1]).unwrap()) as u8,
                ),
            ),
        }
    }
}

/// The result of turning text into bytes, with the bytes taken by their
/// view.
pub open spec fn unhex_view(r: Result<Vec<u8>, HexError>) -> Result<Seq<u8>, HexError> {
    match r {
        Ok(v) => Ok(v@),
        Err(e) => Err(e),
    }
}

/// `hex::encode`: two lower-case hexadecimal digits for each byte of
/// `bs`, the high one first.
#[verifier::external_body]
fn hex_encode(bs: &[u8]) -> (text: String)
    ensures
        text@ == hex_text(bs@),
{
    hex::encode(bs)
}

/// `hex::decode`: the bytes that the hexadecimal digits of `data` stand
/// for, two digits in either case for each byte; a text of odd length is
/// refused, else the first character that is no digit, with its place.
#[verifier::external_body]
fn hex_decode(data: &[u8]) -> (r: Result<Vec<u8>, HexError>)
    ensures
        unhex_view(r) == unhex(data@),
{
    match hex::decode(data) {
        Ok(bytes) => Ok(bytes),
        Err(hex::FromHexError::InvalidHexCharacter { c, index }) => Err(
            HexError::InvalidHexCharacter { c, index },
        ),
        Err(hex::FromHexError::OddLength) => Err(HexError::OddLength),
        Err(hex::FromHexError::InvalidStringLength) => Err(HexError::InvalidStringLength),
    }
}

/// How many bytes of binary data of `len` bytes are shown: all of them,
/// and never fewer than `threshold`.
pub open spec fn shown_len(len: nat, threshold: u32) -> nat {
    if len >= threshold {
        len
    } else {
        threshold as nat
    }
}

/// Shows binary data as hexadecimal text. Returns the text of the bytes
/// that are shown and the number of bytes that are left out. The data
/// must have at least `threshold` bytes.
pub fn render_bytes(bs: &[u8], threshold: u32) -> (r: (String, usize))
    requires
        bs@.len() >= threshold,
    ensures
        r.0@ == hex_text(bs@.take(shown_len(bs@.len(), threshold) as int)),
        r.1 == bs@.len() - shown_len(bs@.len(), threshold),
{
    let len_render = if bs.len() >= threshold as usize {
        bs.len()
    } else {
        threshold as usize
    };
    let skipped = if bs.len() > len_render {
        bs.len() - len_render
    } else {
        0
    };
    let shown = slice_subrange(bs, 0, len_render);
    assert(shown@ =~= bs@.take(len_render as int));
    (hex_encode(shown), skipped)
}

/// The result of reading input, with the value taken by its view.
pub open spec fn input_view(r: Result<Value, InputError>) -> Result<ValueView, InputError> {
    match r {
        Ok(v) => Ok(v@),
        Err(e) => Err(e),
    }
}

/// The value that the blob `blob` is closed on.
pub open spec fn spec_read_blob(blob: Seq<u8>) -> Result<ValueView, InputError> {
    if blob.len() > MAX_BLOB_LEN {
        Err(InputError::Twine(Error { msg: MSG_TOO_LONG, off: 0 }))
    } else {
        match spec_read_from_entrypoint(blob) {
            Err(e) => Err(InputError::Twine(e)),
            Ok(v) => Ok(v),
        }
    }
}

/// Reads the value that the blob `blob` is closed on.
pub fn read_blob(blob: &[u8]) -> (r: Result<Value, InputError>)
    ensures
        input_view(r) == spec_read_blob(blob@),
{
    let dec = match Decoder::new(blob) {
        Err(e) => {
            return Err(InputError::Twine(e));
        },
        Ok(dec) => dec,
    };
    match read_value_from_entrypoint(&dec) {
        Err(e) => Err(InputError::Twine(e)),
        Ok(v) => Ok(v),
    }
}

/// The blob that the input holds: `data` itself, or with `i_hex` the
/// bytes that its hexadecimal text stands for.
pub open spec fn spec_input_blob(data: Seq<u8>, i_hex: bool) -> Result<Seq<u8>, HexError> {
    if i_hex {
        unhex(data)
    } else {
        Ok(data)
    }
}

/// Gives the blob that the input holds: a copy of `data`, or with `i_hex`
/// the bytes that its hexadecimal text stands for.
pub fn input_blob(data: &[u8], i_hex: bool) -> (r: Result<Vec<u8>, HexError>)
    ensures
        unhex_view(r) == spec_input_blob(data@, i_hex),
{
    if i_hex {
        hex_decode(data)
    } else {
        Ok(slice_to_vec(data))
    }
}

/// The result of a run, with the value taken by its view.
pub open spec fn run_view(r: Result<(Value, usize), InputError>) -> Result<
    (ValueView, usize),
    InputError,
> {
    match r {
        Ok((v, len)) => Ok((v@, len)),
        Err(e) => Err(e),
    }
}

/// What a run over the input `data` finds: the value that the blob is
/// closed on, and the number of bytes of the blob.
pub open spec fn spec_run(data: Seq<u8>, i_hex: bool) -> Result<(ValueView, usize), InputError> {
    match spec_input_blob(data, i_hex) {
        Err(e) => Err(InputError::Hex(e)),
        Ok(blob) => match spec_read_blob(blob) {
            Err(e) => Err(e),
            Ok(v) => Ok((v, blob.len() as usize)),
        },
    }
}

/// Does what `cli` asks for with the content `data` of its input file:
/// takes `data` as a blob, or as the hexadecimal text of one if `cli`
/// says so, and reads the value that the blob is closed on. Returns the
/// value and the number of bytes of the blob.
pub fn run(cli: &Dump, data: &[u8]) -> (r: Result<(Value, usize), InputError>)
    ensures
        run_view(r) == spec_run(data@, cli.input.i_hex),
{
    let blob = match input_blob(data, cli.input.i_hex) {
        Err(e) => {
            return Err(InputError::Hex(e));
        },
        Ok(blob) => blob,
    };
    match read_blob(blob.as_slice()) {
        Err(e) => Err(e),
        Ok(v) => Ok((v, blob.len())),
    }
}

} // verus!
