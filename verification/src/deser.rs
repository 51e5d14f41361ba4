//! The decoder: reads one value at an offset of a blob, without going
//! into the values it holds.

use crate::leb128::{dec_leb128, leb128_read, MSG_OUT_OF_BOUNDS};
use crate::shallow_value::{ArrayCursor, CursorView, MapCursor, ShallowValue, ShallowView};
use crate::types::{
    Error, FloatBits, Immediate, ImmediateView, Offset, Result, Tag, VariantIdx,
};
use vstd::prelude::*;
use vstd::slice::slice_subrange;
use vstd::utf8::{decode_utf8, encode_utf8, encode_utf8_decode_utf8, valid_utf8};

verus! {

/// Message of the error for a blob of more than `MAX_BLOB_LEN` bytes.
pub const MSG_TOO_LONG: &'static str = "byte buffer is too long";

/// Message of the error for a number behind a kind nibble that does not fit
/// 64 bits.
pub const MSG_U64_OVERFLOW: &'static str = "u64 overflow";

/// Message of the error for a pointer, or a last byte, that points below
/// the start of the blob.
pub const MSG_POINTER_UNDERFLOW: &'static str = "pointer underflow";

/// Message of the error for a text or binary data to pass over whose length
/// does not fit 32 bits.
pub const MSG_LENGTH_OVERFLOW: &'static str = "length overflow";

/// Message of the error for an array, a map or a tag where an immediate was
/// to be passed over.
pub const MSG_SKIP_COMPOSITE: &'static str = "cannot skip over array/dict/tag";

/// Message of the error for a constructor with arguments where an immediate
/// was to be passed over.
pub const MSG_SKIP_CSTOR: &'static str = "cannot skip over constructor";

/// Message of the error for a reserved kind nibble where an immediate was
/// to be passed over.
pub const MSG_RESERVED: &'static str = "tag is reserved";

/// Message of the error for an integer whose magnitude does not fit 63
/// bits.
pub const MSG_I64_OVERFLOW: &'static str = "i64 overflow";

/// Message of the error for a text that is not valid UTF-8.
pub const MSG_BAD_STRING: &'static str = "overflow in string";

/// Message of the error for a tag that does not fit 32 bits.
pub const MSG_TAG_OVERFLOW: &'static str = "tag overflow";

/// Message of the error for an array whose count of items does not fit 32
/// bits.
pub const MSG_ARRAY_OVERFLOW: &'static str = "Size overflow for array";

/// Message of the error for a map whose count of entries does not fit 32
/// bits.
pub const MSG_DICT_OVERFLOW: &'static str = "Size overflow for dict";

/// Message of the error for a constructor whose index does not fit 32 bits.
pub const MSG_CSTOR_OVERFLOW: &'static str = "cstor overflow";

/// Message of the error for a constructor whose count of arguments does not
/// fit 32 bits.
pub const MSG_CSTOR_ARGS_OVERFLOW: &'static str = "overflow in cstor arguments";

/// Message of the error for a low nibble that names no atom.
pub const MSG_INVALID_ATOM: &'static str = "invalid value with high=0";

/// Message of the error for a reference that points below the start of the
/// blob.
pub const MSG_REF_UNDERFLOW: &'static str = "ref underflow";

/// Message of the error for a reserved kind nibble where a value was to be
/// read.
pub const MSG_INVALID: &'static str = "invalid value";

/// Message of the error for a value that is no integer where one was asked
/// for.
pub const MSG_EXPECTED_INTEGER: &'static str = "expected integer";

/// Message of the error for a value that is no boolean where one was asked
/// for.
pub const MSG_EXPECTED_BOOL: &'static str = "expected bool";

/// Message of the error for a value that is not null where null was asked
/// for.
pub const MSG_EXPECTED_NULL: &'static str = "expected null";

/// Message of the error for a value that is no floating-point number where
/// one was asked for, or a floating-point number of unknown width.
pub const MSG_EXPECTED_FLOAT: &'static str = "expected float";

/// Message of the error for a value that is no text where one was asked
/// for.
pub const MSG_EXPECTED_STRING: &'static str = "expected string";

/// Message of the error for a value that is no binary data where some was
/// asked for.
pub const MSG_EXPECTED_BYTES: &'static str = "expected bytes";

/// Message of the error for a value that is no array where one was asked
/// for.
pub const MSG_EXPECTED_ARRAY: &'static str = "expected array";

/// Message of the error for a value that is no map where one was asked for.
pub const MSG_EXPECTED_DICT: &'static str = "expected dict";

/// Message of the error for a value that is no tag where one was asked for.
pub const MSG_EXPECTED_TAG: &'static str = "expected tag";

/// Message of the error for a value that is no constructor where one was
/// asked for.
pub const MSG_EXPECTED_CSTOR: &'static str = "expected cstor";

/// The largest blob that a decoder takes, in bytes.
pub const MAX_BLOB_LEN: usize = 0xffff_ffff;

/// The two nibbles of the byte at `off`.
pub open spec fn spec_first_byte(bs: Seq<u8>, off: Offset) -> Result<(u8, u8)> {
    if off >= bs.len() {
        Err(Error { msg: MSG_OUT_OF_BOUNDS, off })
    } else {
        Ok((bs[off as int] / 16, bs[off as int] % 16))
    }
}

/// The number that follows a kind nibble at `off`, with the count of
/// bytes it takes after the first: `low` itself below 15, else 15 more
/// than the LEB128 number behind the first byte.
pub open spec fn spec_u64_with_low(bs: Seq<u8>, off: Offset, low: u8) -> Result<(u64, Offset)> {
    if low < 15 {
        Ok((low as u64, 0))
    } else if off >= bs.len() {
        Err(Error { msg: MSG_OUT_OF_BOUNDS, off })
    } else {
        match leb128_read(bs, (off + 1) as u64) {
            Err(e) => Err(e),
            Ok((rest, n)) => if rest > u64::MAX - 15 {
                Err(Error { msg: MSG_U64_OVERFLOW, off })
            } else {
                Ok(((rest + 15) as u64, n as Offset))
            },
        }
    }
}

/// The target of the back-reference at `off` that holds the distance
/// `delta`, where there is one.
pub open spec fn back_target(off: Offset, delta: u64) -> Option<Offset> {
    if delta < off {
        Some((off - delta - 1) as Offset)
    } else {
        None
    }
}

/// The offset reached from `off` by following pointers until a value that
/// is no pointer.
pub open spec fn spec_deref(bs: Seq<u8>, off: Offset) -> Result<Offset>
    decreases off,
{
    match spec_first_byte(bs, off) {
        Err(e) => Err(e),
        Ok((high, low)) => if high != 15 {
            Ok(off)
        } else {
            match spec_u64_with_low(bs, off, low) {
                Err(e) => Err(e),
                Ok((delta, _)) => match back_target(off, delta) {
                    None => Err(Error { msg: MSG_POINTER_UNDERFLOW, off }),
                    Some(target) => spec_deref(bs, target),
                },
            }
        },
    }
}

/// The offset behind the immediate at `off`. Values that hold others
/// (arrays, maps, tags, constructors with arguments) cannot be skipped.
pub open spec fn spec_skip(bs: Seq<u8>, off: Offset) -> Result<Offset> {
    match spec_first_byte(bs, off) {
        Err(e) => Err(e),
        Ok((high, low)) => if high == 0 {
            Ok((off + 1) as Offset)
        } else if high == 3 {
            Ok((off + if low == 0 { 5int } else { 9int }) as Offset)
        } else if high == 6 || high == 7 || high == 8 {
            Err(Error { msg: MSG_SKIP_COMPOSITE, off })
        } else if high == 9 || high == 13 {
            Err(Error { msg: MSG_RESERVED, off })
        } else if high == 11 || high == 12 {
            Err(Error { msg: MSG_SKIP_CSTOR, off })
        } else {
            match spec_u64_with_low(bs, off, low) {
                Err(e) => Err(e),
                Ok((n, n_bytes)) => if high == 4 || high == 5 {
                    if n > u32::MAX {
                        Err(Error { msg: MSG_LENGTH_OVERFLOW, off })
                    } else {
                        Ok((off + 1 + n_bytes + n) as Offset)
                    }
                } else {
                    Ok((off + 1 + n_bytes) as Offset)
                },
            }
        },
    }
}

/// The integer of a value of kind 1 at `off`: the number behind the kind
/// nibble.
pub open spec fn spec_i64_pos(bs: Seq<u8>, off: Offset, low: u8) -> Result<i64> {
    match spec_u64_with_low(bs, off, low) {
        Err(e) => Err(e),
        Ok((x, _)) => if x > i64::MAX {
            Err(Error { msg: MSG_I64_OVERFLOW, off })
        } else {
            Ok(x as i64)
        },
    }
}

/// The integer of a value of kind 2 at `off`: for the number `x` behind
/// the kind nibble, `-x - 1`.
pub open spec fn spec_i64_neg(bs: Seq<u8>, off: Offset, low: u8) -> Result<i64> {
    match spec_u64_with_low(bs, off, low) {
        Err(e) => Err(e),
        Ok((x, _)) => if x > i64::MAX {
            Err(Error { msg: MSG_I64_OVERFLOW, off })
        } else {
            Ok((-x - 1) as i64)
        },
    }
}

/// Where the bytes of a text or of binary data at `off` start, and the
/// bytes: as many as the number behind the kind nibble says.
pub open spec fn spec_payload(bs: Seq<u8>, off: Offset, low: u8) -> Result<(Offset, Seq<u8>)> {
    match spec_u64_with_low(bs, off, low) {
        Err(e) => Err(e),
        Ok((len, n_bytes)) => {
            let start = off + 1 + n_bytes;
            if start + len > bs.len() {
                Err(Error { msg: MSG_OUT_OF_BOUNDS, off: start as Offset })
            } else {
                Ok((start as Offset, bs.subrange(start, start + len)))
            }
        },
    }
}

/// The binary data at `off`.
pub open spec fn spec_bytes(bs: Seq<u8>, off: Offset, low: u8) -> Result<Seq<u8>> {
    match spec_payload(bs, off, low) {
        Err(e) => Err(e),
        Ok((_, payload)) => Ok(payload),
    }
}

/// The text at `off`: its bytes must be valid UTF-8.
pub open spec fn spec_str(bs: Seq<u8>, off: Offset, low: u8) -> Result<Seq<char>> {
    match spec_payload(bs, off, low) {
        Err(e) => Err(e),
        Ok((start, payload)) => if valid_utf8(payload) {
            Ok(decode_utf8(payload))
        } else {
            Err(Error { msg: MSG_BAD_STRING, off: start })
        },
    }
}

/// The number whose bytes, least significant first, are the `n` bytes of
/// `bs` from `at` on.
pub open spec fn le_value(bs: Seq<u8>, at: int, n: nat) -> nat
    decreases n,
{
    if n == 0 {
        0
    } else {
        bs[at] as nat + 256 * le_value(bs, at + 1, (n - 1) as nat)
    }
}

/// The bits of the floating-point number at `off`: four bytes behind a
/// low nibble 0, eight behind a low nibble 1, least significant first.
pub open spec fn spec_float(bs: Seq<u8>, off: Offset, low: u8) -> Result<FloatBits> {
    if low == 0 {
        if off + 5 > bs.len() {
            Err(Error { msg: MSG_OUT_OF_BOUNDS, off })
        } else {
            Ok(FloatBits::Single(le_value(bs, off + 1, 4) as u32))
        }
    } else if low == 1 {
        if off + 9 > bs.len() {
            Err(Error { msg: MSG_OUT_OF_BOUNDS, off })
        } else {
            Ok(FloatBits::Double(le_value(bs, off + 1, 8) as u64))
        }
    } else {
        Err(Error { msg: MSG_EXPECTED_FLOAT, off })
    }
}

/// The tag at `off` and the offset of the value it is attached to.
pub open spec fn spec_tag(bs: Seq<u8>, off: Offset, low: u8) -> Result<(Tag, Offset)> {
    match spec_u64_with_low(bs, off, low) {
        Err(e) => Err(e),
        Ok((tag, n_bytes)) => if tag > u32::MAX {
            Err(Error { msg: MSG_TAG_OVERFLOW, off })
        } else {
            Ok((tag as Tag, (off + 1 + n_bytes) as Offset))
        },
    }
}

/// The cursor over the items of the array, or the entries of the map, at
/// `off`; `msg` is the message for a count that does not fit 32 bits.
pub open spec fn spec_cursor(bs: Seq<u8>, off: Offset, low: u8, msg: &'static str) -> Result<
    CursorView,
> {
    match spec_u64_with_low(bs, off, low) {
        Err(e) => Err(e),
        Ok((len, n_bytes)) => if len > u32::MAX {
            Err(Error { msg, off })
        } else {
            Ok(CursorView { bytes: bs, off: (off + 1 + n_bytes) as Offset, n_items: len as u32 })
        },
    }
}

/// The constructor at `off` and the cursor over its arguments. Its index
/// is checked last: an index that does not fit 32 bits is reported at the
/// offset that reading has reached by then.
pub open spec fn spec_cstor(bs: Seq<u8>, off: Offset, high: u8, low: u8) -> Result<
    (VariantIdx, CursorView),
> {
    if high != 10 && high != 11 && high != 12 {
        Err(Error { msg: MSG_EXPECTED_CSTOR, off })
    } else {
        match spec_u64_with_low(bs, off, low) {
            Err(e) => Err(e),
            Ok((idx, n_bytes)) => if high == 10 {
                if idx > u32::MAX {
                    Err(Error { msg: MSG_CSTOR_OVERFLOW, off })
                } else {
                    Ok((VariantIdx(idx as u32), CursorView { bytes: bs, off, n_items: 0 }))
                }
            } else if high == 11 {
                if idx > u32::MAX {
                    Err(Error { msg: MSG_CSTOR_OVERFLOW, off })
                } else {
                    Ok(
                        (
                            VariantIdx(idx as u32),
                            CursorView {
                                bytes: bs,
                                off: (off + 1 + n_bytes) as Offset,
                                n_items: 1,
                            },
                        ),
                    )
                }
            } else {
                let count_at = (off + 1 + n_bytes) as Offset;
                match leb128_read(bs, count_at) {
                    Err(e) => Err(e),
                    Ok((n_items, n_bytes_count)) => {
                        let args_at = (count_at + n_bytes_count) as Offset;
                        if n_items > u32::MAX {
                            Err(Error { msg: MSG_CSTOR_ARGS_OVERFLOW, off: count_at })
                        } else if idx > u32::MAX {
                            Err(Error { msg: MSG_CSTOR_OVERFLOW, off: args_at })
                        } else {
                            Ok(
                                (
                                    VariantIdx(idx as u32),
                                    CursorView {
                                        bytes: bs,
                                        off: args_at,
                                        n_items: n_items as u32,
                                    },
                                ),
                            )
                        }
                    },
                }
            },
        }
    }
}

/// The explicit reference at `off`.
pub open spec fn spec_ref(bs: Seq<u8>, off: Offset, low: u8) -> Result<Offset> {
    match spec_u64_with_low(bs, off, low) {
        Err(e) => Err(e),
        Ok((delta, _)) => match back_target(off, delta) {
            None => Err(Error { msg: MSG_REF_UNDERFLOW, off }),
            Some(target) => Ok(target),
        },
    }
}

/// One layer of the value that starts at `off`, with no pointer followed.
pub open spec fn spec_shallow_at(bs: Seq<u8>, off: Offset) -> Result<ShallowView> {
    match spec_first_byte(bs, off) {
        Err(e) => Err(e),
        Ok((high, low)) => if high == 0 {
            if low == 2 {
                Ok(ShallowView::Imm(ImmediateView::Null))
            } else if low == 0 {
                Ok(ShallowView::Imm(ImmediateView::Bool(false)))
            } else if low == 1 {
                Ok(ShallowView::Imm(ImmediateView::Bool(true)))
            } else {
                Err(Error { msg: MSG_INVALID_ATOM, off })
            }
        } else if high == 1 {
            match spec_i64_pos(bs, off, low) {
                Err(e) => Err(e),
                Ok(i) => Ok(ShallowView::Imm(ImmediateView::Int64(i))),
            }
        } else if high == 2 {
            match spec_i64_neg(bs, off, low) {
                Err(e) => Err(e),
                Ok(i) => Ok(ShallowView::Imm(ImmediateView::Int64(i))),
            }
        } else if high == 3 {
            match spec_float(bs, off, low) {
                Err(e) => Err(e),
                Ok(f) => Ok(ShallowView::Imm(ImmediateView::Float(f))),
            }
        } else if high == 4 {
            match spec_str(bs, off, low) {
                Err(e) => Err(e),
                Ok(s) => Ok(ShallowView::Imm(ImmediateView::String(s))),
            }
        } else if high == 5 {
            match spec_bytes(bs, off, low) {
                Err(e) => Err(e),
                Ok(b) => Ok(ShallowView::Imm(ImmediateView::Bytes(b))),
            }
        } else if high == 6 {
            match spec_cursor(bs, off, low, MSG_ARRAY_OVERFLOW) {
                Err(e) => Err(e),
                Ok(c) => Ok(ShallowView::Array(c)),
            }
        } else if high == 7 {
            match spec_cursor(bs, off, low, MSG_DICT_OVERFLOW) {
                Err(e) => Err(e),
                Ok(c) => Ok(ShallowView::Dict(c)),
            }
        } else if high == 8 {
            match spec_tag(bs, off, low) {
                Err(e) => Err(e),
                Ok((tag, child)) => Ok(ShallowView::Tag(tag, child)),
            }
        } else if high == 10 || high == 11 || high == 12 {
            match spec_cstor(bs, off, high, low) {
                Err(e) => Err(e),
                Ok((idx, args)) => Ok(ShallowView::Cstor(idx, args)),
            }
        } else if high == 14 {
            match spec_ref(bs, off, low) {
                Err(e) => Err(e),
                Ok(target) => Ok(ShallowView::Imm(ImmediateView::Ref(target))),
            }
        } else {
            Err(Error { msg: MSG_INVALID, off })
        },
    }
}

/// One layer of the value at `off`, after the pointers from `off` on have
/// been followed.
pub open spec fn spec_shallow(bs: Seq<u8>, off: Offset) -> Result<ShallowView> {
    match spec_deref(bs, off) {
        Err(e) => Err(e),
        Ok(target) => spec_shallow_at(bs, target),
    }
}

/// Where the value that a blob is closed on starts: the last byte, plus
/// one, is taken from its own offset, and pointers are followed from
/// there.
pub open spec fn spec_entrypoint(bs: Seq<u8>) -> Result<Offset> {
    if bs.len() == 0 {
        Err(Error { msg: MSG_OUT_OF_BOUNDS, off: 0 })
    } else {
        let last = (bs.len() - 1) as Offset;
        match back_target(last, bs[last as int] as u64) {
            None => Err(Error { msg: MSG_POINTER_UNDERFLOW, off: last }),
            Some(target) => spec_deref(bs, target),
        }
    }
}

/// What a typed read gives for a value of another kind: `msg` at the
/// offset that was asked for.
pub open spec fn mismatch<T>(msg: &'static str, off: Offset) -> Result<T> {
    Err(Error { msg, off })
}

/// The integer at `off`.
pub open spec fn spec_get_i64(bs: Seq<u8>, off: Offset) -> Result<i64> {
    match spec_shallow(bs, off) {
        Err(e) => Err(e),
        Ok(ShallowView::Imm(ImmediateView::Int64(i))) => Ok(i),
        Ok(_) => mismatch(MSG_EXPECTED_INTEGER, off),
    }
}

/// The boolean at `off`.
pub open spec fn spec_get_bool(bs: Seq<u8>, off: Offset) -> Result<bool> {
    match spec_shallow(bs, off) {
        Err(e) => Err(e),
        Ok(ShallowView::Imm(ImmediateView::Bool(b))) => Ok(b),
        Ok(_) => mismatch(MSG_EXPECTED_BOOL, off),
    }
}

/// Whether null stands at `off`.
pub open spec fn spec_get_null(bs: Seq<u8>, off: Offset) -> Result<()> {
    match spec_shallow(bs, off) {
        Err(e) => Err(e),
        Ok(ShallowView::Imm(ImmediateView::Null)) => Ok(()),
        Ok(_) => mismatch(MSG_EXPECTED_NULL, off),
    }
}

/// The bits of the floating-point number at `off`.
pub open spec fn spec_get_float(bs: Seq<u8>, off: Offset) -> Result<FloatBits> {
    match spec_shallow(bs, off) {
        Err(e) => Err(e),
        Ok(ShallowView::Imm(ImmediateView::Float(f))) => Ok(f),
        Ok(_) => mismatch(MSG_EXPECTED_FLOAT, off),
    }
}

/// The text at `off`.
pub open spec fn spec_get_str(bs: Seq<u8>, off: Offset) -> Result<Seq<char>> {
    match spec_shallow(bs, off) {
        Err(e) => Err(e),
        Ok(ShallowView::Imm(ImmediateView::String(s))) => Ok(s),
        Ok(_) => mismatch(MSG_EXPECTED_STRING, off),
    }
}

/// The binary data at `off`.
pub open spec fn spec_get_bytes(bs: Seq<u8>, off: Offset) -> Result<Seq<u8>> {
    match spec_shallow(bs, off) {
        Err(e) => Err(e),
        Ok(ShallowView::Imm(ImmediateView::Bytes(b))) => Ok(b),
        Ok(_) => mismatch(MSG_EXPECTED_BYTES, off),
    }
}

/// The tag at `off` and the offset of the value it is attached to.
pub open spec fn spec_get_tag(bs: Seq<u8>, off: Offset) -> Result<(Tag, Offset)> {
    match spec_shallow(bs, off) {
        Err(e) => Err(e),
        Ok(ShallowView::Tag(tag, child)) => Ok((tag, child)),
        Ok(_) => mismatch(MSG_EXPECTED_TAG, off),
    }
}

/// How a walk over a cursor ends: well, or on its first failure.
pub open spec fn walk_result(failure: Option<Error>) -> Result<()> {
    match failure {
        None => Ok(()),
        Some(e) => Err(e),
    }
}

/// The offsets of the items of the array at `off` that can be reached,
/// and how reading them ends.
pub open spec fn spec_get_array(bs: Seq<u8>, off: Offset) -> (Seq<Offset>, Result<()>) {
    match spec_shallow(bs, off) {
        Err(e) => (Seq::empty(), Err(e)),
        Ok(ShallowView::Array(c)) => (c.offsets(), walk_result(c.failure())),
        Ok(_) => (Seq::empty(), mismatch(MSG_EXPECTED_ARRAY, off)),
    }
}

/// The offsets of the entries of the map at `off` that can be reached,
/// and how reading them ends.
pub open spec fn spec_get_dict(bs: Seq<u8>, off: Offset) -> (Seq<(Offset, Offset)>, Result<()>) {
    match spec_shallow(bs, off) {
        Err(e) => (Seq::empty(), Err(e)),
        Ok(ShallowView::Dict(c)) => (c.pairs(), walk_result(c.pair_failure())),
        Ok(_) => (Seq::empty(), mismatch(MSG_EXPECTED_DICT, off)),
    }
}

/// The offsets of the arguments of the constructor at `off` that can be
/// reached, and its index or how reading them fails.
pub open spec fn spec_get_cstor(bs: Seq<u8>, off: Offset) -> (Seq<Offset>, Result<VariantIdx>) {
    match spec_shallow(bs, off) {
        Err(e) => (Seq::empty(), Err(e)),
        Ok(ShallowView::Cstor(idx, c)) => (
            c.offsets(),
            match c.failure() {
                None => Ok(idx),
                Some(e) => Err(e),
            },
        ),
        Ok(_) => (Seq::empty(), mismatch(MSG_EXPECTED_CSTOR, off)),
    }
}

/// Following pointers ends on a value that is no pointer, at or before
/// the offset it started from.
pub proof fn lemma_deref_target(bs: Seq<u8>, off: Offset)
    ensures
        spec_deref(bs, off) matches Ok(target) ==> target <= off && target < bs.len() && bs[target as int]
            / 16 != 15,
    decreases off,
{
    if let Ok((high, low)) = spec_first_byte(bs, off) {
        if high == 15 {
            if let Ok((delta, _)) = spec_u64_with_low(bs, off, low) {
                if let Some(target) = back_target(off, delta) {
                    lemma_deref_target(bs, target);
                }
            }
        }
    }
}

/// The result of a read, with what was read taken by its view.
pub open spec fn text_view(r: Result<&str>) -> Result<Seq<char>> {
    match r {
        Ok(s) => Ok(s@),
        Err(e) => Err(e),
    }
}

/// The result of a read, with what was read taken by its view.
pub open spec fn payload_view(r: Result<(Offset, &[u8])>) -> Result<(Offset, Seq<u8>)> {
    match r {
        Ok((start, b)) => Ok((start, b@)),
        Err(e) => Err(e),
    }
}

/// The result of a read, with what was read taken by its view.
pub open spec fn bytes_view(r: Result<&[u8]>) -> Result<Seq<u8>> {
    match r {
        Ok(b) => Ok(b@),
        Err(e) => Err(e),
    }
}

/// The result of a read, with what was read taken by its view.
pub open spec fn array_cursor_view(r: Result<ArrayCursor>) -> Result<CursorView> {
    match r {
        Ok(c) => Ok(c@),
        Err(e) => Err(e),
    }
}

/// The result of a read, with what was read taken by its view.
pub open spec fn map_cursor_view(r: Result<MapCursor>) -> Result<CursorView> {
    match r {
        Ok(c) => Ok(c@),
        Err(e) => Err(e),
    }
}

/// The result of a read, with what was read taken by its view.
pub open spec fn cstor_view(r: Result<(VariantIdx, ArrayCursor)>) -> Result<
    (VariantIdx, CursorView),
> {
    match r {
        Ok((idx, c)) => Ok((idx, c@)),
        Err(e) => Err(e),
    }
}

/// The result of a read, with what was read taken by its view.
pub open spec fn shallow_view(r: Result<ShallowValue>) -> Result<ShallowView> {
    match r {
        Ok(v) => Ok(v@),
        Err(e) => Err(e),
    }
}

/// `core::str::from_utf8`: the text that `b` spells where `b` is valid
/// UTF-8, and nothing where it is not.
#[verifier::external_body]
fn text_of_utf8<'a>(b: &'a [u8]) -> (r: Option<&'a str>)
    ensures
        r is Some <==> valid_utf8(b@),
        r matches Some(s) ==> encode_utf8(s@) == b@,
{
    match core::str::from_utf8(b) {
        Ok(s) => Some(s),
        Err(_) => None,
    }
}

/// A reader of a twine blob.
#[derive(Debug, Clone, Copy)]
pub struct Decoder<'a> {
    bs: &'a [u8],
}

impl<'a> View for Decoder<'a> {
    type V = Seq<u8>;

    /// The bytes of the blob.
    closed spec fn view(&self) -> Seq<u8> {
        self.bs@
    }
}

impl<'a> Decoder<'a> {
    /// A decoder never holds more than `MAX_BLOB_LEN` bytes.
    #[verifier::type_invariant]
    spec fn wf(&self) -> bool {
        self.bs@.len() <= MAX_BLOB_LEN
    }

    /// Makes a decoder that reads from `bs`, which may hold at most
    /// `MAX_BLOB_LEN` bytes.
    pub fn new(bs: &'a [u8]) -> (r: Result<Self>)
        ensures
            bs@.len() <= MAX_BLOB_LEN <==> r is Ok,
            r matches Ok(d) ==> d@ == bs@,
            r matches Err(e) ==> e == (Error { msg: MSG_TOO_LONG, off: 0 }),
    {
        if bs.len() > MAX_BLOB_LEN {
            return Err(Error { msg: MSG_TOO_LONG, off: 0 });
        }
        Ok(Decoder { bs })
    }

    /// The number of bytes in the blob.
    pub fn len(&self) -> (n: usize)
        ensures
            n == self@.len(),
            n <= MAX_BLOB_LEN,
    {
        proof {
            use_type_invariant(self);
        }
        self.bs.len()
    }

    /// Reads the two nibbles of the byte at `off`: high, then low.
    pub fn first_byte(&self, off: Offset) -> (r: Result<(u8, u8)>)
        ensures
            r == spec_first_byte(self@, off),
    {
        if off >= self.bs.len() as u64 {
            return Err(Error { msg: MSG_OUT_OF_BOUNDS, off });
        }
        let c = self.bs[off as usize];
        Ok((c / 16, c % 16))
    }

    /// Reads a LEB128 integer at `off`: its value and how many bytes it
    /// takes.
    pub fn leb128(&self, off: Offset) -> (r: Result<(u64, u8)>)
        ensures
            r == leb128_read(self@, off),
    {
        dec_leb128(self.bs, off)
    }

    /// Reads the number that follows the kind nibble of the byte at
    /// `off`, whose low nibble is `low`.
    pub fn u64_with_low(&self, off: Offset, low: u8) -> (r: Result<(u64, Offset)>)
        ensures
            r == spec_u64_with_low(self@, off, low),
    {
        if low < 15 {
            return Ok((low as u64, 0));
        }
        if off >= self.bs.len() as u64 {
            return Err(Error { msg: MSG_OUT_OF_BOUNDS, off });
        }
        match self.leb128(off + 1) {
            Err(e) => Err(e),
            Ok((rest, consumed)) => {
                if rest > u64::MAX - 15 {
                    Err(Error { msg: MSG_U64_OVERFLOW, off })
                } else {
                    Ok((rest + 15, consumed as Offset))
                }
            },
        }
    }

    /// Follows the pointers from `off` on and returns the offset of the
    /// first value that is no pointer.
    pub fn deref(&self, off: Offset) -> (r: Result<Offset>)
        ensures
            r == spec_deref(self@, off),
    {
        let mut cur: Offset = off;
        loop
            invariant
                spec_deref(self@, off) == spec_deref(self@, cur),
            decreases cur,
        {
            let (high, low) = match self.first_byte(cur) {
                Err(e) => { return Err(e); },
                Ok(hl) => hl,
            };
            if high != 15 {
                return Ok(cur);
            }
            let delta = match self.u64_with_low(cur, low) {
                Err(e) => { return Err(e); },
                Ok((delta, _)) => delta,
            };
            if delta >= cur {
                return Err(Error { msg: MSG_POINTER_UNDERFLOW, off: cur });
            }
            cur = cur - delta - 1;
        }
    }

    /// Returns the offset behind the immediate at `off`.
    pub fn skip(&self, off: Offset) -> (r: Result<Offset>)
        ensures
            r == spec_skip(self@, off),
    {
        proof {
            use_type_invariant(self);
        }
        let (high, low) = match self.first_byte(off) {
            Err(e) => { return Err(e); },
            Ok(hl) => hl,
        };
        if high == 0 {
            Ok(off + 1)
        } else if high == 3 {
            if low == 0 {
                Ok(off + 5)
            } else {
                Ok(off + 9)
            }
        } else if high == 6 || high == 7 || high == 8 {
            Err(Error { msg: MSG_SKIP_COMPOSITE, off })
        } else if high == 9 || high == 13 {
            Err(Error { msg: MSG_RESERVED, off })
        } else if high == 11 || high == 12 {
            Err(Error { msg: MSG_SKIP_CSTOR, off })
        } else {
            match self.u64_with_low(off, low) {
                Err(e) => Err(e),
                Ok((n, n_bytes)) => {
                    if high == 4 || high == 5 {
                        if n > u32::MAX as u64 {
                            Err(Error { msg: MSG_LENGTH_OVERFLOW, off })
                        } else {
                            Ok(off + 1 + n_bytes + n)
                        }
                    } else {
                        Ok(off + 1 + n_bytes)
                    }
                },
            }
        }
    }

    /// Reads the integer of the value of kind 1 at `off`.
    fn i64_pos(&self, off: Offset, low: u8) -> (r: Result<i64>)
        ensures
            r == spec_i64_pos(self@, off, low),
    {
        match self.u64_with_low(off, low) {
            Err(e) => Err(e),
            Ok((x, _)) => {
                if x > i64::MAX as u64 {
                    Err(Error { msg: MSG_I64_OVERFLOW, off })
                } else {
                    Ok(x as i64)
                }
            },
        }
    }

    /// Reads the integer of the value of kind 2 at `off`.
    fn i64_neg(&self, off: Offset, low: u8) -> (r: Result<i64>)
        ensures
            r == spec_i64_neg(self@, off, low),
    {
        match self.u64_with_low(off, low) {
            Err(e) => Err(e),
            Ok((x, _)) => {
                if x > i64::MAX as u64 {
                    Err(Error { msg: MSG_I64_OVERFLOW, off })
                } else {
                    Ok(-(x as i64) - 1)
                }
            },
        }
    }

    /// Finds the bytes of the text or binary data at `off`, and where they
    /// start.
    fn payload(&self, off: Offset, low: u8) -> (r: Result<(Offset, &'a [u8])>)
        requires
            off < self@.len(),
        ensures
            payload_view(r) == spec_payload(self@, off, low),
    {
        proof {
            use_type_invariant(self);
        }
        match self.u64_with_low(off, low) {
            Err(e) => Err(e),
            Ok((len, n_bytes)) => {
                let start = off + 1 + n_bytes;
                let total = self.bs.len() as u64;
                if start > total || len > total - start {
                    Err(Error { msg: MSG_OUT_OF_BOUNDS, off: start })
                } else {
                    Ok((start, slice_subrange(self.bs, start as usize, (start + len) as usize)))
                }
            },
        }
    }

    /// Reads the binary data at `off`.
    fn bytes(&self, off: Offset, low: u8) -> (r: Result<&'a [u8]>)
        requires
            off < self@.len(),
        ensures
            bytes_view(r) == spec_bytes(self@, off, low),
    {
        match self.payload(off, low) {
            Err(e) => Err(e),
            Ok((_, payload)) => Ok(payload),
        }
    }

    /// Reads the text at `off`.
    fn str(&self, off: Offset, low: u8) -> (r: Result<&'a str>)
        requires
            off < self@.len(),
        ensures
            text_view(r) == spec_str(self@, off, low),
    {
        match self.payload(off, low) {
            Err(e) => Err(e),
            Ok((start, payload)) => match text_of_utf8(payload) {
                None => Err(Error { msg: MSG_BAD_STRING, off: start }),
                Some(s) => {
                    proof {
                        encode_utf8_decode_utf8(s@);
                    }
                    Ok(s)
                },
            },
        }
    }

    /// Reads the bits of the floating-point number at `off`.
    fn float(&self, off: Offset, low: u8) -> (r: Result<FloatBits>)
        requires
            off < self@.len(),
        ensures
            r == spec_float(self@, off, low),
    {
        proof {
            use_type_invariant(self);
            reveal_with_fuel(le_value, 9);
        }
        let total = self.bs.len() as u64;
        if low == 0 {
            if off + 5 > total {
                return Err(Error { msg: MSG_OUT_OF_BOUNDS, off });
            }
            let at = (off + 1) as usize;
            let bits: u32 = self.bs[at] as u32 + 0x100 * (self.bs[at + 1] as u32) + 0x1_0000 * (
            self.bs[at + 2] as u32) + 0x100_0000 * (self.bs[at + 3] as u32);
            Ok(FloatBits::Single(bits))
        } else if low == 1 {
            if off + 9 > total {
                return Err(Error { msg: MSG_OUT_OF_BOUNDS, off });
            }
            let at = (off + 1) as usize;
            let lo: u64 = self.bs[at] as u64 + 0x100 * (self.bs[at + 1] as u64) + 0x1_0000 * (
            self.bs[at + 2] as u64) + 0x100_0000 * (self.bs[at + 3] as u64);
            let hi: u64 = self.bs[at + 4] as u64 + 0x100 * (self.bs[at + 5] as u64) + 0x1_0000 * (
            self.bs[at + 6] as u64) + 0x100_0000 * (self.bs[at + 7] as u64);
            Ok(FloatBits::Double(lo + 0x1_0000_0000 * hi))
        } else {
            Err(Error { msg: MSG_EXPECTED_FLOAT, off })
        }
    }

    /// Reads the tag at `off` and finds the value it is attached to.
    fn tag(&self, off: Offset, low: u8) -> (r: Result<(Tag, Offset)>)
        requires
            off < self@.len(),
        ensures
            r == spec_tag(self@, off, low),
    {
        proof {
            use_type_invariant(self);
        }
        match self.u64_with_low(off, low) {
            Err(e) => Err(e),
            Ok((tag, n_bytes)) => {
                if tag > u32::MAX as u64 {
                    Err(Error { msg: MSG_TAG_OVERFLOW, off })
                } else {
                    Ok((tag as Tag, off + 1 + n_bytes))
                }
            },
        }
    }

    /// Makes the cursor over the items of the array at `off`.
    fn array_cursor(&self, off: Offset, low: u8) -> (r: Result<ArrayCursor<'a>>)
        requires
            off < self@.len(),
        ensures
            array_cursor_view(r) == spec_cursor(self@, off, low, MSG_ARRAY_OVERFLOW),
    {
        proof {
            use_type_invariant(self);
        }
        match self.u64_with_low(off, low) {
            Err(e) => Err(e),
            Ok((len, n_bytes)) => {
                if len > u32::MAX as u64 {
                    Err(Error { msg: MSG_ARRAY_OVERFLOW, off })
                } else {
                    Ok(ArrayCursor::new(*self, off + 1 + n_bytes, len as u32))
                }
            },
        }
    }

    /// Makes the cursor over the entries of the map at `off`.
    fn map_cursor(&self, off: Offset, low: u8) -> (r: Result<MapCursor<'a>>)
        requires
            off < self@.len(),
        ensures
            map_cursor_view(r) == spec_cursor(self@, off, low, MSG_DICT_OVERFLOW),
    {
        proof {
            use_type_invariant(self);
        }
        match self.u64_with_low(off, low) {
            Err(e) => Err(e),
            Ok((len, n_bytes)) => {
                if len > u32::MAX as u64 {
                    Err(Error { msg: MSG_DICT_OVERFLOW, off })
                } else {
                    Ok(MapCursor::new(*self, off + 1 + n_bytes, len as u32))
                }
            },
        }
    }

    /// Reads the constructor at `off` and makes the cursor over its
    /// arguments.
    fn cstor(&self, off: Offset, high: u8, low: u8) -> (r: Result<(VariantIdx, ArrayCursor<'a>)>)
        requires
            off < self@.len(),
        ensures
            cstor_view(r) == spec_cstor(self@, off, high, low),
    {
        proof {
            use_type_invariant(self);
        }
        if high != 10 && high != 11 && high != 12 {
            return Err(Error { msg: MSG_EXPECTED_CSTOR, off });
        }
        let (idx, n_bytes) = match self.u64_with_low(off, low) {
            Err(e) => { return Err(e); },
            Ok(r) => r,
        };
        if high == 10 {
            if idx > u32::MAX as u64 {
                return Err(Error { msg: MSG_CSTOR_OVERFLOW, off });
            }
            Ok((VariantIdx(idx as u32), ArrayCursor::new(*self, off, 0)))
        } else if high == 11 {
            if idx > u32::MAX as u64 {
                return Err(Error { msg: MSG_CSTOR_OVERFLOW, off });
            }
            Ok((VariantIdx(idx as u32), ArrayCursor::new(*self, off + 1 + n_bytes, 1)))
        } else {
            let count_at = off + 1 + n_bytes;
            let (n_items, n_bytes_count) = match self.leb128(count_at) {
                Err(e) => { return Err(e); },
                Ok(r) => r,
            };
            if n_items > u32::MAX as u64 {
                return Err(Error { msg: MSG_CSTOR_ARGS_OVERFLOW, off: count_at });
            }
            let args_at = count_at + n_bytes_count as Offset;
            if idx > u32::MAX as u64 {
                return Err(Error { msg: MSG_CSTOR_OVERFLOW, off: args_at });
            }
            Ok((VariantIdx(idx as u32), ArrayCursor::new(*self, args_at, n_items as u32)))
        }
    }

    /// Reads the target of the reference at `off`.
    fn reference(&self, off: Offset, low: u8) -> (r: Result<Offset>)
        ensures
            r == spec_ref(self@, off, low),
    {
        match self.u64_with_low(off, low) {
            Err(e) => Err(e),
            Ok((delta, _)) => {
                if delta >= off {
                    Err(Error { msg: MSG_REF_UNDERFLOW, off })
                } else {
                    Ok(off - delta - 1)
                }
            },
        }
    }

    /// Reads one layer of the value at `off`, without going into the
    /// values it holds. A pointer at `off` is followed first, so the
    /// result is never a pointer.
    pub fn get_shallow_value(&self, off: Offset) -> (r: Result<ShallowValue<'a>>)
        ensures
            shallow_view(r) == spec_shallow(self@, off),
            !(r matches Ok(ShallowValue::Imm(Immediate::Pointer(_)))),
    {
        let off = match self.deref(off) {
            Err(e) => { return Err(e); },
            Ok(target) => target,
        };
        let (high, low) = match self.first_byte(off) {
            Err(e) => { return Err(e); },
            Ok(hl) => hl,
        };
        if high == 0 {
            if low == 2 {
                Ok(ShallowValue::Imm(Immediate::Null))
            } else if low == 0 {
                Ok(ShallowValue::Imm(Immediate::Bool(false)))
            } else if low == 1 {
                Ok(ShallowValue::Imm(Immediate::Bool(true)))
            } else {
                Err(Error { msg: MSG_INVALID_ATOM, off })
            }
        } else if high == 1 {
            match self.i64_pos(off, low) {
                Err(e) => Err(e),
                Ok(i) => Ok(ShallowValue::Imm(Immediate::Int64(i))),
            }
        } else if high == 2 {
            match self.i64_neg(off, low) {
                Err(e) => Err(e),
                Ok(i) => Ok(ShallowValue::Imm(Immediate::Int64(i))),
            }
        } else if high == 3 {
            match self.float(off, low) {
                Err(e) => Err(e),
                Ok(f) => Ok(ShallowValue::Imm(Immediate::Float(f))),
            }
        } else if high == 4 {
            match self.str(off, low) {
                Err(e) => Err(e),
                Ok(s) => Ok(ShallowValue::Imm(Immediate::String(s))),
            }
        } else if high == 5 {
            match self.bytes(off, low) {
                Err(e) => Err(e),
                Ok(b) => Ok(ShallowValue::Imm(Immediate::Bytes(b))),
            }
        } else if high == 6 {
            match self.array_cursor(off, low) {
                Err(e) => Err(e),
                Ok(c) => Ok(ShallowValue::Array(c)),
            }
        } else if high == 7 {
            match self.map_cursor(off, low) {
                Err(e) => Err(e),
                Ok(c) => Ok(ShallowValue::Dict(c)),
            }
        } else if high == 8 {
            match self.tag(off, low) {
                Err(e) => Err(e),
                Ok((tag, child)) => Ok(ShallowValue::Tag(tag, child)),
            }
        } else if high == 10 || high == 11 || high == 12 {
            match self.cstor(off, high, low) {
                Err(e) => Err(e),
                Ok((idx, args)) => Ok(ShallowValue::Cstor(idx, args)),
            }
        } else if high == 14 {
            match self.reference(off, low) {
                Err(e) => Err(e),
                Ok(target) => Ok(ShallowValue::Imm(Immediate::Ref(target))),
            }
        } else {
            Err(Error { msg: MSG_INVALID, off })
        }
    }

    /// Finds the value that the blob is closed on: reads the last byte,
    /// goes back by it and one more from the last byte's own offset, and
    /// follows pointers from there.
    pub fn entrypoint(&self) -> (r: Result<Offset>)
        ensures
            r == spec_entrypoint(self@),
    {
        if self.bs.len() == 0 {
            return Err(Error { msg: MSG_OUT_OF_BOUNDS, off: 0 });
        }
        let last = (self.bs.len() - 1) as Offset;
        let delta = self.bs[last as usize] as Offset;
        if delta >= last {
            return Err(Error { msg: MSG_POINTER_UNDERFLOW, off: last });
        }
        self.deref(last - delta - 1)
    }

    /// Reads the integer at `off`.
    pub fn get_i64(&self, off: Offset) -> (r: Result<i64>)
        ensures
            r == spec_get_i64(self@, off),
    {
        match self.get_shallow_value(off) {
            Err(e) => Err(e),
            Ok(ShallowValue::Imm(Immediate::Int64(i))) => Ok(i),
            Ok(_) => Err(Error { msg: MSG_EXPECTED_INTEGER, off }),
        }
    }

    /// Reads the boolean at `off`.
    pub fn get_bool(&self, off: Offset) -> (r: Result<bool>)
        ensures
            r == spec_get_bool(self@, off),
    {
        match self.get_shallow_value(off) {
            Err(e) => Err(e),
            Ok(ShallowValue::Imm(Immediate::Bool(b))) => Ok(b),
            Ok(_) => Err(Error { msg: MSG_EXPECTED_BOOL, off }),
        }
    }

    /// Checks that null stands at `off`.
    pub fn get_null(&self, off: Offset) -> (r: Result<()>)
        ensures
            r == spec_get_null(self@, off),
    {
        match self.get_shallow_value(off) {
            Err(e) => Err(e),
            Ok(ShallowValue::Imm(Immediate::Null)) => Ok(()),
            Ok(_) => Err(Error { msg: MSG_EXPECTED_NULL, off }),
        }
    }

    /// Reads the bits of the floating-point number at `off`.
    pub fn get_float(&self, off: Offset) -> (r: Result<FloatBits>)
        ensures
            r == spec_get_float(self@, off),
    {
        match self.get_shallow_value(off) {
            Err(e) => Err(e),
            Ok(ShallowValue::Imm(Immediate::Float(f))) => Ok(f),
            Ok(_) => Err(Error { msg: MSG_EXPECTED_FLOAT, off }),
        }
    }

    /// Reads the text at `off`.
    pub fn get_str(&self, off: Offset) -> (r: Result<&'a str>)
        ensures
            text_view(r) == spec_get_str(self@, off),
    {
        match self.get_shallow_value(off) {
            Err(e) => Err(e),
            Ok(ShallowValue::Imm(Immediate::String(s))) => Ok(s),
            Ok(_) => Err(Error { msg: MSG_EXPECTED_STRING, off }),
        }
    }

    /// Reads the binary data at `off`.
    pub fn get_bytes(&self, off: Offset) -> (r: Result<&'a [u8]>)
        ensures
            bytes_view(r) == spec_get_bytes(self@, off),
    {
        match self.get_shallow_value(off) {
            Err(e) => Err(e),
            Ok(ShallowValue::Imm(Immediate::Bytes(b))) => Ok(b),
            Ok(_) => Err(Error { msg: MSG_EXPECTED_BYTES, off }),
        }
    }

    /// Reads the offsets of the items of the array at `off` into `res`,
    /// which is emptied first. Where an item cannot be passed over, `res`
    /// holds the offsets before it.
    pub fn get_array(&self, off: Offset, res: &mut Vec<Offset>) -> (r: Result<()>)
        ensures
            (final(res)@, r) == spec_get_array(self@, off),
    {
        res.clear();
        match self.get_shallow_value(off) {
            Err(e) => Err(e),
            Ok(ShallowValue::Array(arr)) => collect_offsets(arr, res),
            Ok(_) => Err(Error { msg: MSG_EXPECTED_ARRAY, off }),
        }
    }

    /// Reads the offsets of the keys and values of the map at `off` into
    /// `res`, which is emptied first. Where a key or a value cannot be
    /// passed over, `res` holds the entries before it.
    pub fn get_dict(&self, off: Offset, res: &mut Vec<(Offset, Offset)>) -> (r: Result<()>)
        ensures
            (final(res)@, r) == spec_get_dict(self@, off),
    {
        res.clear();
        match self.get_shallow_value(off) {
            Err(e) => Err(e),
            Ok(ShallowValue::Dict(d)) => collect_pairs(d, res),
            Ok(_) => Err(Error { msg: MSG_EXPECTED_DICT, off }),
        }
    }

    /// Reads the tag at `off` and the offset of the value it is attached
    /// to; that value is not read.
    pub fn get_tag(&self, off: Offset) -> (r: Result<(Tag, Offset)>)
        ensures
            r == spec_get_tag(self@, off),
    {
        match self.get_shallow_value(off) {
            Err(e) => Err(e),
            Ok(ShallowValue::Tag(tag, child)) => Ok((tag, child)),
            Ok(_) => Err(Error { msg: MSG_EXPECTED_TAG, off }),
        }
    }

    /// Reads the constructor at `off`: returns its index and puts the
    /// offsets of its arguments into `args`, which is emptied first.
    pub fn get_cstor(&self, off: Offset, args: &mut Vec<Offset>) -> (r: Result<VariantIdx>)
        ensures
            (final(args)@, r) == spec_get_cstor(self@, off),
    {
        args.clear();
        match self.get_shallow_value(off) {
            Err(e) => Err(e),
            Ok(ShallowValue::Cstor(idx, c_args)) => match collect_offsets(c_args, args) {
                Err(e) => Err(e),
                Ok(()) => Ok(idx),
            },
            Ok(_) => Err(Error { msg: MSG_EXPECTED_CSTOR, off }),
        }
    }
}

/// Walks `cursor` to its end or its first failure and appends the
/// offsets it yields to `res`.
fn collect_offsets(cursor: ArrayCursor, res: &mut Vec<Offset>) -> (r: Result<()>)
    ensures
        final(res)@ == old(res)@ + cursor@.offsets(),
        r == walk_result(cursor@.failure()),
{
    let mut walker = cursor;
    let ghost start = cursor@;
    assert(res@ + walker@.offsets() =~= old(res)@ + start.offsets());
    loop
        invariant
            start == cursor@,
            res@ + walker@.offsets() == old(res)@ + start.offsets(),
            walker@.failure() == start.failure(),
        decreases walker@.n_items,
    {
        let ghost before = walker@;
        let ghost so_far = res@;
        match walker.next() {
            None => {
                assert(res@ + Seq::<Offset>::empty() =~= res@);
                return Ok(());
            },
            Some(Err(e)) => {
                assert(res@ + Seq::<Offset>::empty() =~= res@);
                return Err(e);
            },
            Some(Ok(o)) => {
                res.push(o);
                assert(res@ + walker@.offsets() =~= so_far + before.offsets());
            },
        }
    }
}

/// Walks `cursor` to its end or its first failure and appends the
/// entries it yields to `res`.
fn collect_pairs(cursor: MapCursor, res: &mut Vec<(Offset, Offset)>) -> (r: Result<()>)
    ensures
        final(res)@ == old(res)@ + cursor@.pairs(),
        r == walk_result(cursor@.pair_failure()),
{
    let mut walker = cursor;
    let ghost start = cursor@;
    assert(res@ + walker@.pairs() =~= old(res)@ + start.pairs());
    loop
        invariant
            start == cursor@,
            res@ + walker@.pairs() == old(res)@ + start.pairs(),
            walker@.pair_failure() == start.pair_failure(),
        decreases walker@.n_items,
    {
        let ghost before = walker@;
        let ghost so_far = res@;
        match walker.next() {
            None => {
                assert(res@ + Seq::<(Offset, Offset)>::empty() =~= res@);
                return Ok(());
            },
            Some(Err(e)) => {
                assert(res@ + Seq::<(Offset, Offset)>::empty() =~= res@);
                return Err(e);
            },
            Some(Ok(kv)) => {
                res.push(kv);
                assert(res@ + walker@.pairs() =~= so_far + before.pairs());
            },
        }
    }
}

} // verus!
