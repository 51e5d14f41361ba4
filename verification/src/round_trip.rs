//! What is written can be read back: what ties the encoder to the
//! decoder.

use crate::deser::{
    le_value, spec_cstor, spec_cursor, spec_deref, spec_entrypoint, spec_first_byte, spec_shallow,
    spec_shallow_at, spec_skip, spec_tag, spec_u64_with_low, MAX_BLOB_LEN, MSG_ARRAY_OVERFLOW,
    MSG_DICT_OVERFLOW,
};
use crate::format::{
    back_delta, enc_array, enc_cstor, enc_cstor_head, enc_final, enc_head, enc_imm, enc_imms,
    enc_map, enc_tag, entry_bytes, entry_offset, head_byte, imm_pos, int_magnitude, le_bytes_u32,
    le_bytes_u64, lemma_enc_imms_step, writable_at, MAX_POSTFIX,
};
use crate::leb128::{leb128_bytes, lemma_leb128_bytes_len_u64, lemma_leb128_round_trip};
use crate::shallow_value::{CursorView, ShallowView};
use crate::types::{Error, FloatBits, ImmediateView, Offset, VariantIdx};
use crate::value::{
    enc_entries, enc_value, enc_values, enc_whole, lemma_refs_below_later, max_depth, refs_below,
    spec_read_entries, spec_read_items, spec_read_value, whole_offset, ValueView,
};
use vstd::prelude::*;
use vstd::utf8::{encode_utf8, encode_utf8_decode_utf8, encode_utf8_valid_utf8};

verus! {

/// Whether the bytes of `chunk` stand in `bs` from `at` on.
pub open spec fn holds_at(bs: Seq<u8>, at: int, chunk: Seq<u8>) -> bool {
    0 <= at && at + chunk.len() <= bs.len() && bs.subrange(at, at + chunk.len()) == chunk
}

/// A part of a chunk that stands in `bs` stands there too.
pub proof fn lemma_holds_at_part(bs: Seq<u8>, at: int, chunk: Seq<u8>, from: int, to: int)
    requires
        holds_at(bs, at, chunk),
        0 <= from <= to <= chunk.len(),
    ensures
        holds_at(bs, at + from, chunk.subrange(from, to)),
{
    assert forall|i: int| 0 <= i < to - from implies bs.subrange(at + from, at + to)[i]
        == chunk.subrange(from, to)[i] by {
        assert(bs.subrange(at, at + chunk.len())[from + i] == bs[at + from + i]);
    }
    assert(bs.subrange(at + from, at + to) =~= chunk.subrange(from, to));
}

/// Of two chunks that stand in `bs` one behind the other, each stands
/// there.
pub proof fn lemma_holds_at_split(bs: Seq<u8>, at: int, front: Seq<u8>, back: Seq<u8>)
    requires
        holds_at(bs, at, front + back),
    ensures
        holds_at(bs, at, front),
        holds_at(bs, at + front.len(), back),
{
    lemma_holds_at_part(bs, at, front + back, 0, front.len() as int);
    lemma_holds_at_part(bs, at, front + back, front.len() as int, (front + back).len() as int);
    assert((front + back).subrange(0, front.len() as int) =~= front);
    assert((front + back).subrange(front.len() as int, (front + back).len() as int) =~= back);
}

/// The low nibble under which the number `n` is written.
pub open spec fn low_of(n: u64) -> u8 {
    if n < 15 {
        n as u8
    } else {
        15
    }
}

/// A kind nibble and a number that were written at `at` are read back
/// there: the nibbles from the first byte, and the number with the count
/// of bytes it takes behind the first.
pub proof fn lemma_head_read(bs: Seq<u8>, at: Offset, high: u8, n: u64)
    requires
        high < 16,
        bs.len() <= MAX_BLOB_LEN,
        holds_at(bs, at as int, enc_head(high, n)),
    ensures
        1 <= enc_head(high, n).len() <= 11,
        spec_first_byte(bs, at) == Ok::<(u8, u8), Error>((high, low_of(n))),
        spec_u64_with_low(bs, at, low_of(n)) == Ok::<(u64, Offset), Error>(
            (n, (enc_head(high, n).len() - 1) as Offset),
        ),
{
    let head = enc_head(high, n);
    assert(bs.subrange(at as int, at + head.len())[0] == bs[at as int]);
    if n >= 15 {
        let rest = (n - 15) as u64;
        let tail = leb128_bytes(rest as nat);
        lemma_leb128_bytes_len_u64(rest);
        lemma_holds_at_split(bs, at as int, seq![head_byte(high, 15)], tail);
        lemma_leb128_round_trip(rest, bs, (at + 1) as Offset);
    }
}

/// The layer that the decoder shows for an immediate that was written: the
/// immediate itself, but for a constructor without arguments, which
/// shows as a constructor with a cursor over nothing.
pub open spec fn shallow_of(bs: Seq<u8>, i: ImmediateView, at: Offset) -> ShallowView {
    match i {
        ImmediateView::Variant0(c) => ShallowView::Cstor(
            c,
            CursorView { bytes: bs, off: at, n_items: 0 },
        ),
        _ => ShallowView::Imm(i),
    }
}

/// A number is the sum of its bytes, each times its power of 256.
#[verifier::rlimit(40)]
proof fn lemma_le_sum(x: u64)
    ensures
        x == (x % 256) + 0x100 * ((x / 0x100 % 256) + 0x100 * ((x / 0x1_0000 % 256) + 0x100 * ((x
            / 0x100_0000 % 256) + 0x100 * ((x / 0x1_0000_0000 % 256) + 0x100 * ((x
            / 0x100_0000_0000 % 256) + 0x100 * ((x / 0x1_0000_0000_0000 % 256) + 0x100 * (x
            / 0x100_0000_0000_0000 % 256))))))),
{
    let x1 = x / 0x100;
    let x2 = x1 / 0x100;
    let x3 = x2 / 0x100;
    let x4 = x3 / 0x100;
    let x5 = x4 / 0x100;
    let x6 = x5 / 0x100;
    let x7 = x6 / 0x100;
    assert(x2 == x / 0x1_0000) by (bit_vector)
        requires
            x1 == x / 0x100,
            x2 == x1 / 0x100,
    ;
    assert(x3 == x / 0x100_0000) by (bit_vector)
        requires
            x2 == x / 0x1_0000,
            x3 == x2 / 0x100,
    ;
    assert(x4 == x / 0x1_0000_0000) by (bit_vector)
        requires
            x3 == x / 0x100_0000,
            x4 == x3 / 0x100,
    ;
    assert(x5 == x / 0x100_0000_0000) by (bit_vector)
        requires
            x4 == x / 0x1_0000_0000,
            x5 == x4 / 0x100,
    ;
    assert(x6 == x / 0x1_0000_0000_0000) by (bit_vector)
        requires
            x5 == x / 0x100_0000_0000,
            x6 == x5 / 0x100,
    ;
    assert(x7 == x / 0x100_0000_0000_0000) by (bit_vector)
        requires
            x6 == x / 0x1_0000_0000_0000,
            x7 == x6 / 0x100,
    ;
    assert(x7 < 256) by (bit_vector)
        requires
            x7 == x / 0x100_0000_0000_0000,
    ;
    assert(x == x % 256 + 0x100 * x1);
    assert(x1 == x1 % 256 + 0x100 * x2);
    assert(x2 == x2 % 256 + 0x100 * x3);
    assert(x3 == x3 % 256 + 0x100 * x4);
    assert(x4 == x4 % 256 + 0x100 * x5);
    assert(x5 == x5 % 256 + 0x100 * x6);
    assert(x6 == x6 % 256 + 0x100 * x7);
}

/// Four bytes written least significant first spell the number they
/// came from.
pub proof fn lemma_le_bytes_read_u32(bs: Seq<u8>, at: int, x: u32)
    requires
        holds_at(bs, at, le_bytes_u32(x)),
    ensures
        le_value(bs, at, 4) == x,
{
    reveal_with_fuel(le_value, 5);
    let chunk = bs.subrange(at, at + 4);
    assert(chunk[0] == bs[at] && chunk[1] == bs[at + 1] && chunk[2] == bs[at + 2] && chunk[3]
        == bs[at + 3]);
    lemma_le_sum(x as u64);
    assert(x as u64 / 0x1_0000_0000 == 0);
}

/// Eight bytes written least significant first spell the number they
/// came from.
pub proof fn lemma_le_bytes_read_u64(bs: Seq<u8>, at: int, x: u64)
    requires
        holds_at(bs, at, le_bytes_u64(x)),
    ensures
        le_value(bs, at, 8) == x,
{
    reveal_with_fuel(le_value, 9);
    let chunk = bs.subrange(at, at + 8);
    assert(chunk[0] == bs[at] && chunk[1] == bs[at + 1] && chunk[2] == bs[at + 2] && chunk[3]
        == bs[at + 3]);
    assert(chunk[4] == bs[at + 4] && chunk[5] == bs[at + 5] && chunk[6] == bs[at + 6] && chunk[7]
        == bs[at + 7]);
    lemma_le_sum(x);
}

/// An immediate that was written at `at` is read back there.
///
/// Passing over it ends right behind its bytes. If it is no pointer,
/// following pointers from `at` stays at `at`, and the layer read there
/// is the immediate; a reference comes back as the reference it was. If
/// it is a pointer, following pointers from `at` is following them from
/// its target.
#[verifier::rlimit(40)]
pub proof fn lemma_imm_read(bs: Seq<u8>, at: Offset, i: ImmediateView)
    requires
        bs.len() <= MAX_BLOB_LEN,
        writable_at(i, at as int),
        holds_at(bs, at as int, enc_imm(i, at as int)),
    ensures
        enc_imm(i, at as int).len() >= 1,
        spec_skip(bs, at) == Ok::<Offset, Error>((at + enc_imm(i, at as int).len()) as Offset),
        i matches ImmediateView::Pointer(p) ==> spec_deref(bs, at) == spec_deref(bs, p),
        !(i is Pointer) ==> spec_deref(bs, at) == Ok::<Offset, Error>(at),
        !(i is Pointer) ==> spec_shallow_at(bs, at) == Ok::<ShallowView, Error>(
            shallow_of(bs, i, at),
        ),
{
    let chunk = enc_imm(i, at as int);
    match i {
        ImmediateView::Null => {
            assert(bs.subrange(at as int, at + 1)[0] == bs[at as int]);
        },
        ImmediateView::Bool(b) => {
            assert(bs.subrange(at as int, at + 1)[0] == bs[at as int]);
        },
        ImmediateView::Int64(n) => {
            lemma_head_read(bs, at, if n >= 0 { 1 } else { 2 }, int_magnitude(n));
        },
        ImmediateView::Float(FloatBits::Single(b)) => {
            lemma_holds_at_split(bs, at as int, seq![head_byte(3, 0)], le_bytes_u32(b));
            assert(bs.subrange(at as int, at + 1)[0] == bs[at as int]);
            lemma_le_bytes_read_u32(bs, at + 1, b);
        },
        ImmediateView::Float(FloatBits::Double(b)) => {
            lemma_holds_at_split(bs, at as int, seq![head_byte(3, 1)], le_bytes_u64(b));
            assert(bs.subrange(at as int, at + 1)[0] == bs[at as int]);
            lemma_le_bytes_read_u64(bs, at + 1, b);
        },
        ImmediateView::String(s) => {
            let payload = encode_utf8(s);
            let head = enc_head(4, payload.len() as u64);
            lemma_holds_at_split(bs, at as int, head, payload);
            lemma_head_read(bs, at, 4, payload.len() as u64);
            encode_utf8_valid_utf8(s);
            encode_utf8_decode_utf8(s);
        },
        ImmediateView::Bytes(b) => {
            let head = enc_head(5, b.len() as u64);
            lemma_holds_at_split(bs, at as int, head, b);
            lemma_head_read(bs, at, 5, b.len() as u64);
        },
        ImmediateView::Variant0(c) => {
            lemma_head_read(bs, at, 10, c.0 as u64);
        },
        ImmediateView::Ref(p) => {
            lemma_head_read(bs, at, 14, back_delta(at as int, p));
        },
        ImmediateView::Pointer(p) => {
            lemma_head_read(bs, at, 15, back_delta(at as int, p));
        },
    }
}

/// A blob that was closed can be entered: its last byte is at most
/// `MAX_POSTFIX`, and the decoder's entry point is what following
/// pointers from the entry gives. Where the entry was written as a value
/// of its own (it was no pointer), that is the offset of the entry.
#[verifier::rlimit(40)]
pub proof fn lemma_closed_blob_entry(before: Seq<u8>, entry: ImmediateView)
    requires
        writable_at(entry, before.len() as int),
        (before + enc_final(entry, before.len() as int)).len() <= MAX_BLOB_LEN,
    ensures
        (before + enc_final(entry, before.len() as int)).last() <= MAX_POSTFIX,
        spec_entrypoint(before + enc_final(entry, before.len() as int)) == spec_deref(
            before + enc_final(entry, before.len() as int),
            entry_offset(entry, before.len() as int) as Offset,
        ),
        !(entry is Pointer) ==> spec_entrypoint(before + enc_final(entry, before.len() as int))
            == Ok::<Offset, Error>(before.len() as Offset),
{
    let at = before.len() as int;
    let tail = enc_final(entry, at);
    let blob = before + tail;
    let body = entry_bytes(entry, at);
    let e = entry_offset(entry, at);
    let top = at + body.len();
    assert(holds_at(blob, at, tail)) by {
        assert(blob.subrange(at, at + tail.len()) =~= tail);
    }
    if top - e - 1 > MAX_POSTFIX {
        let hop = enc_imm(ImmediateView::Pointer(e as Offset), top);
        assert(tail =~= body + (hop + seq![(hop.len() - 1) as u8]));
        lemma_holds_at_split(blob, at, body, hop + seq![(hop.len() - 1) as u8]);
        lemma_holds_at_split(blob, top, hop, seq![(hop.len() - 1) as u8]);
        lemma_head_read(blob, top as Offset, 15, back_delta(top, e as Offset));
        lemma_imm_read(blob, top as Offset, ImmediateView::Pointer(e as Offset));
        assert(blob.len() == top + hop.len() + 1);
        assert(blob[top + hop.len()] == (hop.len() - 1) as u8) by {
            assert(blob.subrange(top + hop.len(), top + hop.len() + 1)[0] == blob[top
                + hop.len()]);
        }
    } else {
        lemma_holds_at_split(blob, at, body, seq![(top - e - 1) as u8]);
        assert(blob.len() == top + 1);
        assert(blob[top] == (top - e - 1) as u8) by {
            assert(blob.subrange(top, top + 1)[0] == blob[top]);
        }
    }
    if !(entry is Pointer) {
        let rest = tail.subrange(body.len() as int, tail.len() as int);
        assert(tail =~= body + rest);
        lemma_holds_at_split(blob, at, body, rest);
        lemma_imm_read(blob, at as Offset, entry);
    }
}

/// A pointer is never shown: the layer read at any offset of any blob is
/// no pointer.
pub proof fn lemma_shallow_never_pointer(bs: Seq<u8>, off: Offset)
    ensures
        !(spec_shallow(bs, off) matches Ok(ShallowView::Imm(ImmediateView::Pointer(_)))),
{
    crate::deser::lemma_deref_target(bs, off);
}

/// Every immediate takes at least one byte.
pub proof fn lemma_enc_imm_nonempty(i: ImmediateView, at: int)
    ensures
        enc_imm(i, at).len() >= 1,
{
}

/// In a run of immediates written from `first` on, item `k` stands at its
/// place, the next one right behind it, and the run ends behind the
/// last. A run takes at least as many bytes as it has items.
pub proof fn lemma_enc_imms_layout(items: Seq<ImmediateView>, first: int, k: int)
    requires
        0 <= k < items.len(),
    ensures
        imm_pos(items, first, 0) == first,
        imm_pos(items, first, items.len() as int) == first + enc_imms(items, first).len(),
        imm_pos(items, first, k + 1) == imm_pos(items, first, k) + enc_imm(
            items[k],
            imm_pos(items, first, k),
        ).len(),
        imm_pos(items, first, k + 1) <= first + enc_imms(items, first).len(),
        enc_imms(items, first).subrange(
            imm_pos(items, first, k) - first,
            imm_pos(items, first, k + 1) - first,
        ) == enc_imm(items[k], imm_pos(items, first, k)),
        enc_imms(items, first).len() >= items.len(),
    decreases items.len(),
{
    let n = items.len() as int;
    let front = items.drop_last();
    assert(items.take(0) =~= Seq::empty());
    assert(items.take(n) =~= items);
    assert(items.take(n - 1) =~= front);
    lemma_enc_imms_step(items, first, k);
    lemma_enc_imm_nonempty(items.last(), first + enc_imms(front, first).len());
    if k < n - 1 {
        lemma_enc_imms_layout(front, first, k);
        assert(front.take(k) =~= items.take(k));
        assert(front.take(k + 1) =~= items.take(k + 1));
        assert(front.take(n - 1) =~= front);
        let all = enc_imms(items, first);
        let lo = imm_pos(items, first, k) - first;
        let hi = imm_pos(items, first, k + 1) - first;
        assert(all.subrange(lo, hi) =~= enc_imms(front, first).subrange(lo, hi));
    } else {
        if n > 1 {
            lemma_enc_imms_layout(front, first, 0);
        } else {
            assert(front =~= Seq::empty());
        }
        let all = enc_imms(items, first);
        let lo = imm_pos(items, first, k) - first;
        let hi = imm_pos(items, first, k + 1) - first;
        assert(all.subrange(lo, hi) =~= enc_imm(items[k], imm_pos(items, first, k)));
    }
}

/// Where the parts of item `k` of a run of values start, when the run is
/// written from `at` on.
pub open spec fn value_pos(items: Seq<ValueView>, at: int, k: int) -> int {
    at + enc_values(items.take(k), at).0.len()
}

/// In what the parts of a run of values add, the parts of item `k` stand
/// at their place, and its immediate is item `k` of the immediates.
pub proof fn lemma_enc_values_layout(items: Seq<ValueView>, at: int, k: int)
    requires
        0 <= k < items.len(),
    ensures
        enc_values(items, at).1.len() == items.len(),
        enc_values(items, at).1[k] == enc_value(items[k], value_pos(items, at, k)).1,
        value_pos(items, at, k) + enc_value(items[k], value_pos(items, at, k)).0.len() <= at
            + enc_values(items, at).0.len(),
        enc_values(items, at).0.subrange(
            value_pos(items, at, k) - at,
            value_pos(items, at, k) - at + enc_value(items[k], value_pos(items, at, k)).0.len(),
        ) == enc_value(items[k], value_pos(items, at, k)).0,
    decreases items.len(),
{
    let n = items.len() as int;
    let front = items.drop_last();
    assert(items.take(n - 1) =~= front);
    let (fb, fh) = enc_values(front, at);
    let (lb, lh) = enc_value(items.last(), at + fb.len());
    if n > 1 {
        lemma_enc_values_layout(front, at, 0);
    } else {
        assert(front =~= Seq::empty());
    }
    if k < n - 1 {
        lemma_enc_values_layout(front, at, k);
        assert(front.take(k) =~= items.take(k));
        let lo = value_pos(items, at, k) - at;
        let hi = lo + enc_value(items[k], value_pos(items, at, k)).0.len();
        assert(enc_values(items, at).0.subrange(lo, hi) =~= fb.subrange(lo, hi));
    } else {
        let lo = value_pos(items, at, k) - at;
        let hi = lo + lb.len();
        assert(enc_values(items, at).0.subrange(lo, hi) =~= lb);
    }
}

/// Where the parts of the key of entry `k` of a run of entries start,
/// when the run is written from `at` on.
pub open spec fn key_pos(entries: Seq<(ValueView, ValueView)>, at: int, k: int) -> int {
    at + enc_entries(entries.take(k), at).0.len()
}

/// Where the parts of the value of entry `k` of a run of entries start.
pub open spec fn entry_value_pos(entries: Seq<(ValueView, ValueView)>, at: int, k: int) -> int {
    key_pos(entries, at, k) + enc_value(entries[k].0, key_pos(entries, at, k)).0.len()
}

/// In what the parts of a run of entries add, the parts of the key and of
/// the value of entry `k` stand at their places, and their immediates
/// are items `2k` and `2k + 1` of the immediates.
pub proof fn lemma_enc_entries_layout(entries: Seq<(ValueView, ValueView)>, at: int, k: int)
    requires
        0 <= k < entries.len(),
    ensures
        enc_entries(entries, at).1.len() == 2 * entries.len(),
        enc_entries(entries, at).1[2 * k] == enc_value(entries[k].0, key_pos(entries, at, k)).1,
        enc_entries(entries, at).1[2 * k + 1] == enc_value(
            entries[k].1,
            entry_value_pos(entries, at, k),
        ).1,
        entry_value_pos(entries, at, k) + enc_value(
            entries[k].1,
            entry_value_pos(entries, at, k),
        ).0.len() <= at + enc_entries(entries, at).0.len(),
        enc_entries(entries, at).0.subrange(
            key_pos(entries, at, k) - at,
            entry_value_pos(entries, at, k) - at,
        ) == enc_value(entries[k].0, key_pos(entries, at, k)).0,
        enc_entries(entries, at).0.subrange(
            entry_value_pos(entries, at, k) - at,
            entry_value_pos(entries, at, k) - at + enc_value(
                entries[k].1,
                entry_value_pos(entries, at, k),
            ).0.len(),
        ) == enc_value(entries[k].1, entry_value_pos(entries, at, k)).0,
    decreases entries.len(),
{
    let n = entries.len() as int;
    let front = entries.drop_last();
    assert(entries.take(n - 1) =~= front);
    let (fb, fh) = enc_entries(front, at);
    let (kb, kh) = enc_value(entries.last().0, at + fb.len());
    let (vb, vh) = enc_value(entries.last().1, at + fb.len() + kb.len());
    if n > 1 {
        lemma_enc_entries_layout(front, at, 0);
    } else {
        assert(front =~= Seq::empty());
    }
    let all = enc_entries(entries, at).0;
    assert(all =~= fb + kb + vb);
    if k < n - 1 {
        lemma_enc_entries_layout(front, at, k);
        assert(front.take(k) =~= entries.take(k));
        let lo = key_pos(entries, at, k) - at;
        let mid = entry_value_pos(entries, at, k) - at;
        let hi = mid + enc_value(entries[k].1, entry_value_pos(entries, at, k)).0.len();
        assert(all.subrange(lo, mid) =~= fb.subrange(lo, mid));
        assert(all.subrange(mid, hi) =~= fb.subrange(mid, hi));
    } else {
        let lo = key_pos(entries, at, k) - at;
        let mid = entry_value_pos(entries, at, k) - at;
        let hi = mid + vb.len();
        assert(all.subrange(lo, mid) =~= kb);
        assert(all.subrange(mid, hi) =~= vb);
    }
}

/// What a value is read back as after it was written: itself, but for a
/// constructor without arguments that stands as a value of its own kind.
/// The decoder shows that one as a constructor with an empty list of
/// arguments.
pub open spec fn read_back(v: ValueView) -> ValueView
    decreases v,
{
    match v {
        ValueView::Variant0(c) => ValueView::Cstor(c, Seq::empty()),
        ValueView::Tag(tag, child) => ValueView::Tag(tag, Box::new(read_back(*child))),
        ValueView::Array(items) => ValueView::Array(read_back_all(items)),
        ValueView::Dict(entries) => ValueView::Dict(read_back_entries(entries)),
        ValueView::Cstor(c, args) => ValueView::Cstor(c, read_back_all(args)),
        _ => v,
    }
}

/// What each of `items` is read back as.
pub open spec fn read_back_all(items: Seq<ValueView>) -> Seq<ValueView>
    decreases items,
{
    Seq::new(
        items.len(),
        |i: int|
            if 0 <= i < items.len() {
                read_back(items[i])
            } else {
                ValueView::Null
            },
    )
}

/// What each key and value of `entries` is read back as.
pub open spec fn read_back_entries(entries: Seq<(ValueView, ValueView)>) -> Seq<
    (ValueView, ValueView),
>
    decreases entries,
{
    Seq::new(
        entries.len(),
        |i: int|
            if 0 <= i < entries.len() {
                (read_back(entries[i].0), read_back(entries[i].1))
            } else {
                (ValueView::Null, ValueView::Null)
            },
    )
}

/// Whether no constructor without arguments stands in `v` as a value of
/// its own kind.
pub open spec fn comes_back(v: ValueView) -> bool
    decreases v,
{
    match v {
        ValueView::Variant0(_) => false,
        ValueView::Tag(_, child) => comes_back(*child),
        ValueView::Array(items) => forall|i: int|
            0 <= i < items.len() ==> comes_back(#[trigger] items[i]),
        ValueView::Dict(entries) => forall|i: int|
            0 <= i < entries.len() ==> comes_back((#[trigger] entries[i]).0) && comes_back(
                entries[i].1,
            ),
        ValueView::Cstor(_, args) => forall|i: int|
            0 <= i < args.len() ==> comes_back(#[trigger] args[i]),
        _ => true,
    }
}

/// A value in which no constructor without arguments stands as a value
/// of its own kind is read back as itself.
pub proof fn lemma_comes_back(v: ValueView)
    requires
        comes_back(v),
    ensures
        read_back(v) == v,
    decreases v,
{
    match v {
        ValueView::Tag(tag, child) => {
            lemma_comes_back(*child);
        },
        ValueView::Array(items) => {
            assert forall|i: int| 0 <= i < items.len() implies read_back_all(items)[i]
                == items[i] by {
                lemma_comes_back(items[i]);
            }
            assert(read_back_all(items) =~= items);
        },
        ValueView::Dict(entries) => {
            assert forall|i: int| 0 <= i < entries.len() implies read_back_entries(entries)[i]
                == entries[i] by {
                lemma_comes_back(entries[i].0);
                lemma_comes_back(entries[i].1);
            }
            assert(read_back_entries(entries) =~= entries);
        },
        ValueView::Cstor(c, args) => {
            assert forall|i: int| 0 <= i < args.len() implies read_back_all(args)[i]
                == args[i] by {
                lemma_comes_back(args[i]);
            }
            assert(read_back_all(args) =~= args);
        },
        _ => {},
    }
}

/// A value that was written behind its parts is read back at the offset
/// that its pointer names, and no pointer stands there.
proof fn lemma_written_reads(bs: Seq<u8>, v: ValueView, at: int, depth: nat)
    requires
        bs.len() <= MAX_BLOB_LEN,
        0 <= at,
        refs_below(v, at),
        holds_at(bs, at, enc_value(v, at).0),
        enc_value(v, at).1 is Pointer,
        depth > enc_value(v, at).0.len(),
    ensures
        enc_value(v, at).1 matches ImmediateView::Pointer(p) ==> {
            &&& at <= p < at + enc_value(v, at).0.len()
            &&& spec_deref(bs, p) == Ok::<Offset, Error>(p)
            &&& spec_read_value(bs, p, depth) == Ok::<ValueView, Error>(read_back(v))
        },
    decreases v, 1nat,
{
    match v {
        ValueView::Tag(..) => lemma_tag_reads(bs, v, at, depth),
        ValueView::Array(..) => lemma_array_reads(bs, v, at, depth),
        ValueView::Dict(..) => lemma_dict_reads(bs, v, at, depth),
        ValueView::Cstor(..) => lemma_cstor_reads(bs, v, at, depth),
        _ => {},
    }
}

/// A written tag is read back.
#[verifier::rlimit(40)]
proof fn lemma_tag_reads(bs: Seq<u8>, v: ValueView, at: int, depth: nat)
    requires
        bs.len() <= MAX_BLOB_LEN,
        0 <= at,
        refs_below(v, at),
        holds_at(bs, at, enc_value(v, at).0),
        enc_value(v, at).1 is Pointer,
        depth > enc_value(v, at).0.len(),
        v is Tag,
    ensures
        enc_value(v, at).1 matches ImmediateView::Pointer(p) ==> {
            &&& at <= p < at + enc_value(v, at).0.len()
            &&& spec_deref(bs, p) == Ok::<Offset, Error>(p)
            &&& spec_read_value(bs, p, depth) == Ok::<ValueView, Error>(read_back(v))
        },
    decreases v, 0nat,
{
    if let ValueView::Tag(tag, child) = v {

        let (cb, ch) = enc_value(*child, at);
        let off = at + cb.len();
        let head = enc_head(8, tag as u64);
        let child_pos = off + head.len();
        lemma_holds_at_split(bs, at, cb, enc_tag(tag, ch, off));
        lemma_holds_at_split(bs, off, head, enc_imm(ch, child_pos));
        lemma_head_read(bs, off as Offset, 8, tag as u64);
        lemma_enc_imm_nonempty(ch, child_pos);
        lemma_handle_reads(bs, *child, at, child_pos, (depth - 1) as nat);
        assert(spec_tag(bs, off as Offset, low_of(tag as u64)) == Ok::<(u32, Offset), Error>(
            (tag, child_pos as Offset),
        ));
        assert(spec_shallow(bs, off as Offset) == Ok::<ShallowView, Error>(
            ShallowView::Tag(tag, child_pos as Offset),
        ));
    }
}

/// A written array is read back.
#[verifier::rlimit(40)]
proof fn lemma_array_reads(bs: Seq<u8>, v: ValueView, at: int, depth: nat)
    requires
        bs.len() <= MAX_BLOB_LEN,
        0 <= at,
        refs_below(v, at),
        holds_at(bs, at, enc_value(v, at).0),
        enc_value(v, at).1 is Pointer,
        depth > enc_value(v, at).0.len(),
        v is Array,
    ensures
        enc_value(v, at).1 matches ImmediateView::Pointer(p) ==> {
            &&& at <= p < at + enc_value(v, at).0.len()
            &&& spec_deref(bs, p) == Ok::<Offset, Error>(p)
            &&& spec_read_value(bs, p, depth) == Ok::<ValueView, Error>(read_back(v))
        },
    decreases v, 0nat,
{
    if let ValueView::Array(items) = v {

        let (cb, hs) = enc_values(items, at);
        let off = at + cb.len();
        let head = enc_head(6, hs.len() as u64);
        let first = off + head.len();
        let run = enc_imms(hs, first);
        lemma_holds_at_split(bs, at, cb, enc_array(hs, off));
        lemma_holds_at_split(bs, off, head, run);
        lemma_run_len(items, at, first);
        lemma_head_read(bs, off as Offset, 6, hs.len() as u64);
        lemma_items_read(bs, items, at, first, 0, (depth - 1) as nat);
        assert(hs.take(0) =~= Seq::empty());
        assert(read_back_all(items).skip(0) =~= read_back_all(items));
        let c = CursorView { bytes: bs, off: first as Offset, n_items: hs.len() as u32 };
        assert(spec_cursor(bs, off as Offset, low_of(hs.len() as u64), MSG_ARRAY_OVERFLOW)
            == Ok::<CursorView, Error>(c));
        assert(spec_shallow(bs, off as Offset) == Ok::<ShallowView, Error>(
            ShallowView::Array(c),
        ));
    }
}

/// A written map is read back.
#[verifier::rlimit(40)]
proof fn lemma_dict_reads(bs: Seq<u8>, v: ValueView, at: int, depth: nat)
    requires
        bs.len() <= MAX_BLOB_LEN,
        0 <= at,
        refs_below(v, at),
        holds_at(bs, at, enc_value(v, at).0),
        enc_value(v, at).1 is Pointer,
        depth > enc_value(v, at).0.len(),
        v is Dict,
    ensures
        enc_value(v, at).1 matches ImmediateView::Pointer(p) ==> {
            &&& at <= p < at + enc_value(v, at).0.len()
            &&& spec_deref(bs, p) == Ok::<Offset, Error>(p)
            &&& spec_read_value(bs, p, depth) == Ok::<ValueView, Error>(read_back(v))
        },
    decreases v, 0nat,
{
    if let ValueView::Dict(entries) = v {

        let (cb, hs) = enc_entries(entries, at);
        let off = at + cb.len();
        let head = enc_head(7, (hs.len() / 2) as u64);
        let first = off + head.len();
        let run = enc_imms(hs, first);
        lemma_holds_at_split(bs, at, cb, enc_map(hs, off));
        lemma_holds_at_split(bs, off, head, run);
        lemma_entries_run_len(entries, at, first);
        lemma_head_read(bs, off as Offset, 7, (hs.len() / 2) as u64);
        lemma_entries_read(bs, entries, at, first, 0, (depth - 1) as nat);
        assert(hs.take(0) =~= Seq::empty());
        assert(read_back_entries(entries).skip(0) =~= read_back_entries(entries));
        let c = CursorView { bytes: bs, off: first as Offset, n_items: entries.len() as u32 };
        assert(spec_cursor(bs, off as Offset, low_of((hs.len() / 2) as u64), MSG_DICT_OVERFLOW)
            == Ok::<CursorView, Error>(c));
        assert(spec_shallow(bs, off as Offset) == Ok::<ShallowView, Error>(
            ShallowView::Dict(c),
        ));
    }
}

/// A written constructor with arguments is read back.
#[verifier::rlimit(40)]
proof fn lemma_cstor_reads(bs: Seq<u8>, v: ValueView, at: int, depth: nat)
    requires
        bs.len() <= MAX_BLOB_LEN,
        0 <= at,
        refs_below(v, at),
        holds_at(bs, at, enc_value(v, at).0),
        enc_value(v, at).1 is Pointer,
        depth > enc_value(v, at).0.len(),
        v is Cstor,
    ensures
        enc_value(v, at).1 matches ImmediateView::Pointer(p) ==> {
            &&& at <= p < at + enc_value(v, at).0.len()
            &&& spec_deref(bs, p) == Ok::<Offset, Error>(p)
            &&& spec_read_value(bs, p, depth) == Ok::<ValueView, Error>(read_back(v))
        },
    decreases v, 0nat,
{
    if let ValueView::Cstor(idx, args) = v {

        let (cb, hs) = enc_values(args, at);
        let off = at + cb.len();
        let n = hs.len();
        let idx_head = enc_head(if n == 1 { 11 } else { 12 }, idx.0 as u64);
        let head = enc_cstor_head(idx, n);
        let first = off + head.len();
        let run = enc_imms(hs, first);
        lemma_holds_at_split(bs, at, cb, enc_cstor(idx, hs, off));
        lemma_holds_at_split(bs, off, head, run);
        lemma_run_len(args, at, first);
        if n == 1 {
            lemma_head_read(bs, off as Offset, 11, idx.0 as u64);
        } else {
            let count = leb128_bytes(n);
            lemma_holds_at_split(bs, off, idx_head, count);
            lemma_head_read(bs, off as Offset, 12, idx.0 as u64);
            lemma_leb128_bytes_len_u64(n as u64);
            lemma_leb128_round_trip(n as u64, bs, (off + idx_head.len()) as Offset);
        }
        lemma_items_read(bs, args, at, first, 0, (depth - 1) as nat);
        assert(hs.take(0) =~= Seq::empty());
        assert(read_back_all(args).skip(0) =~= read_back_all(args));
        let c = CursorView { bytes: bs, off: first as Offset, n_items: n as u32 };
        assert(spec_cstor(
            bs,
            off as Offset,
            if n == 1 { 11 } else { 12 },
            low_of(idx.0 as u64),
        ) == Ok::<(VariantIdx, CursorView), Error>((idx, c)));
        assert(spec_shallow(bs, off as Offset) == Ok::<ShallowView, Error>(
            ShallowView::Cstor(idx, c),
        ));
    }
}

/// A run of immediates that stands in a blob has no more items than a
/// blob has bytes, and as many as the values it stands for.
proof fn lemma_run_len(items: Seq<ValueView>, at: int, first: int)
    ensures
        enc_values(items, at).1.len() == items.len(),
        enc_imms(enc_values(items, at).1, first).len() >= items.len(),
{
    let hs = enc_values(items, at).1;
    if items.len() > 0 {
        lemma_enc_values_layout(items, at, 0);
        lemma_enc_imms_layout(hs, first, 0);
    }
}

/// A run of keys and values that stands in a blob has no more entries
/// than a blob has bytes, and two immediates for each entry.
proof fn lemma_entries_run_len(entries: Seq<(ValueView, ValueView)>, at: int, first: int)
    ensures
        enc_entries(entries, at).1.len() == 2 * entries.len(),
        enc_entries(entries, at).1.len() / 2 == entries.len(),
        enc_imms(enc_entries(entries, at).1, first).len() >= 2 * entries.len(),
{
    let hs = enc_entries(entries, at).1;
    if entries.len() > 0 {
        lemma_enc_entries_layout(entries, at, 0);
        lemma_enc_imms_layout(hs, first, 0);
    }
}

/// The immediate that stands for a written value, wherever it stands
/// behind the parts of the value, is read back as the value.
#[verifier::rlimit(40)]
proof fn lemma_handle_reads(bs: Seq<u8>, v: ValueView, at: int, pos: int, depth: nat)
    requires
        bs.len() <= MAX_BLOB_LEN,
        0 <= at,
        refs_below(v, at),
        holds_at(bs, at, enc_value(v, at).0),
        at + enc_value(v, at).0.len() <= pos,
        holds_at(bs, pos, enc_imm(enc_value(v, at).1, pos)),
        depth > enc_value(v, at).0.len(),
    ensures
        writable_at(enc_value(v, at).1, pos),
        spec_read_value(bs, pos as Offset, depth) == Ok::<ValueView, Error>(read_back(v)),
    decreases v, 2nat,
{
    let handle = enc_value(v, at).1;
    lemma_enc_imm_nonempty(handle, pos);
    match handle {
        ImmediateView::Pointer(p) => {
            lemma_written_reads(bs, v, at, depth);
            lemma_imm_read(bs, pos as Offset, handle);
        },
        ImmediateView::Variant0(c) => {
            lemma_imm_read(bs, pos as Offset, handle);
            match v {
                ValueView::Cstor(idx, args) => {
                    lemma_run_len(args, at, 0);
                    assert(args =~= Seq::empty());
                    assert(read_back_all(args) =~= Seq::empty());
                    let cur = CursorView { bytes: bs, off: pos as Offset, n_items: 0 };
                    assert(spec_read_items(bs, cur, (depth - 1) as nat) == Ok::<
                        Seq<ValueView>,
                        Error,
                    >(Seq::empty()));
                },
                _ => {},
            }
        },
        _ => {
            lemma_imm_read(bs, pos as Offset, handle);
        },
    }
}

/// The values of a written run are read back, one after the other, from
/// item `k` on.
#[verifier::rlimit(40)]
proof fn lemma_items_read(
    bs: Seq<u8>,
    items: Seq<ValueView>,
    at: int,
    first: int,
    k: int,
    depth: nat,
)
    requires
        bs.len() <= MAX_BLOB_LEN,
        0 <= at,
        forall|i: int| 0 <= i < items.len() ==> refs_below(#[trigger] items[i], at),
        holds_at(bs, at, enc_values(items, at).0),
        at + enc_values(items, at).0.len() <= first,
        holds_at(bs, first, enc_imms(enc_values(items, at).1, first)),
        0 <= k <= items.len(),
        depth > enc_values(items, at).0.len(),
    ensures
        spec_read_items(
            bs,
            CursorView {
                bytes: bs,
                off: imm_pos(enc_values(items, at).1, first, k) as Offset,
                n_items: (items.len() - k) as u32,
            },
            depth,
        ) == Ok::<Seq<ValueView>, Error>(read_back_all(items).skip(k)),
    decreases items, items.len() - k,
{
    let (cb, hs) = enc_values(items, at);
    let run = enc_imms(hs, first);
    let n = items.len() as int;
    lemma_run_len(items, at, first);
    let cur = CursorView {
        bytes: bs,
        off: imm_pos(hs, first, k) as Offset,
        n_items: (n - k) as u32,
    };
    if k == n {
        assert(read_back_all(items).skip(k) =~= Seq::empty());
    } else {
        lemma_enc_values_layout(items, at, k);
        lemma_enc_imms_layout(hs, first, k);
        let at_k = value_pos(items, at, k);
        let pos_k = imm_pos(hs, first, k);
        let next = imm_pos(hs, first, k + 1);
        lemma_holds_at_part(
            bs,
            at,
            cb,
            at_k - at,
            at_k - at + enc_value(items[k], at_k).0.len(),
        );
        lemma_holds_at_part(bs, first, run, pos_k - first, next - first);
        lemma_refs_below_later(items[k], at, at_k);
        lemma_handle_reads(bs, items[k], at_k, pos_k, depth);
        lemma_imm_read(bs, pos_k as Offset, hs[k]);
        lemma_items_read(bs, items, at, first, k + 1, depth);
        assert(cur.advance() == CursorView {
            bytes: bs,
            off: next as Offset,
            n_items: (n - k - 1) as u32,
        });
        assert(read_back_all(items).skip(k) =~= seq![read_back(items[k])] + read_back_all(items).skip(
            k + 1,
        ));
    }
}

/// The key and the value of entry `k` of a written run are read back at
/// the offsets of their immediates, and each immediate is passed over to
/// the next.
#[verifier::rlimit(40)]
proof fn lemma_entry_read(
    bs: Seq<u8>,
    entries: Seq<(ValueView, ValueView)>,
    at: int,
    first: int,
    k: int,
    depth: nat,
)
    requires
        bs.len() <= MAX_BLOB_LEN,
        0 <= at,
        forall|i: int|
            0 <= i < entries.len() ==> refs_below((#[trigger] entries[i]).0, at) && refs_below(
                entries[i].1,
                at,
            ),
        holds_at(bs, at, enc_entries(entries, at).0),
        at + enc_entries(entries, at).0.len() <= first,
        holds_at(bs, first, enc_imms(enc_entries(entries, at).1, first)),
        0 <= k < entries.len(),
        depth > enc_entries(entries, at).0.len(),
    ensures
        0 <= imm_pos(enc_entries(entries, at).1, first, 2 * k) < imm_pos(
            enc_entries(entries, at).1,
            first,
            2 * k + 1,
        ) < imm_pos(enc_entries(entries, at).1, first, 2 * k + 2) <= bs.len(),
        spec_skip(bs, imm_pos(enc_entries(entries, at).1, first, 2 * k) as Offset) == Ok::<
            Offset,
            Error,
        >(imm_pos(enc_entries(entries, at).1, first, 2 * k + 1) as Offset),
        spec_skip(bs, imm_pos(enc_entries(entries, at).1, first, 2 * k + 1) as Offset) == Ok::<
            Offset,
            Error,
        >(imm_pos(enc_entries(entries, at).1, first, 2 * k + 2) as Offset),
        spec_read_value(bs, imm_pos(enc_entries(entries, at).1, first, 2 * k) as Offset, depth)
            == Ok::<ValueView, Error>(read_back(entries[k].0)),
        spec_read_value(
            bs,
            imm_pos(enc_entries(entries, at).1, first, 2 * k + 1) as Offset,
            depth,
        ) == Ok::<ValueView, Error>(read_back(entries[k].1)),
    decreases entries, 0nat,
{
    let (cb, hs) = enc_entries(entries, at);
    let run = enc_imms(hs, first);
    lemma_entries_run_len(entries, at, first);
    lemma_enc_entries_layout(entries, at, k);
    lemma_enc_imms_layout(hs, first, 2 * k);
    lemma_enc_imms_layout(hs, first, 2 * k + 1);
    let key_at = key_pos(entries, at, k);
    let value_at = entry_value_pos(entries, at, k);
    let key_off = imm_pos(hs, first, 2 * k);
    let value_off = imm_pos(hs, first, 2 * k + 1);
    let next = imm_pos(hs, first, 2 * k + 2);
    lemma_enc_imm_nonempty(hs[2 * k], key_off);
    lemma_enc_imm_nonempty(hs[2 * k + 1], value_off);
    lemma_holds_at_part(bs, at, cb, key_at - at, value_at - at);
    lemma_holds_at_part(
        bs,
        at,
        cb,
        value_at - at,
        value_at - at + enc_value(entries[k].1, value_at).0.len(),
    );
    lemma_holds_at_part(bs, first, run, key_off - first, value_off - first);
    lemma_holds_at_part(bs, first, run, value_off - first, next - first);
    lemma_refs_below_later(entries[k].0, at, key_at);
    lemma_refs_below_later(entries[k].1, at, value_at);
    lemma_handle_reads(bs, entries[k].0, key_at, key_off, depth);
    lemma_handle_reads(bs, entries[k].1, value_at, value_off, depth);
    lemma_imm_read(bs, key_off as Offset, hs[2 * k]);
    lemma_imm_read(bs, value_off as Offset, hs[2 * k + 1]);
}

/// The keys and values of a written run are read back, one entry after
/// the other, from entry `k` on.
#[verifier::rlimit(40)]
proof fn lemma_entries_read(
    bs: Seq<u8>,
    entries: Seq<(ValueView, ValueView)>,
    at: int,
    first: int,
    k: int,
    depth: nat,
)
    requires
        bs.len() <= MAX_BLOB_LEN,
        0 <= at,
        forall|i: int|
            0 <= i < entries.len() ==> refs_below((#[trigger] entries[i]).0, at) && refs_below(
                entries[i].1,
                at,
            ),
        holds_at(bs, at, enc_entries(entries, at).0),
        at + enc_entries(entries, at).0.len() <= first,
        holds_at(bs, first, enc_imms(enc_entries(entries, at).1, first)),
        0 <= k <= entries.len(),
        depth > enc_entries(entries, at).0.len(),
    ensures
        spec_read_entries(
            bs,
            CursorView {
                bytes: bs,
                off: imm_pos(enc_entries(entries, at).1, first, 2 * k) as Offset,
                n_items: (entries.len() - k) as u32,
            },
            depth,
        ) == Ok::<Seq<(ValueView, ValueView)>, Error>(read_back_entries(entries).skip(k)),
    decreases entries, 1 + entries.len() - k,
{
    let hs = enc_entries(entries, at).1;
    let n = entries.len() as int;
    lemma_entries_run_len(entries, at, first);
    let cur = CursorView {
        bytes: bs,
        off: imm_pos(hs, first, 2 * k) as Offset,
        n_items: (n - k) as u32,
    };
    if k == n {
        assert(read_back_entries(entries).skip(k) =~= Seq::empty());
    } else {
        lemma_entry_read(bs, entries, at, first, k, depth);
        lemma_entries_read(bs, entries, at, first, k + 1, depth);
        let value_off = imm_pos(hs, first, 2 * k + 1);
        let next = imm_pos(hs, first, 2 * k + 2);
        assert(cur.skip_pair() == Ok::<(Offset, Offset), Error>(
            (value_off as Offset, next as Offset),
        ));
        assert(cur.advance_pair() == CursorView {
            bytes: bs,
            off: next as Offset,
            n_items: (n - k - 1) as u32,
        });
        assert(read_back_entries(entries).skip(k) =~= seq![
            (read_back(entries[k].0), read_back(entries[k].1)),
        ] + read_back_entries(entries).skip(k + 1));
    }
}

/// What a written value is read back as.
///
/// Take any value in which every reference points below the place where
/// writing starts. Write it with all its parts behind any bytes `before`;
/// let any bytes `after` follow. If the blob fits the decoder, no pointer
/// stands at the offset that the writer returned, and reading there gives
/// what [`read_back`] says: the value with its references as they were,
/// and with a constructor with no arguments wherever a constructor
/// without arguments stood as a value of its own kind.
pub proof fn lemma_value_read_back(before: Seq<u8>, v: ValueView, after: Seq<u8>)
    requires
        refs_below(v, before.len() as int),
        (before + enc_whole(v, before.len() as int) + after).len() <= MAX_BLOB_LEN,
    ensures
        0 <= whole_offset(v, before.len() as int) < (before + enc_whole(
            v,
            before.len() as int,
        )).len(),
        spec_deref(
            before + enc_whole(v, before.len() as int) + after,
            whole_offset(v, before.len() as int) as Offset,
        ) == Ok::<Offset, Error>(whole_offset(v, before.len() as int) as Offset),
        spec_read_value(
            before + enc_whole(v, before.len() as int) + after,
            whole_offset(v, before.len() as int) as Offset,
            max_depth((before + enc_whole(v, before.len() as int) + after).len()),
        ) == Ok::<ValueView, Error>(read_back(v)),
{
    let at = before.len() as int;
    let whole = enc_whole(v, at);
    let blob = before + whole + after;
    let (bytes, handle) = enc_value(v, at);
    let pos = at + bytes.len();
    let depth = max_depth(blob.len());
    assert(holds_at(blob, at, whole)) by {
        assert(blob.subrange(at, at + whole.len()) =~= whole);
    }
    lemma_holds_at_split(blob, at, bytes, entry_bytes(handle, pos));
    if handle is Pointer {
        lemma_written_reads(blob, v, at, depth);
    } else {
        lemma_handle_reads(blob, v, at, pos, depth);
        lemma_imm_read(blob, pos as Offset, handle);
    }
}

/// A value that was written is read back as it was.
///
/// Take any value in which no constructor without arguments stands as a
/// value of its own kind and every reference points below the place
/// where writing starts. Write it with all its parts behind any bytes
/// `before`; let any bytes `after` follow. If the blob fits the decoder,
/// reading at the offset that the writer returned gives the value back.
pub proof fn lemma_value_round_trip(before: Seq<u8>, v: ValueView, after: Seq<u8>)
    requires
        comes_back(v),
        refs_below(v, before.len() as int),
        (before + enc_whole(v, before.len() as int) + after).len() <= MAX_BLOB_LEN,
    ensures
        spec_read_value(
            before + enc_whole(v, before.len() as int) + after,
            whole_offset(v, before.len() as int) as Offset,
            max_depth((before + enc_whole(v, before.len() as int) + after).len()),
        ) == Ok::<ValueView, Error>(v),
{
    lemma_value_read_back(before, v, after);
    lemma_comes_back(v);
}

/// The blob that comes of writing `v` behind `before` and closing on a
/// pointer to it.
pub open spec fn closed_on(before: Seq<u8>, v: ValueView) -> Seq<u8> {
    let written = before + enc_whole(v, before.len() as int);
    written + enc_final(
        ImmediateView::Pointer(whole_offset(v, before.len() as int) as Offset),
        written.len() as int,
    )
}

/// A blob that was closed on a written value gives the value back from
/// its entry point.
///
/// Take a value as in [`lemma_value_round_trip`], write it behind any
/// bytes `before`, and close the blob on a pointer to the offset that
/// the writer returned. If the blob fits the decoder, its last byte is at
/// most `MAX_POSTFIX`, its entry point is that offset, and reading there
/// gives the value back.
pub proof fn lemma_entry_round_trip(before: Seq<u8>, v: ValueView)
    requires
        comes_back(v),
        refs_below(v, before.len() as int),
        closed_on(before, v).len() <= MAX_BLOB_LEN,
    ensures
        closed_on(before, v).last() <= MAX_POSTFIX,
        spec_entrypoint(closed_on(before, v)) == Ok::<Offset, Error>(
            whole_offset(v, before.len() as int) as Offset,
        ),
        spec_read_value(
            closed_on(before, v),
            whole_offset(v, before.len() as int) as Offset,
            max_depth(closed_on(before, v).len()),
        ) == Ok::<ValueView, Error>(v),
{
    let at = before.len() as int;
    let written = before + enc_whole(v, at);
    let entry = ImmediateView::Pointer(whole_offset(v, at) as Offset);
    let tail = enc_final(entry, written.len() as int);
    assert(closed_on(before, v) == written + tail);
    lemma_value_round_trip(before, v, tail);
    lemma_value_read_back(before, v, tail);
    lemma_closed_blob_entry(written, entry);
}

/// A reference that was written is read back as the reference it was:
/// as one layer, and as a whole value.
pub proof fn lemma_ref_survives(bs: Seq<u8>, at: Offset, target: Offset, depth: nat)
    requires
        bs.len() <= MAX_BLOB_LEN,
        target < at,
        depth > 0,
        holds_at(bs, at as int, enc_imm(ImmediateView::Ref(target), at as int)),
    ensures
        spec_shallow(bs, at) == Ok::<ShallowView, Error>(
            ShallowView::Imm(ImmediateView::Ref(target)),
        ),
        spec_read_value(bs, at, depth) == Ok::<ValueView, Error>(ValueView::Ref(target)),
{
    lemma_imm_read(bs, at, ImmediateView::Ref(target));
}

} // verus!
