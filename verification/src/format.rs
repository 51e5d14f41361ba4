//! The wire format, as functions from values to bytes.
//!
//! A value starts with one byte of two nibbles: the high one says what
//! kind of value it is, the low one holds a small number or says that a
//! LEB128 number follows.

use crate::leb128::leb128_bytes;
use crate::types::{FloatBits, Immediate, ImmediateView, Offset, Tag, VariantIdx};
use vstd::prelude::*;
use vstd::utf8::encode_utf8;

verus! {

/// The first byte of a value, from its two nibbles.
pub open spec fn head_byte(high: u8, low: u8) -> u8 {
    (high * 16 + low) as u8
}

/// A kind nibble followed by a number: in the low nibble if it is
/// below 15, else as 15 and the rest in LEB128.
pub open spec fn enc_head(high: u8, n: u64) -> Seq<u8> {
    if n < 15 {
        seq![head_byte(high, n as u8)]
    } else {
        seq![head_byte(high, 15)] + leb128_bytes((n - 15) as nat)
    }
}

/// The four bytes of `x`, least significant first.
pub open spec fn le_bytes_u32(x: u32) -> Seq<u8> {
    seq![
        (x % 256) as u8,
        (x / 0x100 % 256) as u8,
        (x / 0x1_0000 % 256) as u8,
        (x / 0x100_0000 % 256) as u8,
    ]
}

/// The eight bytes of `x`, least significant first.
pub open spec fn le_bytes_u64(x: u64) -> Seq<u8> {
    seq![
        (x % 256) as u8,
        (x / 0x100 % 256) as u8,
        (x / 0x1_0000 % 256) as u8,
        (x / 0x100_0000 % 256) as u8,
        (x / 0x1_0000_0000 % 256) as u8,
        (x / 0x100_0000_0000 % 256) as u8,
        (x / 0x1_0000_0000_0000 % 256) as u8,
        (x / 0x100_0000_0000_0000 % 256) as u8,
    ]
}

/// The number that stands for a signed integer after its kind nibble:
/// the integer itself if it is not negative, else `-(i + 1)`.
pub open spec fn int_magnitude(i: i64) -> u64 {
    if i >= 0 {
        i as u64
    } else {
        (-(i + 1)) as u64
    }
}

/// The distance that a back-reference written at `at` stores for the
/// target `p`.
pub open spec fn back_delta(at: int, p: Offset) -> u64 {
    (at - p - 1) as u64
}

/// Whether an immediate can be written at offset `at`: a reference must
/// point below the place where it stands.
pub open spec fn writable_at(v: ImmediateView, at: int) -> bool {
    match v {
        ImmediateView::Ref(p) => p < at,
        ImmediateView::Pointer(p) => p < at,
        _ => true,
    }
}

/// The bytes of an immediate written at offset `at`.
pub open spec fn enc_imm(v: ImmediateView, at: int) -> Seq<u8> {
    match v {
        ImmediateView::Null => seq![head_byte(0, 2)],
        ImmediateView::Bool(b) => seq![head_byte(0, if b { 1 } else { 0 })],
        ImmediateView::Int64(i) => enc_head(if i >= 0 { 1 } else { 2 }, int_magnitude(i)),
        ImmediateView::Float(FloatBits::Single(b)) => seq![head_byte(3, 0)] + le_bytes_u32(b),
        ImmediateView::Float(FloatBits::Double(b)) => seq![head_byte(3, 1)] + le_bytes_u64(b),
        ImmediateView::String(s) => enc_head(4, encode_utf8(s).len() as u64) + encode_utf8(s),
        ImmediateView::Bytes(b) => enc_head(5, b.len() as u64) + b,
        ImmediateView::Variant0(c) => enc_head(10, c.0 as u64),
        ImmediateView::Ref(p) => enc_head(14, back_delta(at, p)),
        ImmediateView::Pointer(p) => enc_head(15, back_delta(at, p)),
    }
}

/// What a slice of immediates stands for.
pub open spec fn imm_views(items: Seq<Immediate>) -> Seq<ImmediateView> {
    Seq::new(items.len(), |i: int| items[i]@)
}

/// What a slice of pairs of immediates stands for: keys and values in
/// turn.
#[verifier::opaque]
pub open spec fn pair_views(pairs: Seq<(Immediate, Immediate)>) -> Seq<ImmediateView> {
    Seq::new(2 * pairs.len(), |i: int| if i % 2 == 0 { pairs[i / 2].0@ } else { pairs[i / 2].1@ })
}

/// The bytes of immediates written one after the other from `at` on.
pub open spec fn enc_imms(items: Seq<ImmediateView>, at: int) -> Seq<u8>
    decreases items.len(),
{
    if items.len() == 0 {
        Seq::empty()
    } else {
        let front = enc_imms(items.drop_last(), at);
        front + enc_imm(items.last(), at + front.len())
    }
}

/// The offset at which item `i` of a run of immediates from `at` stands.
pub open spec fn imm_pos(items: Seq<ImmediateView>, at: int, i: int) -> int {
    at + enc_imms(items.take(i), at).len()
}

/// Whether a run of immediates can be written from `at` on: each
/// reference in it points below its own place.
pub open spec fn imms_writable(items: Seq<ImmediateView>, at: int) -> bool {
    forall|i: int| 0 <= i < items.len() ==> writable_at(#[trigger] items[i], imm_pos(items, at, i))
}

/// Writing one more item of a run adds its bytes at its place.
pub proof fn lemma_enc_imms_step(items: Seq<ImmediateView>, at: int, i: int)
    requires
        0 <= i < items.len(),
    ensures
        enc_imms(items.take(i + 1), at) == enc_imms(items.take(i), at) + enc_imm(
            items[i],
            imm_pos(items, at, i),
        ),
{
    assert(items.take(i + 1).drop_last() =~= items.take(i));
}

/// Keys and values in turn: how many there are.
pub proof fn lemma_pair_views_len(pairs: Seq<(Immediate, Immediate)>)
    ensures
        pair_views(pairs).len() == 2 * pairs.len(),
        pair_views(pairs).len() / 2 == pairs.len(),
{
    reveal(pair_views);
}

/// Keys and values in turn: where each of them stands.
pub proof fn lemma_pair_views(pairs: Seq<(Immediate, Immediate)>, i: int)
    requires
        0 <= i < pairs.len(),
    ensures
        pair_views(pairs).len() == 2 * pairs.len(),
        pair_views(pairs)[2 * i] == pairs[i].0@,
        pair_views(pairs)[2 * i + 1] == pairs[i].1@,
{
    reveal(pair_views);
}

/// Keys and values in turn: one more entry adds its key and its value.
pub proof fn lemma_pair_views_push(pairs: Seq<(Immediate, Immediate)>, entry: (Immediate, Immediate))
    ensures
        pair_views(pairs.push(entry)) == pair_views(pairs).push(entry.0@).push(entry.1@),
{
    reveal(pair_views);
    let n = pairs.len() as int;
    assert forall|i: int| 0 <= i < 2 * n + 2 implies pair_views(pairs.push(entry))[i]
        == pair_views(pairs).push(entry.0@).push(entry.1@)[i] by {
        if i < 2 * n {
            assert(pairs.push(entry)[i / 2] == pairs[i / 2]);
        } else {
            assert(i / 2 == n);
        }
    }
    assert(pair_views(pairs.push(entry)) =~= pair_views(pairs).push(entry.0@).push(entry.1@));
}

/// A run of immediates whose references all point below `bound` can be
/// written anywhere from `bound` on.
pub proof fn lemma_imms_writable_from(items: Seq<ImmediateView>, bound: int, at: int)
    requires
        bound <= at,
        forall|i: int| 0 <= i < items.len() ==> writable_at(#[trigger] items[i], bound),
    ensures
        imms_writable(items, at),
{
}

/// The bytes of a tagged value written at `at`.
pub open spec fn enc_tag(tag: Tag, v: ImmediateView, at: int) -> Seq<u8> {
    let head = enc_head(8, tag as u64);
    head + enc_imm(v, at + head.len())
}

/// The bytes of an array written at `at`.
pub open spec fn enc_array(items: Seq<ImmediateView>, at: int) -> Seq<u8> {
    let head = enc_head(6, items.len() as u64);
    head + enc_imms(items, at + head.len())
}

/// The bytes of a map written at `at`; `items` holds its keys and values
/// in turn.
pub open spec fn enc_map(items: Seq<ImmediateView>, at: int) -> Seq<u8> {
    let head = enc_head(7, (items.len() / 2) as u64);
    head + enc_imms(items, at + head.len())
}

/// The bytes in front of the arguments of a constructor with arguments.
pub open spec fn enc_cstor_head(c: VariantIdx, n_args: nat) -> Seq<u8> {
    if n_args == 1 {
        enc_head(11, c.0 as u64)
    } else {
        enc_head(12, c.0 as u64) + leb128_bytes(n_args)
    }
}

/// The bytes that writing a constructor at `at` adds: none if it has no
/// arguments.
pub open spec fn enc_cstor(c: VariantIdx, args: Seq<ImmediateView>, at: int) -> Seq<u8> {
    if args.len() == 0 {
        Seq::empty()
    } else {
        let head = enc_cstor_head(c, args.len());
        head + enc_imms(args, at + head.len())
    }
}

/// The immediate that stands for a constructor written at `at`.
pub open spec fn cstor_handle(c: VariantIdx, n_args: nat, at: int) -> ImmediateView {
    if n_args == 0 {
        ImmediateView::Variant0(c)
    } else {
        ImmediateView::Pointer(at as Offset)
    }
}

/// Whatever is written takes at least one byte, so that the next write
/// starts at a greater offset: an immediate, a tag, an array, a map, and
/// a constructor with arguments.
pub proof fn lemma_written_nonempty(
    v: ImmediateView,
    tag: Tag,
    c: VariantIdx,
    items: Seq<ImmediateView>,
    at: int,
)
    ensures
        enc_imm(v, at).len() > 0,
        enc_tag(tag, v, at).len() > 0,
        enc_array(items, at).len() > 0,
        enc_map(items, at).len() > 0,
        items.len() > 0 ==> enc_cstor(c, items, at).len() > 0,
{
}

/// The largest distance that the last byte of a blob may hold.
pub const MAX_POSTFIX: u8 = 250;

/// The offset of the value that a blob is closed on, given the entry
/// handed to the encoder at `at`: the target of a pointer, else the place
/// where the entry is written.
pub open spec fn entry_offset(entry: ImmediateView, at: int) -> int {
    match entry {
        ImmediateView::Pointer(p) => p as int,
        _ => at,
    }
}

/// The bytes that the entry itself takes when a blob is closed at `at`.
pub open spec fn entry_bytes(entry: ImmediateView, at: int) -> Seq<u8> {
    match entry {
        ImmediateView::Pointer(_) => Seq::empty(),
        _ => enc_imm(entry, at),
    }
}

/// The bytes that close a blob at `at` on `entry`: the entry unless it is
/// a pointer, a pointer to it if the last byte could not reach it, and the
/// last byte.
pub open spec fn enc_final(entry: ImmediateView, at: int) -> Seq<u8> {
    let body = entry_bytes(entry, at);
    let e = entry_offset(entry, at);
    let top = at + body.len();
    if top - e - 1 > MAX_POSTFIX {
        let hop = enc_imm(ImmediateView::Pointer(e as Offset), top);
        body + hop + seq![(hop.len() - 1) as u8]
    } else {
        body + seq![(top - e - 1) as u8]
    }
}

} // verus!
