//! One layer of a value, and the cursors that walk the items of an array,
//! a map or a constructor.

use crate::deser::{spec_skip, Decoder};
use crate::types::{Error, Immediate, ImmediateView, Offset, Result, Tag, VariantIdx};
use vstd::prelude::*;

verus! {

/// What a cursor stands for: the blob it walks, the offset of its next
/// item, and how many items are left.
pub ghost struct CursorView {
    pub bytes: Seq<u8>,
    pub off: Offset,
    pub n_items: u32,
}

impl CursorView {
    /// The cursor one step on: one item fewer, and behind the item it
    /// stood on unless that item cannot be skipped.
    pub open spec fn advance(self) -> CursorView {
        if self.n_items == 0 {
            self
        } else {
            CursorView {
                bytes: self.bytes,
                off: match spec_skip(self.bytes, self.off) {
                    Ok(next) => next,
                    Err(_) => self.off,
                },
                n_items: (self.n_items - 1) as u32,
            }
        }
    }

    /// What a step of an array cursor yields: nothing at the end, else
    /// the offset of the item, or the reason why it cannot be skipped.
    pub open spec fn next_item(self) -> Option<Result<Offset>> {
        if self.n_items == 0 {
            None
        } else {
            match spec_skip(self.bytes, self.off) {
                Ok(_) => Some(Ok(self.off)),
                Err(e) => Some(Err(e)),
            }
        }
    }

    /// The offsets that an array cursor yields before it ends or fails.
    pub open spec fn offsets(self) -> Seq<Offset>
        decreases self.n_items,
    {
        if self.n_items == 0 {
            Seq::empty()
        } else {
            match spec_skip(self.bytes, self.off) {
                Ok(_) => seq![self.off] + self.advance().offsets(),
                Err(_) => Seq::empty(),
            }
        }
    }

    /// The first failure that an array cursor meets, if any.
    pub open spec fn failure(self) -> Option<Error>
        decreases self.n_items,
    {
        if self.n_items == 0 {
            None
        } else {
            match spec_skip(self.bytes, self.off) {
                Ok(_) => self.advance().failure(),
                Err(e) => Some(e),
            }
        }
    }

    /// Where a map cursor stands after the key and the value of its next
    /// entry, with the offset of the value.
    pub open spec fn skip_pair(self) -> Result<(Offset, Offset)> {
        match spec_skip(self.bytes, self.off) {
            Err(e) => Err(e),
            Ok(value) => match spec_skip(self.bytes, value) {
                Err(e) => Err(e),
                Ok(next) => Ok((value, next)),
            },
        }
    }

    /// The map cursor one step on.
    pub open spec fn advance_pair(self) -> CursorView {
        if self.n_items == 0 {
            self
        } else {
            CursorView {
                bytes: self.bytes,
                off: match self.skip_pair() {
                    Ok((_, next)) => next,
                    Err(_) => self.off,
                },
                n_items: (self.n_items - 1) as u32,
            }
        }
    }

    /// What a step of a map cursor yields: nothing at the end, else the
    /// offsets of a key and of its value, or the reason why one of them
    /// cannot be skipped.
    pub open spec fn next_pair(self) -> Option<Result<(Offset, Offset)>> {
        if self.n_items == 0 {
            None
        } else {
            match self.skip_pair() {
                Ok((value, _)) => Some(Ok((self.off, value))),
                Err(e) => Some(Err(e)),
            }
        }
    }

    /// The entries that a map cursor yields before it ends or fails.
    pub open spec fn pairs(self) -> Seq<(Offset, Offset)>
        decreases self.n_items,
    {
        if self.n_items == 0 {
            Seq::empty()
        } else {
            match self.skip_pair() {
                Ok((value, _)) => seq![(self.off, value)] + self.advance_pair().pairs(),
                Err(_) => Seq::empty(),
            }
        }
    }

    /// The first failure that a map cursor meets, if any.
    pub open spec fn pair_failure(self) -> Option<Error>
        decreases self.n_items,
    {
        if self.n_items == 0 {
            None
        } else {
            match self.skip_pair() {
                Ok(_) => self.advance_pair().pair_failure(),
                Err(e) => Some(e),
            }
        }
    }

    /// The cursor after `k` steps of an array cursor.
    pub open spec fn after(self, k: nat) -> CursorView
        decreases k,
    {
        if k == 0 {
            self
        } else {
            self.advance().after((k - 1) as nat)
        }
    }

    /// The cursor after `k` steps of a map cursor.
    pub open spec fn after_pairs(self, k: nat) -> CursorView
        decreases k,
    {
        if k == 0 {
            self
        } else {
            self.advance_pair().after_pairs((k - 1) as nat)
        }
    }
}

/// A cursor yields as many items as it says it has left, and then
/// nothing: each of the first `n_items` steps yields an item (an offset
/// or a failure), and every later step yields nothing.
pub proof fn lemma_cursor_len(c: CursorView, k: nat)
    ensures
        c.after(k).n_items == if k <= c.n_items { c.n_items - k } else { 0 },
        k < c.n_items <==> c.after(k).next_item() is Some,
        c.after_pairs(k).n_items == if k <= c.n_items { c.n_items - k } else { 0 },
        k < c.n_items <==> c.after_pairs(k).next_pair() is Some,
    decreases k,
{
    if k > 0 {
        lemma_cursor_len(c.advance(), (k - 1) as nat);
        lemma_cursor_len(c.advance_pair(), (k - 1) as nat);
    }
}

/// A cursor over the items of an array or the arguments of a constructor:
/// one pass, a known number of steps, each of which may fail.
#[derive(Debug, Clone, Copy)]
pub struct ArrayCursor<'a> {
    dec: Decoder<'a>,
    off: Offset,
    n_items: u32,
}

impl<'a> View for ArrayCursor<'a> {
    type V = CursorView;

    closed spec fn view(&self) -> CursorView {
        CursorView { bytes: self.dec@, off: self.off, n_items: self.n_items }
    }
}

impl<'a> ArrayCursor<'a> {
    /// A cursor over `n_items` immediates that start at `off`.
    pub(crate) fn new(dec: Decoder<'a>, off: Offset, n_items: u32) -> (c: Self)
        ensures
            c@ == (CursorView { bytes: dec@, off, n_items }),
    {
        ArrayCursor { dec, off, n_items }
    }

    /// The number of items left.
    pub fn len(&self) -> (n: usize)
        ensures
            n == self@.n_items,
    {
        self.n_items as usize
    }

    /// One step: the offset of the next item, or the reason why the
    /// cursor cannot pass over it; nothing when no item is left.
    pub fn next(&mut self) -> (item: Option<Result<Offset>>)
        ensures
            item == old(self)@.next_item(),
            final(self)@ == old(self)@.advance(),
    {
        if self.n_items == 0 {
            return None;
        }
        self.n_items = self.n_items - 1;
        let off = self.off;
        match self.dec.skip(off) {
            Ok(next) => {
                self.off = next;
                Some(Ok(off))
            },
            Err(e) => Some(Err(e)),
        }
    }
}

/// A cursor over the entries of a map: one pass, a known number of steps,
/// each of which may fail.
#[derive(Debug, Clone, Copy)]
pub struct MapCursor<'a> {
    dec: Decoder<'a>,
    off: Offset,
    n_items: u32,
}

impl<'a> View for MapCursor<'a> {
    type V = CursorView;

    closed spec fn view(&self) -> CursorView {
        CursorView { bytes: self.dec@, off: self.off, n_items: self.n_items }
    }
}

impl<'a> MapCursor<'a> {
    /// A cursor over `n_items` pairs of immediates that start at `off`.
    pub(crate) fn new(dec: Decoder<'a>, off: Offset, n_items: u32) -> (c: Self)
        ensures
            c@ == (CursorView { bytes: dec@, off, n_items }),
    {
        MapCursor { dec, off, n_items }
    }

    /// The number of entries left.
    pub fn len(&self) -> (n: usize)
        ensures
            n == self@.n_items,
    {
        self.n_items as usize
    }

    /// One step: the offsets of the next key and of its value, or the
    /// reason why the cursor cannot pass over one of them; nothing when no
    /// entry is left.
    pub fn next(&mut self) -> (item: Option<Result<(Offset, Offset)>>)
        ensures
            item == old(self)@.next_pair(),
            final(self)@ == old(self)@.advance_pair(),
    {
        if self.n_items == 0 {
            return None;
        }
        self.n_items = self.n_items - 1;
        let key = self.off;
        let value = match self.dec.skip(key) {
            Ok(value) => value,
            Err(e) => { return Some(Err(e)); },
        };
        match self.dec.skip(value) {
            Ok(next) => {
                self.off = next;
                Some(Ok((key, value)))
            },
            Err(e) => Some(Err(e)),
        }
    }
}

/// One layer of the value at an offset. A pointer never shows here: it
/// has been followed.
#[derive(Debug, Clone, Copy)]
pub enum ShallowValue<'a> {
    Imm(Immediate<'a>),
    /// A tag and the offset of the value it is attached to.
    Tag(Tag, Offset),
    Array(ArrayCursor<'a>),
    /// A map.
    Dict(MapCursor<'a>),
    /// A constructor and its arguments.
    Cstor(VariantIdx, ArrayCursor<'a>),
}

/// What a [`ShallowValue`] stands for.
pub ghost enum ShallowView {
    Imm(ImmediateView),
    Tag(Tag, Offset),
    Array(CursorView),
    Dict(CursorView),
    Cstor(VariantIdx, CursorView),
}

impl<'a> View for ShallowValue<'a> {
    type V = ShallowView;

    open spec fn view(&self) -> ShallowView {
        match *self {
            ShallowValue::Imm(i) => ShallowView::Imm(i@),
            ShallowValue::Tag(t, o) => ShallowView::Tag(t, o),
            ShallowValue::Array(c) => ShallowView::Array(c@),
            ShallowValue::Dict(c) => ShallowView::Dict(c@),
            ShallowValue::Cstor(i, c) => ShallowView::Cstor(i, c@),
        }
    }
}

} // verus!
