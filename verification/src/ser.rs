//! The encoder: writes values one after the other into a byte buffer and
//! says at which offset each one starts.

use crate::format::{
    back_delta, cstor_handle, enc_array, enc_cstor, enc_cstor_head, enc_final, enc_head, enc_imm,
    enc_imms, enc_map, enc_tag, entry_bytes, entry_offset, head_byte, imm_pos, imm_views,
    imms_writable, lemma_enc_imms_step, lemma_pair_views, lemma_pair_views_len, pair_views,
    writable_at, MAX_POSTFIX,
};
use crate::leb128::enc_leb128;
use crate::types::{FloatBits, Immediate, ImmediateView, Offset, Tag, VariantIdx};
use vstd::prelude::*;
use vstd::slice::slice_subrange;

verus! {

/// A writer of twine values. It appends to a byte buffer that it owns and
/// counts offsets from the place where it started.
pub struct Encoder {
    /// What the buffer held when the encoder was made.
    head: Vec<u8>,
    /// What was written since.
    w: Vec<u8>,
}

impl View for Encoder {
    type V = Seq<u8>;

    /// The bytes written through this encoder so far.
    closed spec fn view(&self) -> Seq<u8> {
        self.w@
    }
}

impl Encoder {
    /// What the buffer held when the encoder was made.
    pub closed spec fn prefix(&self) -> Seq<u8> {
        self.head@
    }

    /// The offset at which the next value will start.
    pub open spec fn spec_offset(&self) -> Offset {
        self@.len() as Offset
    }

    /// Makes an encoder that appends to `w`. Offsets count from the end
    /// of what `w` holds already.
    pub fn new(w: Vec<u8>) -> (enc: Self)
        ensures
            enc@ == Seq::<u8>::empty(),
            enc.prefix() == w@,
    {
        Encoder { head: w, w: Vec::new() }
    }

    /// The offset at which the next value will start.
    #[verifier::when_used_as_spec(spec_offset)]
    pub fn offset(&self) -> (off: Offset)
        ensures
            off == self@.len(),
    {
        self.w.len() as u64
    }

    /// The bytes written so far.
    pub fn as_bytes(&self) -> (bs: &[u8])
        ensures
            bs@ == self@,
    {
        self.w.as_slice()
    }

    /// Gives the buffer back: what it held at first, then the bytes written.
    pub fn into_inner(self) -> (w: Vec<u8>)
        ensures
            w@ == self.prefix() + self@,
    {
        let mut out = self.head;
        out.extend_from_slice(self.w.as_slice());
        assert(out@ =~= self.prefix() + self@);
        out
    }

    /// Appends one byte and returns the offset at which it stands.
    fn put_byte(&mut self, b: u8) -> (off: Offset)
        ensures
            off == old(self)@.len(),
            final(self)@ == old(self)@.push(b),
            final(self).prefix() == old(self).prefix(),
    {
        let off = self.w.len() as u64;
        self.w.push(b);
        off
    }

    /// Appends the bytes of `bs`.
    fn put_slice(&mut self, bs: &[u8])
        ensures
            final(self)@ == old(self)@ + bs@,
            final(self).prefix() == old(self).prefix(),
    {
        self.w.extend_from_slice(bs);
        assert(self@ =~= old(self)@ + bs@);
    }

    /// Writes the byte made of the kind nibble `high` and of `low`.
    fn first_byte(&mut self, high: u8, low: u8) -> (off: Offset)
        requires
            high < 16,
            low < 16,
        ensures
            off == old(self)@.len(),
            final(self)@ == old(self)@.push(head_byte(high, low)),
            final(self).prefix() == old(self).prefix(),
    {
        self.put_byte(high * 16 + low)
    }

    /// Writes the kind nibble `high` and the number `n`.
    fn first_byte_and_u64(&mut self, high: u8, n: u64) -> (off: Offset)
        requires
            high < 16,
        ensures
            off == old(self)@.len(),
            final(self)@ == old(self)@ + enc_head(high, n),
            final(self).prefix() == old(self).prefix(),
    {
        if n < 15 {
            let off = self.first_byte(high, n as u8);
            assert(self@ =~= old(self)@ + enc_head(high, n));
            return off;
        }
        let mut buf = [0u8; 10];
        let len = enc_leb128(n - 15, &mut buf);
        let off = self.first_byte(high, 15);
        self.put_slice(slice_subrange(buf.as_slice(), 0, len));
        assert(self@ =~= old(self)@ + enc_head(high, n));
        off
    }

    /// Writes null.
    pub fn write_null(&mut self) -> (off: Offset)
        ensures
            off == old(self)@.len(),
            final(self)@ == old(self)@ + enc_imm(ImmediateView::Null, off as int),
            final(self)@.len() > old(self)@.len(),
            final(self).prefix() == old(self).prefix(),
    {
        let off = self.first_byte(0, 2);
        assert(self@ =~= old(self)@ + enc_imm(ImmediateView::Null, off as int));
        off
    }

    /// Writes a boolean.
    pub fn write_bool(&mut self, b: bool) -> (off: Offset)
        ensures
            off == old(self)@.len(),
            final(self)@ == old(self)@ + enc_imm(ImmediateView::Bool(b), off as int),
            final(self)@.len() > old(self)@.len(),
            final(self).prefix() == old(self).prefix(),
    {
        let off = self.first_byte(0, if b { 1 } else { 0 });
        assert(self@ =~= old(self)@ + enc_imm(ImmediateView::Bool(b), off as int));
        off
    }

    /// Writes a signed integer.
    pub fn write_i64(&mut self, n: i64) -> (off: Offset)
        ensures
            off == old(self)@.len(),
            final(self)@ == old(self)@ + enc_imm(ImmediateView::Int64(n), off as int),
            final(self)@.len() > old(self)@.len(),
            final(self).prefix() == old(self).prefix(),
    {
        if n < 0 {
            self.first_byte_and_u64(2, (-(n + 1)) as u64)
        } else {
            self.first_byte_and_u64(1, n as u64)
        }
    }

    /// Writes a reference to the value at `p`, which the reader will see
    /// as data.
    pub fn write_ref(&mut self, p: Offset) -> (off: Offset)
        requires
            p < old(self)@.len(),
        ensures
            off == old(self)@.len(),
            final(self)@ == old(self)@ + enc_imm(ImmediateView::Ref(p), off as int),
            final(self)@.len() > old(self)@.len(),
            final(self).prefix() == old(self).prefix(),
    {
        let off = self.offset();
        self.first_byte_and_u64(14, off - p - 1)
    }

    /// Writes a pointer to the value at `p`, which the reader will follow
    /// without showing it.
    pub fn write_pointer(&mut self, p: Offset) -> (off: Offset)
        requires
            p < old(self)@.len(),
        ensures
            off == old(self)@.len(),
            final(self)@ == old(self)@ + enc_imm(ImmediateView::Pointer(p), off as int),
            final(self)@.len() > old(self)@.len(),
            final(self).prefix() == old(self).prefix(),
    {
        let off = self.offset();
        self.first_byte_and_u64(15, off - p - 1)
    }

    /// Writes a single-precision number, given by its bits.
    pub fn write_f32(&mut self, bits: u32) -> (off: Offset)
        ensures
            off == old(self)@.len(),
            final(self)@ == old(self)@ + enc_imm(
                ImmediateView::Float(FloatBits::Single(bits)),
                off as int,
            ),
            final(self)@.len() > old(self)@.len(),
            final(self).prefix() == old(self).prefix(),
    {
        let off = self.first_byte(3, 0);
        self.put_byte((bits % 256) as u8);
        self.put_byte((bits / 0x100 % 256) as u8);
        self.put_byte((bits / 0x1_0000 % 256) as u8);
        self.put_byte((bits / 0x100_0000 % 256) as u8);
        assert(self@ =~= old(self)@ + enc_imm(
            ImmediateView::Float(FloatBits::Single(bits)),
            off as int,
        ));
        off
    }

    /// Writes a double-precision number, given by its bits.
    pub fn write_f64(&mut self, bits: u64) -> (off: Offset)
        ensures
            off == old(self)@.len(),
            final(self)@ == old(self)@ + enc_imm(
                ImmediateView::Float(FloatBits::Double(bits)),
                off as int,
            ),
            final(self)@.len() > old(self)@.len(),
            final(self).prefix() == old(self).prefix(),
    {
        let off = self.first_byte(3, 1);
        self.put_byte((bits % 256) as u8);
        self.put_byte((bits / 0x100 % 256) as u8);
        self.put_byte((bits / 0x1_0000 % 256) as u8);
        self.put_byte((bits / 0x100_0000 % 256) as u8);
        self.put_byte((bits / 0x1_0000_0000 % 256) as u8);
        self.put_byte((bits / 0x100_0000_0000 % 256) as u8);
        self.put_byte((bits / 0x1_0000_0000_0000 % 256) as u8);
        self.put_byte((bits / 0x100_0000_0000_0000 % 256) as u8);
        assert(self@ =~= old(self)@ + enc_imm(
            ImmediateView::Float(FloatBits::Double(bits)),
            off as int,
        ));
        off
    }

    /// Writes a text.
    pub fn write_string(&mut self, s: &str) -> (off: Offset)
        ensures
            off == old(self)@.len(),
            final(self)@ == old(self)@ + enc_imm(ImmediateView::String(s@), off as int),
            final(self)@.len() > old(self)@.len(),
            final(self).prefix() == old(self).prefix(),
    {
        let bytes = s.as_bytes();
        let off = self.first_byte_and_u64(4, bytes.len() as u64);
        self.put_slice(bytes);
        assert(self@ =~= old(self)@ + enc_imm(ImmediateView::String(s@), off as int));
        off
    }

    /// Writes binary data.
    pub fn write_bytes(&mut self, b: &[u8]) -> (off: Offset)
        ensures
            off == old(self)@.len(),
            final(self)@ == old(self)@ + enc_imm(ImmediateView::Bytes(b@), off as int),
            final(self)@.len() > old(self)@.len(),
            final(self).prefix() == old(self).prefix(),
    {
        let off = self.first_byte_and_u64(5, b.len() as u64);
        self.put_slice(b);
        assert(self@ =~= old(self)@ + enc_imm(ImmediateView::Bytes(b@), off as int));
        off
    }

    /// Writes a constructor without arguments.
    pub fn write_cstor0(&mut self, c: VariantIdx) -> (off: Offset)
        ensures
            off == old(self)@.len(),
            final(self)@ == old(self)@ + enc_imm(ImmediateView::Variant0(c), off as int),
            final(self)@.len() > old(self)@.len(),
            final(self).prefix() == old(self).prefix(),
    {
        self.first_byte_and_u64(10, c.0 as u64)
    }

    /// Writes an immediate value.
    #[must_use]
    pub fn write_immediate(&mut self, imm: Immediate) -> (off: Offset)
        requires
            writable_at(imm@, old(self)@.len() as int),
        ensures
            off == old(self)@.len(),
            final(self)@ == old(self)@ + enc_imm(imm@, off as int),
            final(self)@.len() > old(self)@.len(),
            final(self).prefix() == old(self).prefix(),
    {
        match imm {
            Immediate::Null => self.write_null(),
            Immediate::Bool(b) => self.write_bool(b),
            Immediate::Int64(i) => self.write_i64(i),
            Immediate::Float(FloatBits::Single(b)) => self.write_f32(b),
            Immediate::Float(FloatBits::Double(b)) => self.write_f64(b),
            Immediate::String(s) => self.write_string(s),
            Immediate::Bytes(b) => self.write_bytes(b),
            Immediate::Variant0(c) => self.write_cstor0(c),
            Immediate::Ref(p) => self.write_ref(p),
            Immediate::Pointer(p) => self.write_pointer(p),
        }
    }

    /// Writes the immediate and returns its offset; but for a pointer,
    /// writes nothing and returns the offset it points to.
    #[must_use]
    pub fn write_immediate_or_return_pointer(&mut self, imm: Immediate) -> (off: Offset)
        requires
            writable_at(imm@, old(self)@.len() as int),
        ensures
            off == entry_offset(imm@, old(self)@.len() as int),
            final(self)@ == old(self)@ + entry_bytes(imm@, old(self)@.len() as int),
            off < final(self)@.len(),
            final(self).prefix() == old(self).prefix(),
    {
        match imm {
            Immediate::Pointer(p) => {
                assert(self@ =~= self@ + Seq::<u8>::empty());
                p
            },
            _ => self.write_immediate(imm),
        }
    }

    /// Writes a tag and the value it is attached to.
    pub fn write_tag(&mut self, tag: Tag, v: Immediate) -> (off: Offset)
        requires
            writable_at(v@, (old(self)@.len() + enc_head(8, tag as u64).len()) as int),
        ensures
            off == old(self)@.len(),
            final(self)@ == old(self)@ + enc_tag(tag, v@, off as int),
            final(self)@.len() > old(self)@.len(),
            final(self).prefix() == old(self).prefix(),
    {
        let off = self.first_byte_and_u64(8, tag as u64);
        let _ = self.write_immediate(v);
        assert(self@ =~= old(self)@ + enc_tag(tag, v@, off as int));
        off
    }

    /// Writes the immediates of `items` one after the other.
    #[verifier::rlimit(40)]
    fn write_items(&mut self, items: &[Immediate])
        requires
            imms_writable(imm_views(items@), old(self)@.len() as int),
        ensures
            final(self)@ == old(self)@ + enc_imms(imm_views(items@), old(self)@.len() as int),
            final(self).prefix() == old(self).prefix(),
    {
        let ghost views = imm_views(items@);
        let ghost at = self@.len() as int;
        let mut i: usize = 0;
        assert(views.take(0) =~= Seq::empty());
        assert(self@ =~= old(self)@ + enc_imms(views.take(0), at));
        while i < items.len()
            invariant
                i <= items.len(),
                views == imm_views(items@),
                at == old(self)@.len(),
                imms_writable(views, at),
                self@ == old(self)@ + enc_imms(views.take(i as int), at),
                self.prefix() == old(self).prefix(),
            decreases items.len() - i,
        {
            let ghost before = self@;
            proof {
                assert(writable_at(views[i as int], imm_pos(views, at, i as int)));
                lemma_enc_imms_step(views, at, i as int);
            }
            let _ = self.write_immediate(items[i]);
            proof {
                assert(self@ =~= old(self)@ + enc_imms(views.take(i + 1), at));
            }
            i += 1;
        }
        assert(views.take(i as int) =~= views);
    }

    /// Writes an array. Its items must be immediates already: a nested
    /// value is written first and stands in the array as a pointer.
    pub fn write_array(&mut self, arr: &[Immediate]) -> (off: Offset)
        requires
            imms_writable(
                imm_views(arr@),
                (old(self)@.len() + enc_head(6, arr@.len() as u64).len()) as int,
            ),
        ensures
            off == old(self)@.len(),
            final(self)@ == old(self)@ + enc_array(imm_views(arr@), off as int),
            final(self)@.len() > old(self)@.len(),
            final(self).prefix() == old(self).prefix(),
    {
        let off = self.first_byte_and_u64(6, arr.len() as u64);
        self.write_items(arr);
        assert(self@ =~= old(self)@ + enc_array(imm_views(arr@), off as int));
        off
    }

    /// Writes the keys and values of `map` in turn.
    #[verifier::rlimit(40)]
    fn write_pairs(&mut self, map: &[(Immediate, Immediate)])
        requires
            imms_writable(pair_views(map@), old(self)@.len() as int),
        ensures
            final(self)@ == old(self)@ + enc_imms(pair_views(map@), old(self)@.len() as int),
            final(self).prefix() == old(self).prefix(),
    {
        let ghost views = pair_views(map@);
        let ghost at = self@.len() as int;
        let mut i: usize = 0;
        proof {
            lemma_pair_views_len(map@);
        }
        assert(views.take(0) =~= Seq::empty());
        assert(self@ =~= old(self)@ + enc_imms(views.take(0), at));
        while i < map.len()
            invariant
                i <= map.len(),
                views == pair_views(map@),
                views.len() == 2 * map@.len(),
                at == old(self)@.len(),
                imms_writable(views, at),
                self@ == old(self)@ + enc_imms(views.take(2 * i), at),
                self.prefix() == old(self).prefix(),
            decreases map.len() - i,
        {
            let ghost k = 2 * i;
            proof {
                lemma_pair_views(map@, i as int);
                lemma_enc_imms_step(views, at, k);
                lemma_enc_imms_step(views, at, k + 1);
                assert(writable_at(views[k], imm_pos(views, at, k)));
                assert(writable_at(views[k + 1], imm_pos(views, at, k + 1)));
            }
            let _ = self.write_immediate(map[i].0);
            assert(self@ =~= old(self)@ + enc_imms(views.take(k + 1), at));
            let _ = self.write_immediate(map[i].1);
            assert(self@ =~= old(self)@ + enc_imms(views.take(k + 2), at));
            i += 1;
        }
        assert(views.take(2 * i) =~= views);
    }

    /// Writes a map. Its keys and values must be immediates already.
    pub fn write_map(&mut self, map: &[(Immediate, Immediate)]) -> (off: Offset)
        requires
            imms_writable(
                pair_views(map@),
                (old(self)@.len() + enc_head(7, map@.len() as u64).len()) as int,
            ),
        ensures
            off == old(self)@.len(),
            final(self)@ == old(self)@ + enc_map(pair_views(map@), off as int),
            final(self)@.len() > old(self)@.len(),
            final(self).prefix() == old(self).prefix(),
    {
        proof {
            lemma_pair_views_len(map@);
        }
        let off = self.first_byte_and_u64(7, map.len() as u64);
        self.write_pairs(map);
        assert(self@ =~= old(self)@ + enc_map(pair_views(map@), off as int));
        off
    }

    /// Writes the constructor `c` applied to `args`, which must be
    /// immediates already, and returns the immediate that stands for it.
    /// Without arguments nothing is written.
    pub fn write_cstor(&mut self, c: VariantIdx, args: &[Immediate]) -> (imm: Immediate<'static>)
        requires
            args@.len() > 0 ==> imms_writable(
                imm_views(args@),
                (old(self)@.len() + enc_cstor_head(c, args@.len()).len()) as int,
            ),
        ensures
            imm@ == cstor_handle(c, args@.len(), old(self)@.len() as int),
            final(self)@ == old(self)@ + enc_cstor(c, imm_views(args@), old(self)@.len() as int),
            args@.len() > 0 ==> final(self)@.len() > old(self)@.len(),
            final(self).prefix() == old(self).prefix(),
    {
        if args.len() == 0 {
            assert(self@ =~= self@ + Seq::<u8>::empty());
            Immediate::Variant0(c)
        } else if args.len() == 1 {
            let off = self.first_byte_and_u64(11, c.0 as u64);
            self.write_items(args);
            assert(self@ =~= old(self)@ + enc_cstor(c, imm_views(args@), off as int));
            Immediate::Pointer(off)
        } else {
            let off = self.first_byte_and_u64(12, c.0 as u64);
            let mut buf = [0u8; 10];
            let len = enc_leb128(args.len() as u64, &mut buf);
            self.put_slice(slice_subrange(buf.as_slice(), 0, len));
            self.write_items(args);
            assert(self@ =~= old(self)@ + enc_cstor(c, imm_views(args@), off as int));
            Immediate::Pointer(off)
        }
    }

    /// Closes the blob on `entry` and gives the buffer back. The last byte
    /// says how far back the entry stands; where it stands too far back
    /// for one byte, a pointer to it is written first.
    pub fn finalize(self, entry: Immediate) -> (w: Vec<u8>)
        requires
            writable_at(entry@, self@.len() as int),
        ensures
            w@ == self.prefix() + self@ + enc_final(entry@, self@.len() as int),
            w@.len() > self.prefix().len() + self@.len(),
            w@.last() <= MAX_POSTFIX,
    {
        let mut enc = self;
        let e = enc.write_immediate_or_return_pointer(entry);
        let mut top = enc.offset();
        let mut delta = top - e - 1;
        if delta > MAX_POSTFIX as u64 {
            let hop = enc.write_pointer(e);
            top = enc.offset();
            delta = top - hop - 1;
            proof {
                crate::leb128::lemma_leb128_bytes_len_u64((back_delta(hop as int, e) - 15) as u64);
            }
        }
        enc.put_byte(delta as u8);
        let w = enc.into_inner();
        assert(w@ =~= self.prefix() + self@ + enc_final(entry@, self@.len() as int));
        w
    }
}

} // verus!
