//! Whole values: trees that own their parts, read from a blob or written
//! into one.

use crate::deser::{spec_entrypoint, spec_shallow, Decoder};
use crate::format::{
    cstor_handle, enc_array, enc_cstor, enc_cstor_head, enc_head, enc_map, enc_tag, entry_bytes,
    entry_offset, imm_views, lemma_imms_writable_from, lemma_pair_views_len, lemma_pair_views_push,
    pair_views, writable_at,
};
use crate::ser::Encoder;
use crate::shallow_value::{ArrayCursor, CursorView, MapCursor, ShallowValue, ShallowView};
use crate::types::{Error, FloatBits, Immediate, ImmediateView, Offset, Result, Tag, VariantIdx};
use vstd::prelude::*;
use vstd::slice::slice_to_vec;

verus! {

/// A value with the values it holds.
#[derive(Debug, PartialEq)]
pub enum Value {
    Null,
    Bool(bool),
    Int64(i64),
    Float(FloatBits),
    /// Text, in UTF-8.
    String(String),
    /// Binary data.
    Bytes(Vec<u8>),
    /// A constructor without arguments.
    Variant0(VariantIdx),
    /// A reference to a value at an earlier offset of the blob.
    Ref(Offset),
    Tag(Tag, Box<Value>),
    Array(Vec<Value>),
    /// A map, as its entries in order.
    Dict(Vec<(Value, Value)>),
    /// A constructor and its arguments.
    Cstor(VariantIdx, Vec<Value>),
}

/// What a [`Value`] stands for.
pub ghost enum ValueView {
    Null,
    Bool(bool),
    Int64(i64),
    Float(FloatBits),
    String(Seq<char>),
    Bytes(Seq<u8>),
    Variant0(VariantIdx),
    Ref(Offset),
    Tag(Tag, Box<ValueView>),
    Array(Seq<ValueView>),
    Dict(Seq<(ValueView, ValueView)>),
    Cstor(VariantIdx, Seq<ValueView>),
}

/// What `v` stands for.
pub open spec fn value_view(v: Value) -> ValueView
    decreases v,
{
    match v {
        Value::Null => ValueView::Null,
        Value::Bool(b) => ValueView::Bool(b),
        Value::Int64(i) => ValueView::Int64(i),
        Value::Float(f) => ValueView::Float(f),
        Value::String(s) => ValueView::String(s@),
        Value::Bytes(b) => ValueView::Bytes(b@),
        Value::Variant0(c) => ValueView::Variant0(c),
        Value::Ref(p) => ValueView::Ref(p),
        Value::Tag(t, child) => ValueView::Tag(t, Box::new(value_view(*child))),
        Value::Array(items) => ValueView::Array(value_views(items@)),
        Value::Dict(entries) => ValueView::Dict(entry_views(entries@)),
        Value::Cstor(c, args) => ValueView::Cstor(c, value_views(args@)),
    }
}

/// What each of `items` stands for.
pub open spec fn value_views(items: Seq<Value>) -> Seq<ValueView>
    decreases items,
{
    Seq::new(
        items.len(),
        |i: int|
            if 0 <= i < items.len() {
                value_view(items[i])
            } else {
                ValueView::Null
            },
    )
}

/// What each key and value of `entries` stands for.
pub open spec fn entry_views(entries: Seq<(Value, Value)>) -> Seq<(ValueView, ValueView)>
    decreases entries,
{
    Seq::new(
        entries.len(),
        |i: int|
            if 0 <= i < entries.len() {
                (value_view(entries[i].0), value_view(entries[i].1))
            } else {
                (ValueView::Null, ValueView::Null)
            },
    )
}

impl View for Value {
    type V = ValueView;

    open spec fn view(&self) -> ValueView {
        value_view(*self)
    }
}

impl Clone for Value {
    /// A copy of the value with copies of all its parts.
    fn clone(&self) -> (r: Self)
        ensures
            r@ == self@,
        decreases self,
    {
        match self {
            Value::Null => Value::Null,
            Value::Bool(b) => Value::Bool(*b),
            Value::Int64(i) => Value::Int64(*i),
            Value::Float(f) => Value::Float(*f),
            Value::String(s) => Value::String(s.as_str().to_owned()),
            Value::Bytes(b) => Value::Bytes(slice_to_vec(b.as_slice())),
            Value::Variant0(c) => Value::Variant0(*c),
            Value::Ref(p) => Value::Ref(*p),
            Value::Tag(t, child) => Value::Tag(*t, Box::new((**child).clone())),
            Value::Array(items) => Value::Array(clone_values(items)),
            Value::Dict(entries) => Value::Dict(clone_entries(entries)),
            Value::Cstor(c, args) => Value::Cstor(*c, clone_values(args)),
        }
    }
}

/// Copies of `items`.
fn clone_values(items: &Vec<Value>) -> (r: Vec<Value>)
    ensures
        value_views(r@) == value_views(items@),
    decreases items,
{
    let mut r: Vec<Value> = Vec::with_capacity(items.len());
    let mut i: usize = 0;
    while i < items.len()
        invariant
            i <= items.len(),
            r@.len() == i,
            forall|j: int| 0 <= j < i ==> (#[trigger] r@[j])@ == items@[j]@,
        decreases items.len() - i,
    {
        let v = items[i].clone();
        r.push(v);
        i += 1;
    }
    assert(value_views(r@) =~= value_views(items@));
    r
}

/// Copies of `entries`.
fn clone_entries(entries: &Vec<(Value, Value)>) -> (r: Vec<(Value, Value)>)
    ensures
        entry_views(r@) == entry_views(entries@),
    decreases entries,
{
    let mut r: Vec<(Value, Value)> = Vec::with_capacity(entries.len());
    let mut i: usize = 0;
    while i < entries.len()
        invariant
            i <= entries.len(),
            r@.len() == i,
            forall|j: int|
                0 <= j < i ==> (#[trigger] r@[j]).0@ == entries@[j].0@ && r@[j].1@
                    == entries@[j].1@,
        decreases entries.len() - i,
    {
        let key = entries[i].0.clone();
        let value = entries[i].1.clone();
        r.push((key, value));
        i += 1;
    }
    assert(entry_views(r@) =~= entry_views(entries@));
    r
}

impl Default for Value {
    fn default() -> (r: Self)
        ensures
            r@ == ValueView::Null,
    {
        Value::Null
    }
}

/// The value that an immediate stands for. A pointer taken as data is a
/// reference to the same offset.
pub open spec fn value_of_imm(i: ImmediateView) -> ValueView {
    match i {
        ImmediateView::Null => ValueView::Null,
        ImmediateView::Bool(b) => ValueView::Bool(b),
        ImmediateView::Int64(i) => ValueView::Int64(i),
        ImmediateView::Float(f) => ValueView::Float(f),
        ImmediateView::String(s) => ValueView::String(s),
        ImmediateView::Bytes(b) => ValueView::Bytes(b),
        ImmediateView::Variant0(c) => ValueView::Variant0(c),
        ImmediateView::Ref(p) => ValueView::Ref(p),
        ImmediateView::Pointer(p) => ValueView::Ref(p),
    }
}

impl Value {
    /// The value that the immediate `v` stands for, with a copy of its
    /// text or bytes.
    pub fn from_immediate(v: Immediate) -> (r: Value)
        ensures
            r@ == value_of_imm(v@),
    {
        match v {
            Immediate::Null => Value::Null,
            Immediate::Bool(b) => Value::Bool(b),
            Immediate::Int64(i) => Value::Int64(i),
            Immediate::Float(f) => Value::Float(f),
            Immediate::String(s) => Value::String(s.to_owned()),
            Immediate::Bytes(bs) => Value::Bytes(slice_to_vec(bs)),
            Immediate::Variant0(c) => Value::Variant0(c),
            Immediate::Ref(p) => Value::Ref(p),
            Immediate::Pointer(p) => Value::Ref(p),
        }
    }
}

impl<'a> From<Immediate<'a>> for Value {
    /// The same as [`Value::from_immediate`], whose contract says what
    /// comes out.
    fn from(v: Immediate<'a>) -> (r: Value) {
        Value::from_immediate(v)
    }
}

impl<'a> vstd::std_specs::convert::FromSpecImpl<Immediate<'a>> for Value {
    /// Nothing is claimed of `from` in terms of `from_spec`: a value
    /// that owns a text cannot be written down in a specification.
    open spec fn obeys_from_spec() -> bool {
        false
    }

    open spec fn from_spec(v: Immediate<'a>) -> Value {
        Value::Null
    }
}

/// The immediate that stands for a value without parts; none for the
/// others.
pub open spec fn leaf_handle(v: ValueView) -> Option<ImmediateView> {
    match v {
        ValueView::Null => Some(ImmediateView::Null),
        ValueView::Bool(b) => Some(ImmediateView::Bool(b)),
        ValueView::Int64(i) => Some(ImmediateView::Int64(i)),
        ValueView::Float(f) => Some(ImmediateView::Float(f)),
        ValueView::String(s) => Some(ImmediateView::String(s)),
        ValueView::Bytes(b) => Some(ImmediateView::Bytes(b)),
        ValueView::Variant0(c) => Some(ImmediateView::Variant0(c)),
        ValueView::Ref(p) => Some(ImmediateView::Ref(p)),
        _ => None,
    }
}

/// What writing the parts of a value from `at` on adds to the blob, and
/// the immediate that then stands for the value. A value without parts
/// adds nothing: it is its own immediate. The others are written behind
/// their parts, and a pointer stands for them.
pub open spec fn enc_value(v: ValueView, at: int) -> (Seq<u8>, ImmediateView)
    decreases v,
{
    match v {
        ValueView::Tag(tag, child) => {
            let (bytes, handle) = enc_value(*child, at);
            let off = at + bytes.len();
            (bytes + enc_tag(tag, handle, off), ImmediateView::Pointer(off as Offset))
        },
        ValueView::Array(items) => {
            let (bytes, handles) = enc_values(items, at);
            let off = at + bytes.len();
            (bytes + enc_array(handles, off), ImmediateView::Pointer(off as Offset))
        },
        ValueView::Dict(entries) => {
            let (bytes, handles) = enc_entries(entries, at);
            let off = at + bytes.len();
            (bytes + enc_map(handles, off), ImmediateView::Pointer(off as Offset))
        },
        ValueView::Cstor(c, args) => {
            let (bytes, handles) = enc_values(args, at);
            let off = at + bytes.len();
            (bytes + enc_cstor(c, handles, off), cstor_handle(c, handles.len(), off))
        },
        _ => (Seq::empty(), leaf_handle(v).unwrap()),
    }
}

/// What writing the parts of each of `items` in turn adds from `at` on,
/// and the immediates that stand for them.
pub open spec fn enc_values(items: Seq<ValueView>, at: int) -> (Seq<u8>, Seq<ImmediateView>)
    decreases items,
{
    if items.len() == 0 {
        (Seq::empty(), Seq::empty())
    } else {
        let (front, handles) = enc_values(items.drop_last(), at);
        let (bytes, handle) = enc_value(items.last(), at + front.len());
        (front + bytes, handles.push(handle))
    }
}

/// What writing the parts of each key and value of `entries` in turn adds
/// from `at` on, and the immediates that stand for them: a key, its
/// value, the next key, and so on.
pub open spec fn enc_entries(entries: Seq<(ValueView, ValueView)>, at: int) -> (
    Seq<u8>,
    Seq<ImmediateView>,
)
    decreases entries,
{
    if entries.len() == 0 {
        (Seq::empty(), Seq::empty())
    } else {
        let (front, handles) = enc_entries(entries.drop_last(), at);
        let (key_bytes, key) = enc_value(entries.last().0, at + front.len());
        let (value_bytes, value) = enc_value(
            entries.last().1,
            at + front.len() + key_bytes.len(),
        );
        (front + key_bytes + value_bytes, handles.push(key).push(value))
    }
}

/// Whether every reference in `v` points below `bound`.
pub open spec fn refs_below(v: ValueView, bound: int) -> bool
    decreases v,
{
    match v {
        ValueView::Ref(p) => p < bound,
        ValueView::Tag(_, child) => refs_below(*child, bound),
        ValueView::Array(items) => forall|i: int|
            0 <= i < items.len() ==> refs_below(#[trigger] items[i], bound),
        ValueView::Dict(entries) => forall|i: int|
            0 <= i < entries.len() ==> refs_below((#[trigger] entries[i]).0, bound) && refs_below(
                entries[i].1,
                bound,
            ),
        ValueView::Cstor(_, args) => forall|i: int|
            0 <= i < args.len() ==> refs_below(#[trigger] args[i], bound),
        _ => true,
    }
}

/// References that point below a bound point below any later one.
pub proof fn lemma_refs_below_later(v: ValueView, bound: int, later: int)
    requires
        refs_below(v, bound),
        bound <= later,
    ensures
        refs_below(v, later),
    decreases v,
{
    match v {
        ValueView::Tag(_, child) => lemma_refs_below_later(*child, bound, later),
        ValueView::Array(items) => {
            assert forall|i: int| 0 <= i < items.len() implies refs_below(
                #[trigger] items[i],
                later,
            ) by {
                lemma_refs_below_later(items[i], bound, later);
            }
        },
        ValueView::Dict(entries) => {
            assert forall|i: int| 0 <= i < entries.len() implies refs_below(
                (#[trigger] entries[i]).0,
                later,
            ) && refs_below(entries[i].1, later) by {
                lemma_refs_below_later(entries[i].0, bound, later);
                lemma_refs_below_later(entries[i].1, bound, later);
            }
        },
        ValueView::Cstor(_, args) => {
            assert forall|i: int| 0 <= i < args.len() implies refs_below(
                #[trigger] args[i],
                later,
            ) by {
                lemma_refs_below_later(args[i], bound, later);
            }
        },
        _ => {},
    }
}

/// Writes the parts of `v` that cannot stand inline and returns the
/// immediate that stands for `v`: `v` itself if it has no parts, else a
/// pointer to where it was written (for a constructor without
/// arguments, the constructor).
pub fn write_value_or_imm<'a>(enc: &mut Encoder, v: &'a Value) -> (imm: Immediate<'a>)
    requires
        refs_below(v@, old(enc)@.len() as int),
    ensures
        final(enc)@ == old(enc)@ + enc_value(v@, old(enc)@.len() as int).0,
        imm@ == enc_value(v@, old(enc)@.len() as int).1,
        writable_at(imm@, final(enc)@.len() as int),
        final(enc).prefix() == old(enc).prefix(),
    decreases v,
{
    let ghost at = enc@.len() as int;
    proof {
        assert(enc@ =~= enc@ + Seq::<u8>::empty());
    }
    match v {
        Value::Null => Immediate::Null,
        Value::Bool(b) => Immediate::Bool(*b),
        Value::Int64(i) => Immediate::Int64(*i),
        Value::Float(f) => Immediate::Float(*f),
        Value::String(s) => Immediate::String(s.as_str()),
        Value::Bytes(b) => Immediate::Bytes(b.as_slice()),
        Value::Variant0(c) => Immediate::Variant0(*c),
        Value::Ref(p) => Immediate::Ref(*p),
        Value::Tag(tag, child) => {
            let handle = write_value_or_imm(enc, child);
            let off = enc.write_tag(*tag, handle);
            assert(enc@ =~= old(enc)@ + enc_value(v@, at).0);
            Immediate::Pointer(off)
        },
        Value::Array(items) => {
            let handles = write_values(enc, items);
            proof {
                lemma_imms_writable_from(
                    imm_views(handles@),
                    enc@.len() as int,
                    (enc@.len() + enc_head(6, handles@.len() as u64).len()) as int,
                );
            }
            let off = enc.write_array(handles.as_slice());
            assert(enc@ =~= old(enc)@ + enc_value(v@, at).0);
            Immediate::Pointer(off)
        },
        Value::Dict(entries) => {
            let handles = write_entries(enc, entries);
            proof {
                lemma_pair_views_len(handles@);
                lemma_imms_writable_from(
                    pair_views(handles@),
                    enc@.len() as int,
                    (enc@.len() + enc_head(7, handles@.len() as u64).len()) as int,
                );
            }
            let off = enc.write_map(handles.as_slice());
            assert(enc@ =~= old(enc)@ + enc_value(v@, at).0);
            Immediate::Pointer(off)
        },
        Value::Cstor(c, args) => {
            let handles = write_values(enc, args);
            proof {
                lemma_imms_writable_from(
                    imm_views(handles@),
                    enc@.len() as int,
                    (enc@.len() + enc_cstor_head(*c, handles@.len()).len()) as int,
                );
            }
            let handle = enc.write_cstor(*c, handles.as_slice());
            assert(enc@ =~= old(enc)@ + enc_value(v@, at).0);
            handle
        },
    }
}

/// Writes the parts of each of `items` in turn and returns the
/// immediates that stand for them.
#[verifier::rlimit(40)]
fn write_values<'a>(enc: &mut Encoder, items: &'a Vec<Value>) -> (handles: Vec<Immediate<'a>>)
    requires
        forall|i: int|
            0 <= i < items@.len() ==> refs_below(
                #[trigger] value_views(items@)[i],
                old(enc)@.len() as int,
            ),
    ensures
        final(enc)@ == old(enc)@ + enc_values(value_views(items@), old(enc)@.len() as int).0,
        imm_views(handles@) == enc_values(value_views(items@), old(enc)@.len() as int).1,
        handles@.len() == items@.len(),
        forall|i: int|
            0 <= i < handles@.len() ==> writable_at(
                #[trigger] imm_views(handles@)[i],
                final(enc)@.len() as int,
            ),
        final(enc).prefix() == old(enc).prefix(),
    decreases items,
{
    let ghost at = enc@.len() as int;
    let ghost views = value_views(items@);
    let mut handles: Vec<Immediate<'a>> = Vec::with_capacity(items.len());
    let mut i: usize = 0;
    proof {
        assert(views.take(0) =~= Seq::empty());
        assert(enc@ =~= old(enc)@ + Seq::<u8>::empty());
        assert(imm_views(handles@) =~= Seq::empty());
    }
    while i < items.len()
        invariant
            i <= items.len(),
            at == old(enc)@.len(),
            views == value_views(items@),
            forall|j: int| 0 <= j < items@.len() ==> refs_below(#[trigger] views[j], at),
            enc@ == old(enc)@ + enc_values(views.take(i as int), at).0,
            imm_views(handles@) == enc_values(views.take(i as int), at).1,
            handles@.len() == i,
            forall|j: int|
                0 <= j < handles@.len() ==> writable_at(
                    #[trigger] imm_views(handles@)[j],
                    enc@.len() as int,
                ),
            enc.prefix() == old(enc).prefix(),
        decreases items.len() - i,
    {
        let ghost before = enc@;
        let ghost so_far = handles@;
        proof {
            assert(views[i as int] == items@[i as int]@);
            lemma_refs_below_later(views[i as int], at, enc@.len() as int);
            assert(views.take(i + 1).drop_last() =~= views.take(i as int));
            assert(views.take(i + 1).last() == views[i as int]);
        }
        let handle = write_value_or_imm(enc, &items[i]);
        handles.push(handle);
        proof {
            assert(imm_views(handles@) =~= imm_views(so_far).push(handle@));
            assert(enc@ =~= old(enc)@ + enc_values(views.take(i + 1), at).0);
            assert forall|j: int| 0 <= j < handles@.len() implies writable_at(
                #[trigger] imm_views(handles@)[j],
                enc@.len() as int,
            ) by {
                if j < so_far.len() {
                    assert(imm_views(handles@)[j] == imm_views(so_far)[j]);
                    assert(writable_at(imm_views(so_far)[j], before.len() as int));
                }
            }
        }
        i += 1;
    }
    proof {
        assert(views.take(i as int) =~= views);
    }
    handles
}

/// Writes the parts of each key and value of `entries` in turn and
/// returns the immediates that stand for them.
#[verifier::rlimit(40)]
fn write_entries<'a>(enc: &mut Encoder, entries: &'a Vec<(Value, Value)>) -> (handles: Vec<
    (Immediate<'a>, Immediate<'a>),
>)
    requires
        forall|i: int|
            0 <= i < entries@.len() ==> refs_below(
                (#[trigger] entry_views(entries@)[i]).0,
                old(enc)@.len() as int,
            ) && refs_below(entry_views(entries@)[i].1, old(enc)@.len() as int),
    ensures
        final(enc)@ == old(enc)@ + enc_entries(entry_views(entries@), old(enc)@.len() as int).0,
        pair_views(handles@) == enc_entries(entry_views(entries@), old(enc)@.len() as int).1,
        handles@.len() == entries@.len(),
        forall|i: int|
            0 <= i < pair_views(handles@).len() ==> writable_at(
                #[trigger] pair_views(handles@)[i],
                final(enc)@.len() as int,
            ),
        final(enc).prefix() == old(enc).prefix(),
    decreases entries,
{
    let ghost at = enc@.len() as int;
    let ghost views = entry_views(entries@);
    let mut handles: Vec<(Immediate<'a>, Immediate<'a>)> = Vec::with_capacity(entries.len());
    let mut i: usize = 0;
    proof {
        assert(views.take(0) =~= Seq::empty());
        assert(enc@ =~= old(enc)@ + Seq::<u8>::empty());
        lemma_pair_views_len(handles@);
        assert(pair_views(handles@) =~= Seq::empty());
    }
    while i < entries.len()
        invariant
            i <= entries.len(),
            at == old(enc)@.len(),
            views == entry_views(entries@),
            forall|j: int|
                0 <= j < entries@.len() ==> refs_below((#[trigger] views[j]).0, at) && refs_below(
                    views[j].1,
                    at,
                ),
            enc@ == old(enc)@ + enc_entries(views.take(i as int), at).0,
            pair_views(handles@) == enc_entries(views.take(i as int), at).1,
            handles@.len() == i,
            forall|j: int|
                0 <= j < pair_views(handles@).len() ==> writable_at(
                    #[trigger] pair_views(handles@)[j],
                    enc@.len() as int,
                ),
            enc.prefix() == old(enc).prefix(),
        decreases entries.len() - i,
    {
        let ghost before = enc@;
        let ghost so_far = handles@;
        proof {
            assert(views[i as int].0 == entries@[i as int].0@);
            assert(views[i as int].1 == entries@[i as int].1@);
            lemma_refs_below_later(views[i as int].0, at, enc@.len() as int);
            assert(views.take(i + 1).drop_last() =~= views.take(i as int));
            assert(views.take(i + 1).last() == views[i as int]);
        }
        let key = write_value_or_imm(enc, &entries[i].0);
        let ghost middle = enc@;
        proof {
            lemma_refs_below_later(views[i as int].1, at, enc@.len() as int);
        }
        let value = write_value_or_imm(enc, &entries[i].1);
        handles.push((key, value));
        proof {
            lemma_pair_views_push(so_far, (key, value));
            lemma_pair_views_len(so_far);
            lemma_pair_views_len(handles@);
            assert(enc@ =~= old(enc)@ + enc_entries(views.take(i + 1), at).0);
            assert forall|j: int| 0 <= j < pair_views(handles@).len() implies writable_at(
                #[trigger] pair_views(handles@)[j],
                enc@.len() as int,
            ) by {
                if j < pair_views(so_far).len() {
                    assert(pair_views(handles@)[j] == pair_views(so_far)[j]);
                    assert(writable_at(pair_views(so_far)[j], before.len() as int));
                } else if j == pair_views(so_far).len() {
                    assert(writable_at(key@, middle.len() as int));
                }
            }
        }
        i += 1;
    }
    proof {
        assert(views.take(i as int) =~= views);
    }
    handles
}

/// Writes `v` with all its parts and returns the offset at which it can
/// be read back.
pub fn write_value(enc: &mut Encoder, v: &Value) -> (off: Offset)
    requires
        refs_below(v@, old(enc)@.len() as int),
    ensures
        final(enc)@ == old(enc)@ + enc_whole(v@, old(enc)@.len() as int),
        off == whole_offset(v@, old(enc)@.len() as int),
        off < final(enc)@.len(),
        final(enc).prefix() == old(enc).prefix(),
{
    let imm = write_value_or_imm(enc, v);
    let off = enc.write_immediate_or_return_pointer(imm);
    assert(enc@ =~= old(enc)@ + enc_whole(v@, old(enc)@.len() as int));
    off
}

/// What writing `v` with all its parts adds to a blob from `at` on: its
/// parts, then the immediate that stands for it unless that is a
/// pointer.
pub open spec fn enc_whole(v: ValueView, at: int) -> Seq<u8> {
    let (bytes, handle) = enc_value(v, at);
    bytes + entry_bytes(handle, at + bytes.len())
}

/// The offset at which `v`, written with all its parts from `at` on, can
/// be read back.
pub open spec fn whole_offset(v: ValueView, at: int) -> int {
    let (bytes, handle) = enc_value(v, at);
    entry_offset(handle, at + bytes.len())
}

/// Message of the error for a value nested through more layers than
/// the blob has bytes.
pub const MSG_TOO_DEEP: &'static str = "value nested too deep";

/// The result of a read, with what was read taken by its view.
pub open spec fn value_result_view(r: Result<Value>) -> Result<ValueView> {
    match r {
        Ok(v) => Ok(v@),
        Err(e) => Err(e),
    }
}

/// The whole value at `off`, read through at most `depth` layers: each
/// layer is read as `spec_shallow` says, and the values it holds are read
/// in turn at the offsets that its cursor yields. The first failure on
/// the way is the result.
pub open spec fn spec_read_value(bs: Seq<u8>, off: Offset, depth: nat) -> Result<ValueView>
    decreases depth, 0nat,
{
    if depth == 0 {
        Err(Error { msg: MSG_TOO_DEEP, off })
    } else {
        match spec_shallow(bs, off) {
            Err(e) => Err(e),
            Ok(ShallowView::Imm(i)) => Ok(value_of_imm(i)),
            Ok(ShallowView::Tag(tag, child)) => match spec_read_value(
                bs,
                child,
                (depth - 1) as nat,
            ) {
                Err(e) => Err(e),
                Ok(v) => Ok(ValueView::Tag(tag, Box::new(v))),
            },
            Ok(ShallowView::Array(c)) => match spec_read_items(bs, c, (depth - 1) as nat) {
                Err(e) => Err(e),
                Ok(items) => Ok(ValueView::Array(items)),
            },
            Ok(ShallowView::Dict(c)) => match spec_read_entries(bs, c, (depth - 1) as nat) {
                Err(e) => Err(e),
                Ok(entries) => Ok(ValueView::Dict(entries)),
            },
            Ok(ShallowView::Cstor(idx, c)) => match spec_read_items(bs, c, (depth - 1) as nat) {
                Err(e) => Err(e),
                Ok(args) => Ok(ValueView::Cstor(idx, args)),
            },
        }
    }
}

/// The whole values at the offsets that the array cursor `c` yields.
pub open spec fn spec_read_items(bs: Seq<u8>, c: CursorView, depth: nat) -> Result<Seq<ValueView>>
    decreases depth, 1 + c.n_items,
{
    match c.next_item() {
        None => Ok(Seq::empty()),
        Some(Err(e)) => Err(e),
        Some(Ok(off)) => match spec_read_value(bs, off, depth) {
            Err(e) => Err(e),
            Ok(v) => match spec_read_items(bs, c.advance(), depth) {
                Err(e) => Err(e),
                Ok(rest) => Ok(seq![v] + rest),
            },
        },
    }
}

/// The whole keys and values at the offsets that the map cursor `c`
/// yields.
pub open spec fn spec_read_entries(bs: Seq<u8>, c: CursorView, depth: nat) -> Result<
    Seq<(ValueView, ValueView)>,
>
    decreases depth, 1 + c.n_items,
{
    match c.next_pair() {
        None => Ok(Seq::empty()),
        Some(Err(e)) => Err(e),
        Some(Ok((key_off, value_off))) => match spec_read_value(bs, key_off, depth) {
            Err(e) => Err(e),
            Ok(key) => match spec_read_value(bs, value_off, depth) {
                Err(e) => Err(e),
                Ok(value) => match spec_read_entries(bs, c.advance_pair(), depth) {
                    Err(e) => Err(e),
                    Ok(rest) => Ok(seq![(key, value)] + rest),
                },
            },
        },
    }
}

/// The number of layers through which a blob of `len` bytes is read:
/// one more than it has bytes, which is more than a value in it can have
/// unless it holds itself.
pub open spec fn max_depth(len: nat) -> nat {
    len + 1
}

/// Reads the whole value at `off`. A value that holds itself, which no
/// encoder writes, is refused as too deep.
pub fn read_value(d: &Decoder, off: Offset) -> (r: Result<Value>)
    ensures
        value_result_view(r) == spec_read_value(d@, off, max_depth(d@.len())),
{
    let depth = d.len() as u64 + 1;
    read_value_within(d, off, depth)
}

/// The whole value that the blob `bs` is closed on.
pub open spec fn spec_read_from_entrypoint(bs: Seq<u8>) -> Result<ValueView> {
    match spec_entrypoint(bs) {
        Err(e) => Err(e),
        Ok(off) => spec_read_value(bs, off, max_depth(bs.len())),
    }
}

/// Finds the value that the blob is closed on and reads it whole.
pub fn read_value_from_entrypoint(d: &Decoder) -> (r: Result<Value>)
    ensures
        value_result_view(r) == spec_read_from_entrypoint(d@),
{
    match d.entrypoint() {
        Err(e) => Err(e),
        Ok(off) => read_value(d, off),
    }
}

/// Reads the whole value at `off` through at most `depth` layers.
fn read_value_within(d: &Decoder, off: Offset, depth: u64) -> (r: Result<Value>)
    ensures
        value_result_view(r) == spec_read_value(d@, off, depth as nat),
    decreases depth, 0nat,
{
    if depth == 0 {
        return Err(Error { msg: MSG_TOO_DEEP, off });
    }
    match d.get_shallow_value(off) {
        Err(e) => Err(e),
        Ok(ShallowValue::Imm(v)) => Ok(Value::from_immediate(v)),
        Ok(ShallowValue::Tag(tag, child)) => match read_value_within(d, child, depth - 1) {
            Err(e) => Err(e),
            Ok(v) => Ok(Value::Tag(tag, Box::new(v))),
        },
        Ok(ShallowValue::Array(arr)) => match read_items(d, arr, depth - 1) {
            Err(e) => Err(e),
            Ok(items) => Ok(Value::Array(items)),
        },
        Ok(ShallowValue::Dict(map)) => match read_entries(d, map, depth - 1) {
            Err(e) => Err(e),
            Ok(entries) => Ok(Value::Dict(entries)),
        },
        Ok(ShallowValue::Cstor(idx, args)) => match read_items(d, args, depth - 1) {
            Err(e) => Err(e),
            Ok(items) => Ok(Value::Cstor(idx, items)),
        },
    }
}

/// The result of a read, with what was read taken by its view.
pub open spec fn items_result_view(r: Result<Vec<Value>>) -> Result<Seq<ValueView>> {
    match r {
        Ok(items) => Ok(value_views(items@)),
        Err(e) => Err(e),
    }
}

/// The result of a read, with what was read taken by its view.
pub open spec fn entries_result_view(r: Result<Vec<(Value, Value)>>) -> Result<
    Seq<(ValueView, ValueView)>,
> {
    match r {
        Ok(entries) => Ok(entry_views(entries@)),
        Err(e) => Err(e),
    }
}

/// Reads the whole values that `cursor` walks over.
#[verifier::rlimit(40)]
fn read_items(d: &Decoder, cursor: ArrayCursor, depth: u64) -> (r: Result<Vec<Value>>)
    requires
        cursor@.bytes == d@,
    ensures
        items_result_view(r) == spec_read_items(d@, cursor@, depth as nat),
    decreases depth, 1 + cursor@.n_items,
{
    let mut walker = cursor;
    let mut items: Vec<Value> = Vec::with_capacity(walker.len());
    proof {
        assert(value_views(items@) =~= Seq::empty());
    }
    loop
        invariant
            walker@.bytes == d@,
            walker@.n_items <= cursor@.n_items,
            match spec_read_items(d@, walker@, depth as nat) {
                Err(e) => spec_read_items(d@, cursor@, depth as nat) == Err::<
                    Seq<ValueView>,
                    Error,
                >(e),
                Ok(rest) => spec_read_items(d@, cursor@, depth as nat) == Ok::<
                    Seq<ValueView>,
                    Error,
                >(value_views(items@) + rest),
            },
        decreases walker@.n_items,
    {
        let ghost so_far = items@;
        let ghost before = walker@;
        match walker.next() {
            None => {
                proof {
                    assert(value_views(items@) + Seq::<ValueView>::empty() =~= value_views(
                        items@,
                    ));
                }
                return Ok(items);
            },
            Some(Err(e)) => {
                return Err(e);
            },
            Some(Ok(off)) => match read_value_within(d, off, depth) {
                Err(e) => {
                    return Err(e);
                },
                Ok(v) => {
                    items.push(v);
                    proof {
                        assert(value_views(items@) =~= value_views(so_far).push(v@));
                        if let Ok(rest) = spec_read_items(d@, walker@, depth as nat) {
                            assert(value_views(items@) + rest =~= value_views(so_far) + (seq![v@]
                                + rest));
                        }
                    }
                },
            },
        }
    }
}

/// Reads the whole keys and values that `cursor` walks over.
#[verifier::rlimit(40)]
fn read_entries(d: &Decoder, cursor: MapCursor, depth: u64) -> (r: Result<Vec<(Value, Value)>>)
    requires
        cursor@.bytes == d@,
    ensures
        entries_result_view(r) == spec_read_entries(d@, cursor@, depth as nat),
    decreases depth, 1 + cursor@.n_items,
{
    let mut walker = cursor;
    let mut entries: Vec<(Value, Value)> = Vec::with_capacity(walker.len());
    proof {
        assert(entry_views(entries@) =~= Seq::empty());
    }
    loop
        invariant
            walker@.bytes == d@,
            walker@.n_items <= cursor@.n_items,
            match spec_read_entries(d@, walker@, depth as nat) {
                Err(e) => spec_read_entries(d@, cursor@, depth as nat) == Err::<
                    Seq<(ValueView, ValueView)>,
                    Error,
                >(e),
                Ok(rest) => spec_read_entries(d@, cursor@, depth as nat) == Ok::<
                    Seq<(ValueView, ValueView)>,
                    Error,
                >(entry_views(entries@) + rest),
            },
        decreases walker@.n_items,
    {
        let ghost so_far = entries@;
        match walker.next() {
            None => {
                proof {
                    assert(entry_views(entries@) + Seq::<(ValueView, ValueView)>::empty()
                        =~= entry_views(entries@));
                }
                return Ok(entries);
            },
            Some(Err(e)) => {
                return Err(e);
            },
            Some(Ok((key_off, value_off))) => {
                let key = match read_value_within(d, key_off, depth) {
                    Err(e) => {
                        return Err(e);
                    },
                    Ok(key) => key,
                };
                let value = match read_value_within(d, value_off, depth) {
                    Err(e) => {
                        return Err(e);
                    },
                    Ok(value) => value,
                };
                let ghost pair = (key@, value@);
                entries.push((key, value));
                proof {
                    assert(entry_views(entries@) =~= entry_views(so_far).push(pair));
                    if let Ok(rest) = spec_read_entries(d@, walker@, depth as nat) {
                        assert(entry_views(entries@) + rest =~= entry_views(so_far) + (seq![pair]
                            + rest));
                    }
                }
            },
        }
    }
}

} // verus!
