//! Base types shared by the encoder and the decoder.

use vstd::prelude::*;
use vstd::string::StringExecFns;

verus! {

/// A byte position in a blob.
pub type Offset = u64;

/// A numeric label attached to a value.
pub type Tag = u32;

/// The index of a constructor of a sum type.
#[derive(Debug, Clone, Copy, PartialEq, Eq, Structural, Hash, PartialOrd, Ord)]
pub struct VariantIdx(pub u32);

/// The bit pattern of a floating-point number, in the width in which it
/// stands in a blob. The library moves these bits and never computes on
/// them.
#[derive(Debug, Clone, Copy, PartialEq, Eq, Structural, Hash)]
pub enum FloatBits {
    /// The 32 bits of an IEEE 754 single-precision number.
    Single(u32),
    /// The 64 bits of an IEEE 754 double-precision number.
    Double(u64),
}

/// A value without nesting: one that can be skipped over in constant time,
/// and the only kind that arrays, maps and constructors hold inline.
#[derive(Debug, Clone, Copy, PartialEq)]
pub enum Immediate<'a> {
    Null,
    Bool(bool),
    Int64(i64),
    Float(FloatBits),
    /// Text, in UTF-8.
    String(&'a str),
    /// Binary data.
    Bytes(&'a [u8]),
    /// A constructor without arguments.
    Variant0(VariantIdx),
    /// A reference to a value at an earlier offset, handed to the reader
    /// as data.
    Ref(Offset),
    /// A reference to a value at an earlier offset, which the reader
    /// follows without showing it.
    Pointer(Offset),
}

/// What an [`Immediate`] stands for.
pub ghost enum ImmediateView {
    Null,
    Bool(bool),
    Int64(i64),
    Float(FloatBits),
    String(Seq<char>),
    Bytes(Seq<u8>),
    Variant0(VariantIdx),
    Ref(Offset),
    Pointer(Offset),
}

impl<'a> View for Immediate<'a> {
    type V = ImmediateView;

    open spec fn view(&self) -> ImmediateView {
        match *self {
            Immediate::Null => ImmediateView::Null,
            Immediate::Bool(b) => ImmediateView::Bool(b),
            Immediate::Int64(i) => ImmediateView::Int64(i),
            Immediate::Float(f) => ImmediateView::Float(f),
            Immediate::String(s) => ImmediateView::String(s@),
            Immediate::Bytes(b) => ImmediateView::Bytes(b@),
            Immediate::Variant0(c) => ImmediateView::Variant0(c),
            Immediate::Ref(p) => ImmediateView::Ref(p),
            Immediate::Pointer(p) => ImmediateView::Pointer(p),
        }
    }
}

impl<'a> Default for Immediate<'a> {
    fn default() -> (r: Self)
        ensures
            r == Immediate::Null,
    {
        Immediate::Null
    }
}

/// Null for the unit value.
impl<'a> From<()> for Immediate<'a> {
    fn from(_v: ()) -> (r: Immediate<'a>) {
        Immediate::Null
    }
}

impl<'a> vstd::std_specs::convert::FromSpecImpl<()> for Immediate<'a> {
    open spec fn obeys_from_spec() -> bool {
        true
    }

    open spec fn from_spec(_v: ()) -> Immediate<'a> {
        Immediate::Null
    }
}

/// A boolean.
impl<'a> From<bool> for Immediate<'a> {
    fn from(v: bool) -> (r: Immediate<'a>) {
        Immediate::Bool(v)
    }
}

impl<'a> vstd::std_specs::convert::FromSpecImpl<bool> for Immediate<'a> {
    open spec fn obeys_from_spec() -> bool {
        true
    }

    open spec fn from_spec(v: bool) -> Immediate<'a> {
        Immediate::Bool(v)
    }
}

/// An integer.
impl<'a> From<i64> for Immediate<'a> {
    fn from(v: i64) -> (r: Immediate<'a>) {
        Immediate::Int64(v)
    }
}

impl<'a> vstd::std_specs::convert::FromSpecImpl<i64> for Immediate<'a> {
    open spec fn obeys_from_spec() -> bool {
        true
    }

    open spec fn from_spec(v: i64) -> Immediate<'a> {
        Immediate::Int64(v)
    }
}

/// An integer, widened.
impl<'a> From<i32> for Immediate<'a> {
    fn from(v: i32) -> (r: Immediate<'a>) {
        Immediate::Int64(v as i64)
    }
}

impl<'a> vstd::std_specs::convert::FromSpecImpl<i32> for Immediate<'a> {
    open spec fn obeys_from_spec() -> bool {
        true
    }

    open spec fn from_spec(v: i32) -> Immediate<'a> {
        Immediate::Int64(v as i64)
    }
}

/// A floating-point number, by its bits.
impl<'a> From<FloatBits> for Immediate<'a> {
    fn from(v: FloatBits) -> (r: Immediate<'a>) {
        Immediate::Float(v)
    }
}

impl<'a> vstd::std_specs::convert::FromSpecImpl<FloatBits> for Immediate<'a> {
    open spec fn obeys_from_spec() -> bool {
        true
    }

    open spec fn from_spec(v: FloatBits) -> Immediate<'a> {
        Immediate::Float(v)
    }
}

/// A text.
impl<'a> From<&'a str> for Immediate<'a> {
    fn from(v: &'a str) -> (r: Immediate<'a>) {
        Immediate::String(v)
    }
}

impl<'a> vstd::std_specs::convert::FromSpecImpl<&'a str> for Immediate<'a> {
    open spec fn obeys_from_spec() -> bool {
        true
    }

    open spec fn from_spec(v: &'a str) -> Immediate<'a> {
        Immediate::String(v)
    }
}

/// Binary data.
impl<'a> From<&'a [u8]> for Immediate<'a> {
    fn from(v: &'a [u8]) -> (r: Immediate<'a>) {
        Immediate::Bytes(v)
    }
}

impl<'a> vstd::std_specs::convert::FromSpecImpl<&'a [u8]> for Immediate<'a> {
    open spec fn obeys_from_spec() -> bool {
        true
    }

    open spec fn from_spec(v: &'a [u8]) -> Immediate<'a> {
        Immediate::Bytes(v)
    }
}

/// A pointer to the value at an offset.
impl<'a> From<Offset> for Immediate<'a> {
    fn from(v: Offset) -> (r: Immediate<'a>) {
        Immediate::Pointer(v)
    }
}

impl<'a> vstd::std_specs::convert::FromSpecImpl<Offset> for Immediate<'a> {
    open spec fn obeys_from_spec() -> bool {
        true
    }

    open spec fn from_spec(v: Offset) -> Immediate<'a> {
        Immediate::Pointer(v)
    }
}

/// A decoding error: a constant message and the offset at which the
/// problem was found.
#[derive(Debug, Clone, Copy)]
pub struct Error {
    /// What went wrong.
    pub msg: &'static str,
    /// Where in the blob it was detected.
    pub off: Offset,
}

/// What a read gives: a result or a decoding error.
pub type Result<T> = core::result::Result<T, Error>;

/// `String::push`: the character is appended to the end of the string.
pub assume_specification[ std::string::String::push ](s: &mut std::string::String, c: char)
    ensures
        final(s)@ == old(s)@.push(c),
;

/// The lower-case digit for a number below 16.
pub open spec fn digit_char(d: int) -> char {
    if d < 10 {
        (48 + d) as u8 as char
    } else {
        (87 + d) as u8 as char
    }
}

/// The digits of `n`, most significant first and without leading zeros:
/// in base 16 if `hex`, else in base 10.
pub open spec fn digits(n: nat, hex: bool) -> Seq<char>
    decreases n,
{
    if hex {
        if n < 16 {
            seq![digit_char(n as int)]
        } else {
            digits(n / 16, hex).push(digit_char((n % 16) as int))
        }
    } else {
        if n < 10 {
            seq![digit_char(n as int)]
        } else {
            digits(n / 10, hex).push(digit_char((n % 10) as int))
        }
    }
}

/// The text of an error: its message, then its offset in hexadecimal
/// and in decimal.
pub open spec fn error_text(e: Error) -> Seq<char> {
    "Twine error: "@ + e.msg@ + " at offset=0x"@ + digits(e.off as nat, true) + " ("@ + digits(
        e.off as nat,
        false,
    ) + ")"@
}

/// Appends the digits of `n` to `s`: in base 16 if `hex`, else in base
/// 10.
fn push_digits(s: &mut String, n: u64, hex: bool)
    ensures
        final(s)@ == old(s)@ + digits(n as nat, hex),
    decreases n,
{
    let d: u8 = if hex {
        if n >= 16 {
            push_digits(s, n / 16, hex);
        }
        (n % 16) as u8
    } else {
        if n >= 10 {
            push_digits(s, n / 10, hex);
        }
        (n % 10) as u8
    };
    let c: char = if d < 10 {
        (48 + d) as char
    } else {
        (87 + d) as char
    };
    s.push(c);
    assert(s@ =~= old(s)@ + digits(n as nat, hex));
}

impl Error {
    /// The text of the error: "Twine error: ", the message, and the
    /// offset in hexadecimal and in decimal.
    pub fn to_string(&self) -> (text: String)
        ensures
            text@ == error_text(*self),
    {
        let mut text = String::from_str("Twine error: ");
        text.append(self.msg);
        text.append(" at offset=0x");
        push_digits(&mut text, self.off, true);
        text.append(" (");
        push_digits(&mut text, self.off, false);
        text.append(")");
        text
    }
}

} // verus!
