use twine_data::deser::{Decoder, MAX_BLOB_LEN};
use twine_data::leb128::enc_leb128;
use twine_data::shallow_value::ShallowValue;
use twine_data::types::{Error, FloatBits, Immediate, VariantIdx};
use twine_data::value::{read_value, read_value_from_entrypoint, Value};

fn with_number(head: u8, rest: u64, tail: &[u8]) -> Vec<u8> {
    let mut buf = [0u8; 10];
    let n = enc_leb128(rest, &mut buf);
    let mut blob = vec![head];
    blob.extend_from_slice(&buf[..n]);
    blob.extend_from_slice(tail);
    blob
}

fn failure(r: Result<ShallowValue, Error>) -> (&'static str, u64) {
    match r {
        Ok(v) => panic!("unexpected {:?}", v),
        Err(e) => (e.msg, e.off),
    }
}

#[test]
fn buffer_that_is_too_long_is_refused() {
    let blob = vec![0u8; MAX_BLOB_LEN + 1];
    let e = Decoder::new(&blob).unwrap_err();
    assert_eq!(("byte buffer is too long", 0), (e.msg, e.off));
}

#[test]
fn leb128_of_more_than_ten_bytes_is_refused() {
    let blob = [0x80u8; 12];
    let dec = Decoder::new(&blob).unwrap();
    let e = dec.leb128(1).unwrap_err();
    assert_eq!(("out of bound for LEB128", 11), (e.msg, e.off));
}

#[test]
fn leb128_tenth_byte_is_cut_to_64_bits() {
    let mut blob = vec![0x80u8; 9];
    blob.push(0x7F);
    let dec = Decoder::new(&blob).unwrap();
    assert_eq!((1u64 << 63, 10), dec.leb128(0).unwrap());
}

#[test]
fn reads_past_the_end_are_refused() {
    let dec = Decoder::new(&[]).unwrap();
    let e = dec.first_byte(0).unwrap_err();
    assert_eq!(("offset out of bounds", 0), (e.msg, e.off));
    assert_eq!(("offset out of bounds", 7), failure(dec.get_shallow_value(7)));
    let e = dec.entrypoint().unwrap_err();
    assert_eq!(("offset out of bounds", 0), (e.msg, e.off));

    let blob = [0x80, 0x80];
    let dec = Decoder::new(&blob).unwrap();
    let e = dec.leb128(0).unwrap_err();
    assert_eq!(("offset out of bounds", 2), (e.msg, e.off));

    // a text that says it has five bytes and has one
    let blob = [0x45, b'h'];
    let dec = Decoder::new(&blob).unwrap();
    assert_eq!(("offset out of bounds", 1), failure(dec.get_shallow_value(0)));

    // a number of four bytes that has three
    let blob = [0x30, 1, 2, 3];
    let dec = Decoder::new(&blob).unwrap();
    assert_eq!(("offset out of bounds", 0), failure(dec.get_shallow_value(0)));
}

#[test]
fn first_byte_gives_both_nibbles() {
    let blob = [0xC7, 0x0F];
    let dec = Decoder::new(&blob).unwrap();
    assert_eq!((12, 7), dec.first_byte(0).unwrap());
    assert_eq!((0, 15), dec.first_byte(1).unwrap());
    assert_eq!((7, 0), dec.u64_with_low(0, 7).unwrap());
    assert_eq!(2, dec.len());
}

#[test]
fn back_references_below_the_start_are_refused() {
    let blob = [0x02, 0xF5, 0xE2, 0xF0];
    let dec = Decoder::new(&blob).unwrap();
    let e = dec.deref(1).unwrap_err();
    assert_eq!(("pointer underflow", 1), (e.msg, e.off));
    assert_eq!(("pointer underflow", 1), failure(dec.get_shallow_value(1)));
    assert_eq!(("ref underflow", 2), failure(dec.get_shallow_value(2)));
    // the pointer at 3 leads to the reference at 2
    assert_eq!(2, dec.deref(3).unwrap());
    assert_eq!(("ref underflow", 2), failure(dec.get_shallow_value(3)));

    let blob = [0xF0];
    let dec = Decoder::new(&blob).unwrap();
    let e = dec.deref(0).unwrap_err();
    assert_eq!(("pointer underflow", 0), (e.msg, e.off));

    // a last byte that points below the start
    let blob = [0x02, 5];
    let dec = Decoder::new(&blob).unwrap();
    let e = dec.entrypoint().unwrap_err();
    assert_eq!(("pointer underflow", 1), (e.msg, e.off));
}

#[test]
fn numbers_that_do_not_fit_are_refused() {
    let blob = with_number(0x1F, 1 << 63, &[]);
    let dec = Decoder::new(&blob).unwrap();
    assert_eq!(("i64 overflow", 0), failure(dec.get_shallow_value(0)));

    let blob = with_number(0x2F, 1 << 63, &[]);
    let dec = Decoder::new(&blob).unwrap();
    assert_eq!(("i64 overflow", 0), failure(dec.get_shallow_value(0)));

    let blob = with_number(0x1F, u64::MAX, &[]);
    let dec = Decoder::new(&blob).unwrap();
    assert_eq!(("u64 overflow", 0), failure(dec.get_shallow_value(0)));

    let blob = with_number(0x8F, 1 << 32, &[0x02]);
    let dec = Decoder::new(&blob).unwrap();
    assert_eq!(("tag overflow", 0), failure(dec.get_shallow_value(0)));

    let blob = with_number(0x6F, 1 << 32, &[]);
    let dec = Decoder::new(&blob).unwrap();
    assert_eq!(("Size overflow for array", 0), failure(dec.get_shallow_value(0)));

    let blob = with_number(0x7F, 1 << 32, &[]);
    let dec = Decoder::new(&blob).unwrap();
    assert_eq!(("Size overflow for dict", 0), failure(dec.get_shallow_value(0)));

    let blob = with_number(0xAF, 1 << 32, &[]);
    let dec = Decoder::new(&blob).unwrap();
    assert_eq!(("cstor overflow", 0), failure(dec.get_shallow_value(0)));

    let blob = with_number(0xBF, 1 << 32, &[0x02]);
    let dec = Decoder::new(&blob).unwrap();
    assert_eq!(("cstor overflow", 0), failure(dec.get_shallow_value(0)));

    let blob = with_number(0xC1, 1 << 32, &[]);
    let dec = Decoder::new(&blob).unwrap();
    assert_eq!(
        ("overflow in cstor arguments", 1),
        failure(dec.get_shallow_value(0))
    );

    // the index is too large; the count of arguments is read first
    let blob = with_number(0xCF, 1 << 32, &[2, 0x02, 0x02]);
    let dec = Decoder::new(&blob).unwrap();
    assert_eq!(("cstor overflow", 7), failure(dec.get_shallow_value(0)));

    let blob = with_number(0x4F, 1 << 32, &[]);
    let dec = Decoder::new(&blob).unwrap();
    let e = dec.skip(0).unwrap_err();
    assert_eq!(("length overflow", 0), (e.msg, e.off));
}

#[test]
fn extreme_integers_are_read() {
    let blob = with_number(0x1F, i64::MAX as u64 - 15, &[]);
    let dec = Decoder::new(&blob).unwrap();
    assert_eq!(i64::MAX, dec.get_i64(0).unwrap());

    let blob = with_number(0x2F, i64::MAX as u64 - 15, &[]);
    let dec = Decoder::new(&blob).unwrap();
    assert_eq!(i64::MIN, dec.get_i64(0).unwrap());

    let blob = [0x20, 0x2E];
    let dec = Decoder::new(&blob).unwrap();
    assert_eq!(-1, dec.get_i64(0).unwrap());
    assert_eq!(-15, dec.get_i64(1).unwrap());
}

#[test]
fn bytes_that_are_no_value_are_refused() {
    let blob = [0x03, 0x0F, 0x90, 0xD0, 0x32];
    let dec = Decoder::new(&blob).unwrap();
    assert_eq!(("invalid value with high=0", 0), failure(dec.get_shallow_value(0)));
    assert_eq!(("invalid value with high=0", 1), failure(dec.get_shallow_value(1)));
    assert_eq!(("invalid value", 2), failure(dec.get_shallow_value(2)));
    assert_eq!(("invalid value", 3), failure(dec.get_shallow_value(3)));
    assert_eq!(("expected float", 4), failure(dec.get_shallow_value(4)));
    let e = dec.skip(2).unwrap_err();
    assert_eq!(("tag is reserved", 2), (e.msg, e.off));
    let e = dec.skip(3).unwrap_err();
    assert_eq!(("tag is reserved", 3), (e.msg, e.off));
}

#[test]
fn text_must_be_utf8() {
    let blob = [0x42, 0xC3, 0xA9, 0x42, 0xC3, 0x28, 0x41, 0xFF];
    let dec = Decoder::new(&blob).unwrap();
    assert_eq!("é", dec.get_str(0).unwrap());
    let e = dec.get_str(3).unwrap_err();
    assert_eq!(("overflow in string", 4), (e.msg, e.off));
    let e = dec.get_str(6).unwrap_err();
    assert_eq!(("overflow in string", 7), (e.msg, e.off));
    // the same bytes are fine as binary data
    let blob = [0x52, 0xC3, 0x28];
    let dec = Decoder::new(&blob).unwrap();
    assert_eq!(&[0xC3, 0x28][..], dec.get_bytes(0).unwrap());
}

#[test]
fn values_that_hold_others_cannot_be_skipped() {
    let blob = [0x60, 0x70, 0x80, 0xB0, 0xC0, 0xA3];
    let dec = Decoder::new(&blob).unwrap();
    for off in 0..3 {
        let e = dec.skip(off).unwrap_err();
        assert_eq!(("cannot skip over array/dict/tag", off), (e.msg, e.off));
    }
    for off in 3..5 {
        let e = dec.skip(off).unwrap_err();
        assert_eq!(("cannot skip over constructor", off), (e.msg, e.off));
    }
    assert_eq!(6, dec.skip(5).unwrap());
}

#[test]
fn typed_reads_refuse_other_kinds() {
    // null, true, 5, a number, "a", one byte, [], {}, tag 1 of null,
    // constructor 2
    let blob = [
        0x02, 0x01, 0x15, 0x30, 0, 0, 0x80, 0x3F, 0x41, b'a', 0x51, 9, 0x60, 0x70, 0x81, 0x02,
        0xA2,
    ];
    let dec = Decoder::new(&blob).unwrap();
    let offs = [0u64, 1, 2, 3, 8, 10, 12, 13, 14, 16];

    assert_eq!((), dec.get_null(0).unwrap());
    assert_eq!(true, dec.get_bool(1).unwrap());
    assert_eq!(5, dec.get_i64(2).unwrap());
    assert_eq!(FloatBits::Single(1.0f32.to_bits()), dec.get_float(3).unwrap());
    assert_eq!("a", dec.get_str(8).unwrap());
    assert_eq!(&[9u8][..], dec.get_bytes(10).unwrap());
    let mut items = vec![1];
    dec.get_array(12, &mut items).unwrap();
    assert!(items.is_empty());
    let mut entries = vec![(1, 1)];
    dec.get_dict(13, &mut entries).unwrap();
    assert!(entries.is_empty());
    assert_eq!((1, 15), dec.get_tag(14).unwrap());
    let mut args = vec![1];
    assert_eq!(VariantIdx(2), dec.get_cstor(16, &mut args).unwrap());
    assert!(args.is_empty());

    for (i, off) in offs.iter().enumerate() {
        let off = *off;
        if i != 0 {
            let e = dec.get_null(off).unwrap_err();
            assert_eq!(("expected null", off), (e.msg, e.off));
        }
        if i != 1 {
            let e = dec.get_bool(off).unwrap_err();
            assert_eq!(("expected bool", off), (e.msg, e.off));
        }
        if i != 2 {
            let e = dec.get_i64(off).unwrap_err();
            assert_eq!(("expected integer", off), (e.msg, e.off));
        }
        if i != 3 {
            let e = dec.get_float(off).unwrap_err();
            assert_eq!(("expected float", off), (e.msg, e.off));
        }
        if i != 4 {
            let e = dec.get_str(off).unwrap_err();
            assert_eq!(("expected string", off), (e.msg, e.off));
        }
        if i != 5 {
            let e = dec.get_bytes(off).unwrap_err();
            assert_eq!(("expected bytes", off), (e.msg, e.off));
        }
        if i != 6 {
            let mut res = vec![3];
            let e = dec.get_array(off, &mut res).unwrap_err();
            assert_eq!(("expected array", off), (e.msg, e.off));
            assert!(res.is_empty());
        }
        if i != 7 {
            let mut res = vec![(3, 3)];
            let e = dec.get_dict(off, &mut res).unwrap_err();
            assert_eq!(("expected dict", off), (e.msg, e.off));
            assert!(res.is_empty());
        }
        if i != 8 {
            let e = dec.get_tag(off).unwrap_err();
            assert_eq!(("expected tag", off), (e.msg, e.off));
        }
        if i != 9 {
            let mut res = vec![3];
            let e = dec.get_cstor(off, &mut res).unwrap_err();
            assert_eq!(("expected cstor", off), (e.msg, e.off));
            assert!(res.is_empty());
        }
    }
}

#[test]
fn typed_reads_follow_pointers_and_name_the_offset_asked_for() {
    // 5, then a pointer to it
    let blob = [0x15, 0xF0];
    let dec = Decoder::new(&blob).unwrap();
    assert_eq!(5, dec.get_i64(1).unwrap());
    let e = dec.get_str(1).unwrap_err();
    assert_eq!(("expected string", 1), (e.msg, e.off));
}

#[test]
fn dict_entries_are_read_in_order() {
    // {1: "a", 2: null}
    let blob = [0x72, 0x11, 0x41, b'a', 0x12, 0x02];
    let dec = Decoder::new(&blob).unwrap();
    let mut entries = vec![];
    dec.get_dict(0, &mut entries).unwrap();
    assert_eq!(vec![(1, 2), (4, 5)], entries);
    assert_eq!(
        Value::Dict(vec![
            (Value::Int64(1), Value::String("a".to_string())),
            (Value::Int64(2), Value::Null)
        ]),
        read_value(&dec, 0).unwrap()
    );

    // the value of the second entry is missing
    let blob = [0x72, 0x11, 0x41, b'a', 0x12];
    let dec = Decoder::new(&blob).unwrap();
    let mut entries = vec![];
    let e = dec.get_dict(0, &mut entries).unwrap_err();
    assert_eq!(("offset out of bounds", 5), (e.msg, e.off));
    assert_eq!(vec![(1, 2)], entries);
}

#[test]
fn a_value_that_holds_itself_is_refused() {
    // an array of one item, which is a pointer to the array
    let blob = [0x61, 0xF0];
    let dec = Decoder::new(&blob).unwrap();
    let e = read_value(&dec, 0).unwrap_err();
    assert_eq!("value nested too deep", e.msg);

    // closed on itself
    let blob = [0x61, 0xF0, 1];
    let dec = Decoder::new(&blob).unwrap();
    assert_eq!(0, dec.entrypoint().unwrap());
    assert!(read_value_from_entrypoint(&dec).is_err());
}

#[test]
fn nesting_as_deep_as_the_blob_is_long_is_read() {
    // tag 1 of tag 1 of ... of null
    let mut blob = vec![0x02];
    let mut expected = Value::Null;
    for i in 0..200u8 {
        let target = if i == 0 { 0 } else { 1 + 2 * (i as usize - 1) };
        let at = blob.len();
        blob.push(0x81);
        blob.push(0xF0 + (at + 1 - target - 1) as u8);
        expected = Value::Tag(1, Box::new(expected));
    }
    let dec = Decoder::new(&blob).unwrap();
    assert_eq!(expected, read_value(&dec, blob.len() as u64 - 2).unwrap());
}

#[test]
fn a_failure_inside_a_value_is_the_result() {
    // [1, pointer to a reserved byte]
    let blob = [0x90, 0x62, 0x11, 0xF2];
    let dec = Decoder::new(&blob).unwrap();
    let e = read_value(&dec, 1).unwrap_err();
    assert_eq!(("invalid value", 0), (e.msg, e.off));
    match dec.get_shallow_value(1).unwrap() {
        ShallowValue::Array(c) => assert_eq!(2, c.len()),
        other => panic!("unexpected {:?}", other),
    }
}

#[test]
fn error_text_names_the_offset_twice() {
    let e = Error { msg: "expected string", off: 31 };
    assert_eq!("Twine error: expected string at offset=0x1f (31)", e.to_string());
    let e = Error { msg: "tag is reserved", off: 0 };
    assert_eq!("Twine error: tag is reserved at offset=0x0 (0)", e.to_string());
    let e = Error { msg: "x", off: u64::MAX };
    assert_eq!(
        "Twine error: x at offset=0xffffffffffffffff (18446744073709551615)",
        e.to_string()
    );
    let e = Error { msg: "", off: 0xABCDEF0123 };
    assert_eq!(format!("Twine error:  at offset=0x{:x} ({})", e.off, e.off), e.to_string());
}

#[test]
fn immediates_from_plain_values() {
    assert_eq!(Immediate::Null, Immediate::from(()));
    assert_eq!(Immediate::Null, Immediate::default());
    assert_eq!(Immediate::Bool(true), Immediate::from(true));
    assert_eq!(Immediate::Int64(-4), Immediate::from(-4i64));
    assert_eq!(Immediate::Int64(-4), Immediate::from(-4i32));
    assert_eq!(Immediate::Float(FloatBits::Double(7)), Immediate::from(FloatBits::Double(7)));
    assert_eq!(Immediate::String("s"), Immediate::from("s"));
    assert_eq!(Immediate::Bytes(&[1]), Immediate::from(&[1u8][..]));
    assert_eq!(Immediate::Pointer(12), Immediate::from(12u64));
    assert_eq!(Value::Null, Value::default());
    assert_eq!(Value::String("s".to_string()), Value::from(Immediate::String("s")));
    assert_eq!(Value::Bytes(vec![1, 2]), Value::from(Immediate::Bytes(&[1, 2])));
    assert_eq!(Value::Ref(3), Value::from(Immediate::Ref(3)));
    assert_eq!(Value::Ref(3), Value::from(Immediate::Pointer(3)));
    assert_eq!(Value::Variant0(VariantIdx(3)), Value::from_immediate(Immediate::Variant0(VariantIdx(3))));
}
