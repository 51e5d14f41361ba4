use twine_data::deser::Decoder;
use twine_data::leb128::enc_leb128;
use twine_data::ser::Encoder;
use twine_data::shallow_value::ShallowValue;
use twine_data::types::{FloatBits, Immediate, VariantIdx};
use twine_data::value::{read_value, read_value_from_entrypoint, write_value, Value};

#[test]
fn test_dec_leb128() {
    {
        let dec = Decoder::new(&[17]).unwrap();
        assert_eq!(Some((17, 1)), dec.leb128(0).ok());
    }

    {
        let dec = Decoder::new(&[0x88, 0x85, 0x09]).unwrap();
        assert_eq!(Some(((9 << (7 + 7)) + (5 << 7) + 8, 3)), dec.leb128(0).ok());
    }
}

#[test]
fn test_enc_leb128() {
    let mut buf = [0u8; 16];
    {
        let n = enc_leb128(42, &mut buf);
        assert_eq!(1, n);
        assert_eq!(Some(42), leb128::read::unsigned(&mut &buf[..]).ok());
    }
    {
        let n = enc_leb128(329282522, &mut buf);
        assert_eq!(5, n);
        assert_eq!(Some(329282522), leb128::read::unsigned(&mut &buf[..]).ok());
    }
    {
        let n = enc_leb128(u64::MAX, &mut buf);
        assert_eq!(10, n);
        assert_eq!(Some(u64::MAX), leb128::read::unsigned(&mut &buf[..]).ok());
    }
}

#[test]
fn test_ref() {
    let mut enc = Encoder::new(Vec::new());

    let off1 = enc.write_string("hello");
    let off2 = enc.write_string("world");
    let v = Value::Array(vec![Value::Ref(off1), Value::Ref(off2)]);
    let off_v = write_value(&mut enc, &v);
    assert_eq!(
        &[69u8, 104, 101, 108, 108, 111, 69, 119, 111, 114, 108, 100, 98, 236, 231][..],
        enc.as_bytes()
    );

    let res = enc.into_inner();
    let dec = Decoder::new(&res).unwrap();
    let v2 = read_value(&dec, off_v).unwrap();
    assert_eq!(v, v2);
}

#[test]
fn small_string_and_i64() {
    let mut enc = Encoder::new(Vec::new());
    assert_eq!(0, enc.write_string("hello"));
    let off = enc.write_i64(42);
    assert_eq!(6, off);
    let blob = enc.finalize(Immediate::Pointer(off));
    // 42 does not fit the low nibble: 15 stands there, and 27 follows
    assert_eq!(vec![0x45, b'h', b'e', b'l', b'l', b'o', 0x1F, 27, 1], blob);
    let dec = Decoder::new(&blob).unwrap();
    let entry = dec.entrypoint().unwrap();
    assert_eq!(6, entry);
    assert_eq!(42, dec.get_i64(entry).unwrap());
    assert!(matches!(
        dec.get_shallow_value(entry),
        Ok(ShallowValue::Imm(Immediate::Int64(42)))
    ));
}

#[test]
fn small_integer_takes_one_byte() {
    let mut enc = Encoder::new(Vec::new());
    assert_eq!(0, enc.write_string("hello"));
    let off = enc.write_i64(10);
    let blob = enc.finalize(Immediate::Pointer(off));
    assert_eq!(vec![0x45, b'h', b'e', b'l', b'l', b'o', 0x1A, 0], blob);
    let dec = Decoder::new(&blob).unwrap();
    assert_eq!(10, dec.get_i64(dec.entrypoint().unwrap()).unwrap());
}

#[test]
fn back_reference_array_with_postfix() {
    let mut enc = Encoder::new(Vec::new());
    let off1 = enc.write_string("hello");
    let off2 = enc.write_string("world");
    assert_eq!((0, 6), (off1, off2));
    let arr = enc.write_array(&[Immediate::Ref(off1), Immediate::Ref(off2)]);
    assert_eq!(12, arr);
    let blob = enc.finalize(Immediate::Pointer(arr));
    assert_eq!(
        vec![
            0x45, b'h', b'e', b'l', b'l', b'o', 0x45, b'w', b'o', b'r', b'l', b'd', 0x62, 0xEC,
            0xE7, 2
        ],
        blob
    );
    let dec = Decoder::new(&blob).unwrap();
    assert_eq!(
        Value::Array(vec![Value::Ref(0), Value::Ref(6)]),
        read_value_from_entrypoint(&dec).unwrap()
    );
}

#[test]
fn long_entry_goes_through_a_pointer() {
    let text = "x".repeat(300);
    let enc = Encoder::new(Vec::new());
    let blob = enc.finalize(Immediate::String(&text));
    let last = *blob.last().unwrap();
    assert!(last <= 250);
    // head byte, two bytes of length, 300 bytes of text, a pointer of
    // three bytes, the last byte
    assert_eq!(1 + 2 + 300 + 3 + 1, blob.len());
    assert_eq!(2, last);
    assert_eq!(0xFF, blob[303]);
    let dec = Decoder::new(&blob).unwrap();
    assert_eq!(0, dec.entrypoint().unwrap());
    assert_eq!(text, dec.get_str(0).unwrap());
    assert_eq!(Value::String(text), read_value_from_entrypoint(&dec).unwrap());
}

#[test]
fn variant_with_three_arguments() {
    let mut enc = Encoder::new(Vec::new());
    let handle = enc.write_cstor(
        VariantIdx(7),
        &[Immediate::Int64(1), Immediate::Int64(2), Immediate::Int64(3)],
    );
    assert_eq!(Immediate::Pointer(0), handle);
    assert_eq!(&[0xC7, 3, 0x11, 0x12, 0x13][..], enc.as_bytes());
    let blob = enc.finalize(handle);
    let dec = Decoder::new(&blob).unwrap();
    let mut args = vec![99];
    let idx = dec.get_cstor(dec.entrypoint().unwrap(), &mut args).unwrap();
    assert_eq!(VariantIdx(7), idx);
    assert_eq!(vec![2, 3, 4], args);
    assert_eq!(1, dec.get_i64(args[0]).unwrap());
    assert_eq!(2, dec.get_i64(args[1]).unwrap());
    assert_eq!(3, dec.get_i64(args[2]).unwrap());
}

#[test]
fn kind_mismatch_names_the_offset() {
    let mut enc = Encoder::new(Vec::new());
    enc.write_i64(5);
    let blob = enc.into_inner();
    let dec = Decoder::new(&blob).unwrap();
    let err = dec.get_str(0).unwrap_err();
    assert_eq!("expected string", err.msg);
    assert_eq!(0, err.off);
}

#[test]
fn floats_keep_their_bits() {
    let mut enc = Encoder::new(Vec::new());
    let single = enc.write_f32(1.5f32.to_bits());
    let double = enc.write_f64((-0.1f64).to_bits());
    assert_eq!((0, 5), (single, double));
    let blob = enc.into_inner();
    assert_eq!(0x30, blob[0]);
    assert_eq!(&1.5f32.to_le_bytes()[..], &blob[1..5]);
    assert_eq!(0x31, blob[5]);
    assert_eq!(&(-0.1f64).to_le_bytes()[..], &blob[6..14]);
    let dec = Decoder::new(&blob).unwrap();
    assert_eq!(FloatBits::Single(1.5f32.to_bits()), dec.get_float(0).unwrap());
    assert_eq!(FloatBits::Double((-0.1f64).to_bits()), dec.get_float(5).unwrap());
    assert_eq!(5, dec.skip(0).unwrap());
    assert_eq!(14, dec.skip(5).unwrap());
}
