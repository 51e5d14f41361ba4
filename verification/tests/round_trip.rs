use twine_data::deser::Decoder;
use twine_data::leb128::{dec_leb128, enc_leb128};
use twine_data::ser::Encoder;
use twine_data::shallow_value::ShallowValue;
use twine_data::types::{FloatBits, Immediate, VariantIdx};
use twine_data::value::{
    read_value, read_value_from_entrypoint, write_value, write_value_or_imm, Value,
};

fn sample_numbers() -> Vec<u64> {
    vec![
        0,
        1,
        42,
        127,
        128,
        300,
        16383,
        16384,
        329282522,
        u32::MAX as u64,
        1 << 56,
        (1 << 63) - 1,
        1 << 63,
        u64::MAX,
    ]
}

#[test]
fn same_as_leb128_crate() {
    for n in sample_numbers() {
        let mut ours = [0u8; 12];
        let ours_len = enc_leb128(n, &mut ours[..]);

        let mut ref_v = vec![];
        let _ref_len = leb128::write::unsigned(&mut ref_v, n).unwrap();
        assert_eq!(&ref_v, &ours[0..ours_len]);
    }
}

#[test]
fn decode_from_leb128_crate() {
    for n in sample_numbers() {
        let mut ref_v = vec![];
        let ref_len = leb128::write::unsigned(&mut ref_v, n).unwrap();

        let dec = Decoder::new(&ref_v).unwrap();
        let (n2, len) = dec.leb128(0).unwrap();
        assert_eq!(n2, n);
        assert_eq!(ref_len, len as usize);
    }
}

#[test]
fn leb128_round_trip_in_the_middle_of_a_buffer() {
    for n in sample_numbers() {
        let mut buf = [0xAAu8; 10];
        let len = enc_leb128(n, &mut buf);
        let mut blob = vec![0xFF, 0xFF, 0xFF];
        blob.extend_from_slice(&buf[..len]);
        blob.extend_from_slice(&[0xFF, 0xFF]);
        assert_eq!((n, len as u8), dec_leb128(&blob, 3).unwrap());
    }
}

#[test]
fn enc_leb128_leaves_the_rest_of_the_buffer() {
    let mut buf = [0xAAu8; 12];
    assert_eq!(2, enc_leb128(300, &mut buf));
    assert_eq!([0xAC, 0x02], buf[..2]);
    assert_eq!([0xAAu8; 10], buf[2..]);
}

fn sample_value(first: u64, second: u64) -> Value {
    Value::Array(vec![
        Value::Null,
        Value::Bool(true),
        Value::Bool(false),
        Value::Int64(0),
        Value::Int64(14),
        Value::Int64(15),
        Value::Int64(-1),
        Value::Int64(i64::MAX),
        Value::Int64(i64::MIN),
        Value::Float(FloatBits::Double(3.25f64.to_bits())),
        Value::Float(FloatBits::Single(f32::NAN.to_bits())),
        Value::String("héllo, wörld: a text of more than fifteen bytes".to_string()),
        Value::String(String::new()),
        Value::Bytes(vec![0, 1, 2, 0xFF, 0xF0]),
        Value::Ref(first),
        Value::Ref(second),
        Value::Tag(7, Box::new(Value::Int64(3))),
        Value::Tag(u32::MAX, Box::new(Value::Array(vec![]))),
        Value::Dict(vec![
            (Value::String("a".to_string()), Value::Int64(1)),
            (
                Value::String("b".to_string()),
                Value::Dict(vec![(Value::Null, Value::Array(vec![Value::Bool(true)]))]),
            ),
        ]),
        Value::Cstor(VariantIdx(0), vec![]),
        Value::Cstor(VariantIdx(3), vec![Value::Int64(9)]),
        Value::Cstor(
            VariantIdx(300),
            vec![Value::Null, Value::String("x".to_string()), Value::Array(vec![Value::Null])],
        ),
    ])
}

#[test]
fn encode_then_decode() {
    let mut enc = Encoder::new(Vec::new());
    let first = enc.write_string("hello");
    let second = enc.write_i64(-77);
    let v = sample_value(first, second);
    let offset = write_value(&mut enc, &v);
    let blob = enc.into_inner();

    let v2 = read_value(&Decoder::new(&blob[..]).unwrap(), offset).unwrap();
    assert_eq!(v, v2);
}

#[test]
fn encode_then_decode_leaves() {
    let leaves = vec![
        Value::Null,
        Value::Bool(true),
        Value::Int64(-5),
        Value::Float(FloatBits::Double(0)),
        Value::String("é".to_string()),
        Value::Bytes(vec![]),
    ];
    for v in leaves {
        let mut enc = Encoder::new(Vec::new());
        let offset = write_value(&mut enc, &v);
        assert_eq!(0, offset);
        let blob = enc.into_inner();
        assert_eq!(v, read_value(&Decoder::new(&blob).unwrap(), offset).unwrap());
    }
}

#[test]
fn read_from_entrypoint_gives_the_value_back() {
    let mut enc = Encoder::new(Vec::new());
    let first = enc.write_null();
    let second = enc.write_null();
    let v = sample_value(first, second);
    let offset = write_value(&mut enc, &v);
    let blob = enc.finalize(Immediate::Pointer(offset));
    let dec = Decoder::new(&blob).unwrap();
    assert_eq!(offset, dec.entrypoint().unwrap());
    assert_eq!(v, read_value_from_entrypoint(&dec).unwrap());
}

#[test]
fn closing_on_the_immediate_of_a_value_gives_it_back() {
    let v = Value::Dict(vec![(Value::Int64(1), Value::String("one".to_string()))]);
    let mut enc = Encoder::new(Vec::new());
    let imm = write_value_or_imm(&mut enc, &v);
    assert_eq!(Immediate::Pointer(0), imm);
    let blob = enc.finalize(imm);
    assert_eq!(vec![0x71, 0x11, 0x43, b'o', b'n', b'e', 5], blob);
    let dec = Decoder::new(&blob).unwrap();
    assert_eq!(v, read_value_from_entrypoint(&dec).unwrap());
}

#[test]
fn a_lone_variant0_reads_back_as_a_constructor_without_arguments() {
    let mut enc = Encoder::new(Vec::new());
    let offset = write_value(&mut enc, &Value::Variant0(VariantIdx(4)));
    assert_eq!(&[0xA4][..], enc.as_bytes());
    let blob = enc.into_inner();
    assert_eq!(
        Value::Cstor(VariantIdx(4), vec![]),
        read_value(&Decoder::new(&blob).unwrap(), offset).unwrap()
    );
}

#[test]
fn pointers_are_followed_and_never_shown() {
    let mut enc = Encoder::new(Vec::new());
    let text = enc.write_string("deep");
    let hop_a = enc.write_pointer(text);
    let hop_b = enc.write_pointer(hop_a);
    let hop_c = enc.write_pointer(hop_b);
    let blob = enc.into_inner();
    let dec = Decoder::new(&blob).unwrap();
    for off in [text, hop_a, hop_b, hop_c] {
        assert_eq!(text, dec.deref(off).unwrap());
        match dec.get_shallow_value(off).unwrap() {
            ShallowValue::Imm(Immediate::String(s)) => assert_eq!("deep", s),
            other => panic!("unexpected {:?}", other),
        }
        assert_eq!(Value::String("deep".to_string()), read_value(&dec, off).unwrap());
    }
}

#[test]
fn references_come_back_as_references() {
    let mut enc = Encoder::new(Vec::new());
    let text = enc.write_string("target");
    let r = enc.write_ref(text);
    let far = enc.write_bytes(&[0u8; 40]);
    let r2 = enc.write_ref(text);
    let blob = enc.into_inner();
    let dec = Decoder::new(&blob).unwrap();
    assert!(matches!(
        dec.get_shallow_value(r),
        Ok(ShallowValue::Imm(Immediate::Ref(0)))
    ));
    assert!(far > r);
    assert!(matches!(
        dec.get_shallow_value(r2),
        Ok(ShallowValue::Imm(Immediate::Ref(0)))
    ));
    assert_eq!(Value::Ref(text), read_value(&dec, r2).unwrap());
    assert_eq!(r, dec.deref(r).unwrap());
}

#[test]
fn offsets_grow_with_each_write() {
    let mut enc = Encoder::new(vec![1, 2, 3]);
    let mut offsets = vec![];
    offsets.push(enc.write_null());
    offsets.push(enc.write_bool(true));
    offsets.push(enc.write_i64(1000));
    offsets.push(enc.write_f32(0));
    offsets.push(enc.write_f64(0));
    offsets.push(enc.write_string("abc"));
    offsets.push(enc.write_bytes(&[1, 2]));
    offsets.push(enc.write_cstor0(VariantIdx(1)));
    offsets.push(enc.write_ref(0));
    offsets.push(enc.write_pointer(1));
    offsets.push(enc.write_immediate(Immediate::Int64(-3)));
    offsets.push(enc.write_tag(5, Immediate::Null));
    offsets.push(enc.write_array(&[Immediate::Null]));
    offsets.push(enc.write_map(&[(Immediate::Null, Immediate::Bool(false))]));
    offsets.push(enc.offset());
    assert_eq!(
        vec![0, 1, 2, 5, 10, 19, 23, 26, 27, 29, 31, 32, 34, 36, 39],
        offsets
    );
    assert!(offsets.windows(2).all(|w| w[0] < w[1]));
    assert_eq!(39, enc.as_bytes().len());
    let all = enc.into_inner();
    assert_eq!([1, 2, 3], all[..3]);
    assert_eq!(42, all.len());
}

#[test]
fn postfix_fits_one_byte_at_every_distance() {
    for len in [0usize, 1, 100, 235, 236, 237, 248, 249, 250, 251, 252, 300, 70000] {
        let payload = vec![7u8; len];
        let enc = Encoder::new(Vec::new());
        let blob = enc.finalize(Immediate::Bytes(&payload));
        assert!(*blob.last().unwrap() <= 250);
        let dec = Decoder::new(&blob).unwrap();
        let entry = dec.entrypoint().unwrap();
        assert_eq!(0, entry);
        assert_eq!(&payload[..], dec.get_bytes(entry).unwrap());
    }
}

#[test]
fn postfix_of_a_short_blob_is_the_distance_itself() {
    let mut enc = Encoder::new(Vec::new());
    let payload = vec![7u8; 248];
    let off = enc.write_bytes(&payload);
    // one byte of kind, two of length, 248 of data: the entry is 250 back
    let blob = enc.finalize(Immediate::Pointer(off));
    assert_eq!(252, blob.len());
    assert_eq!(250, blob[251]);

    let mut enc = Encoder::new(Vec::new());
    let payload = vec![7u8; 249];
    let off = enc.write_bytes(&payload);
    let blob = enc.finalize(Immediate::Pointer(off));
    // 251 back is too far: a pointer of three bytes in between
    assert_eq!(252 + 3 + 1, blob.len());
    assert_eq!([0xFF, 0xEC, 0x01, 2], blob[252..]);
}

#[test]
fn cursors_yield_as_many_items_as_they_say() {
    let mut enc = Encoder::new(Vec::new());
    let arr = enc.write_array(&[
        Immediate::Int64(1),
        Immediate::String("two"),
        Immediate::Null,
        Immediate::Float(FloatBits::Single(0)),
    ]);
    let map = enc.write_map(&[
        (Immediate::Int64(1), Immediate::Null),
        (Immediate::Int64(2), Immediate::Bool(true)),
    ]);
    let blob = enc.into_inner();
    let dec = Decoder::new(&blob).unwrap();
    match dec.get_shallow_value(arr).unwrap() {
        ShallowValue::Array(mut c) => {
            assert_eq!(4, c.len());
            let mut seen = vec![];
            while let Some(item) = c.next() {
                seen.push(item.unwrap());
            }
            assert_eq!(vec![1, 2, 6, 7], seen);
            assert_eq!(0, c.len());
            assert!(c.next().is_none());
        }
        other => panic!("unexpected {:?}", other),
    }
    match dec.get_shallow_value(map).unwrap() {
        ShallowValue::Dict(mut c) => {
            assert_eq!(2, c.len());
            let mut seen = vec![];
            while let Some(item) = c.next() {
                seen.push(item.unwrap());
            }
            assert_eq!(vec![(13, 14), (15, 16)], seen);
            assert!(c.next().is_none());
        }
        other => panic!("unexpected {:?}", other),
    }
}

#[test]
fn a_cursor_that_fails_still_ends() {
    // an array that says it has three items and holds an array inline
    let blob = [0x63, 0x11, 0x60, 0x12];
    let dec = Decoder::new(&blob).unwrap();
    match dec.get_shallow_value(0).unwrap() {
        ShallowValue::Array(mut c) => {
            assert_eq!(3, c.len());
            assert_eq!(1, c.next().unwrap().unwrap());
            let e = c.next().unwrap().unwrap_err();
            assert_eq!("cannot skip over array/dict/tag", e.msg);
            assert_eq!(2, e.off);
            assert!(c.next().unwrap().is_err());
            assert!(c.next().is_none());
        }
        other => panic!("unexpected {:?}", other),
    }
    let mut res = vec![9, 9];
    let e = dec.get_array(0, &mut res).unwrap_err();
    assert_eq!(2, e.off);
    assert_eq!(vec![1], res);
}

#[test]
fn skip_ends_right_behind_every_immediate() {
    let long = "y".repeat(500);
    let imms = vec![
        Immediate::Null,
        Immediate::Bool(true),
        Immediate::Int64(3),
        Immediate::Int64(1 << 40),
        Immediate::Int64(-1),
        Immediate::Int64(i64::MIN),
        Immediate::Float(FloatBits::Single(1)),
        Immediate::Float(FloatBits::Double(1)),
        Immediate::String("abc"),
        Immediate::String(&long),
        Immediate::Bytes(&[1, 2, 3]),
        Immediate::Variant0(VariantIdx(99)),
        Immediate::Ref(0),
        Immediate::Pointer(0),
    ];
    let mut enc = Encoder::new(Vec::new());
    enc.write_null();
    let mut starts = vec![];
    for imm in imms.iter() {
        starts.push(enc.write_immediate(*imm));
    }
    starts.push(enc.offset());
    let blob = enc.into_inner();
    let dec = Decoder::new(&blob).unwrap();
    for i in 0..imms.len() {
        assert_eq!(starts[i + 1], dec.skip(starts[i]).unwrap());
    }
}
