use std::path::PathBuf;
use twine_data::dump::{
    input_blob, read_blob, render_bytes, run, HexError, InputError,
};
use twine_data::opts::{Cli, Dump, FromJson, Input};
use twine_data::ser::Encoder;
use twine_data::types::Immediate;
use twine_data::value::Value;

#[test]
fn bytes_are_shown_as_lower_case_hex() {
    let data: Vec<u8> = (0u8..24).map(|i| i.wrapping_mul(11)).collect();
    let (text, skipped) = render_bytes(&data, 24);
    assert_eq!("000b16212c37424d58636e79848f9aa5b0bbc6d1dce7f2fd", text);
    assert_eq!(0, skipped);

    let (text, skipped) = render_bytes(&[0xAB, 0x0C, 0xF0], 2);
    assert_eq!("ab0cf0", text);
    assert_eq!(0, skipped);

    let (text, skipped) = render_bytes(&[], 0);
    assert_eq!("", text);
    assert_eq!(0, skipped);
}

#[test]
fn hex_input_is_turned_into_bytes() {
    assert_eq!(vec![0x45, 0xAB, 0xab, 0x09], input_blob(b"45aBAb09", true).unwrap());
    assert_eq!(b"45aB".to_vec(), input_blob(b"45aB", false).unwrap());
    assert_eq!(Vec::<u8>::new(), input_blob(b"", true).unwrap());
    assert_eq!(Err(HexError::OddLength), input_blob(b"123", true));
    assert_eq!(Err(HexError::OddLength), input_blob(b"g", true));
    assert_eq!(
        Err(HexError::InvalidHexCharacter { c: 'g', index: 3 }),
        input_blob(b"12ag5z", true)
    );
    assert_eq!(
        Err(HexError::InvalidHexCharacter { c: ' ', index: 0 }),
        input_blob(b" 1", true)
    );
    assert_eq!(
        Err(HexError::InvalidHexCharacter { c: '\u{e9}', index: 1 }),
        input_blob(&[b'1', 0xE9], true)
    );
}

#[test]
fn input_is_read_as_a_value() {
    let mut enc = Encoder::new(Vec::new());
    let off = enc.write_string("hello");
    let blob = enc.finalize(Immediate::Pointer(off));
    assert_eq!(vec![0x45, b'h', b'e', b'l', b'l', b'o', 5], blob);

    assert_eq!(Value::String("hello".to_string()), read_blob(&blob).unwrap());
    assert_eq!(
        (Value::String("hello".to_string()), 7),
        run(&dump_of(false), &blob).unwrap()
    );
    assert_eq!(
        (Value::String("hello".to_string()), 7),
        run(&dump_of(true), b"4568656C6c6f05").unwrap()
    );
}

#[test]
fn input_that_is_no_value_is_refused() {
    match run(&dump_of(true), b"4568656c6c6f0") {
        Err(InputError::Hex(HexError::OddLength)) => {}
        other => panic!("unexpected {:?}", other),
    }
    match run(&dump_of(true), b"45 8") {
        Err(InputError::Hex(HexError::InvalidHexCharacter { c: ' ', index: 2 })) => {}
        other => panic!("unexpected {:?}", other),
    }
    // the same text taken as a blob: its last byte points below the start
    match run(&dump_of(false), b"4568656c6c6f05") {
        Err(InputError::Twine(e)) => assert_eq!(("pointer underflow", 13), (e.msg, e.off)),
        other => panic!("unexpected {:?}", other),
    }
    match run(&dump_of(true), b"") {
        Err(InputError::Twine(e)) => assert_eq!(("offset out of bounds", 0), (e.msg, e.off)),
        other => panic!("unexpected {:?}", other),
    }
    match read_blob(&[0x90, 0]) {
        Err(InputError::Twine(e)) => assert_eq!(("invalid value", 0), (e.msg, e.off)),
        other => panic!("unexpected {:?}", other),
    }
}

fn dump_of(i_hex: bool) -> Dump {
    Dump { input: Input { file: PathBuf::from("-"), i_hex }, hexdump: false }
}

#[test]
fn a_run_reads_the_value_and_counts_the_bytes_of_the_blob() {
    let (v, len) = run(&dump_of(true), b"4568656c6c6f05").unwrap();
    assert_eq!(Value::String("hello".to_string()), v);
    assert_eq!(7, len);

    let (v, len) = run(&dump_of(false), &[0x15, 0xF0, 0]).unwrap();
    assert_eq!(Value::Int64(5), v);
    assert_eq!(3, len);

    match run(&dump_of(true), b"123") {
        Err(InputError::Hex(HexError::OddLength)) => {}
        other => panic!("unexpected {:?}", other),
    }
    match run(&dump_of(false), b"123") {
        Err(InputError::Twine(e)) => assert_eq!(("pointer underflow", 2), (e.msg, e.off)),
        other => panic!("unexpected {:?}", other),
    }
}

#[test]
fn what_the_command_line_says() {
    let cli = Cli::Dump(dump_of(true));
    match cli {
        Cli::Dump(d) => {
            assert!(d.input.i_hex);
            assert!(!d.hexdump);
            assert_eq!(Some("-"), d.input.file.to_str());
        }
        Cli::FromJson(FromJson {}) => panic!("unexpected"),
    }
}
