use std::fmt::Debug;
use theta::proto::decode::{Decode, Decoder};
use theta::proto::encode::{Encode, Encoder};
use theta::proto::{StrWithMaxLen, VarInt};

fn assert_encode_bytes<T: Encode>(val: T, bytes: &[u8]) {
    let mut v = vec![];
    assert!(val.encode(&mut v).is_ok());
    assert_eq!(v.as_slice(), bytes);
}

fn assert_decode_bytes<'a, T: Decode<'a> + PartialEq + Debug>(mut bytes: &'a [u8], val: T) {
    let decoded = T::decode(&mut bytes);
    assert!(decoded.is_ok());
    assert_eq!(val, decoded.unwrap());
}

fn assert_mutually_codable<T: Encode + for<'a> Decode<'a> + PartialEq + Debug>(val: T) {
    let mut v = vec![];
    assert!(val.encode(&mut v).is_ok());
    let decoded = T::decode(&mut v.as_slice());
    assert_eq!(Ok(val), decoded);
}

#[test]
fn encode_num_test() {
    assert_encode_bytes(0u8, &[0]);
    assert_encode_bytes(64u8, &[64]);
    assert_encode_bytes(0x77_aa as i16, &[0xaa, 0x77]);
    assert_encode_bytes(0xaa_bb_cc_dd as u32, &[0xdd, 0xcc, 0xbb, 0xaa]);
}

#[test]
fn decode_num_test() {
    assert_decode_bytes(&[0], 0u8);
    assert_decode_bytes(&[64], 64u8);
    assert_decode_bytes(&[0xaa, 0x77], 0x77_aa as i16);
    assert_decode_bytes(&[0xdd, 0xcc, 0xbb, 0xaa], 0xaa_bb_cc_dd as u32);
}

#[test]
fn mutually_codable_num_test() {
    assert_mutually_codable(0u8);
    assert_mutually_codable(1u8);
    assert_mutually_codable(9u8);
    assert_mutually_codable(10u8);
    assert_mutually_codable(585u16);
    assert_mutually_codable(8321i16);
    assert_mutually_codable(3295678438u32);
    assert_mutually_codable(843825i32);
    assert_mutually_codable(-8756i64);
    assert_mutually_codable(-321i128);
}

#[test]
fn var_int_test() {
    assert_mutually_codable(VarInt::<u32>(u32::MAX));
    assert_mutually_codable(VarInt::<u32>(32919312));
    assert_mutually_codable(VarInt::<u32>(1));
    assert_mutually_codable(VarInt::<u64>(321930205));
    assert_mutually_codable(VarInt::<u64>(u64::MAX));
    assert_mutually_codable(VarInt::<i32>(i32::MAX));
    assert_mutually_codable(VarInt::<i32>(i32::MIN));
    assert_mutually_codable(VarInt::<i32>(-3213));
}

#[test]
fn other_widths_are_mutually_codable() {
    assert_mutually_codable(-1i8);
    assert_mutually_codable(i8::MIN);
    assert_mutually_codable(u64::MAX);
    assert_mutually_codable(u128::MAX);
    assert_mutually_codable(i128::MIN);
    assert_mutually_codable(VarInt::<u16>(u16::MAX));
    assert_mutually_codable(VarInt::<i16>(i16::MIN));
    assert_mutually_codable(VarInt::<i64>(-1));
    assert_mutually_codable(VarInt::<u128>(u128::MAX));
    assert_mutually_codable(VarInt::<i128>(i128::MIN));
}

#[test]
fn var_int_takes_seven_bits_to_a_byte() {
    assert_encode_bytes(VarInt::<u32>(0), &[0]);
    assert_encode_bytes(VarInt::<u32>(127), &[127]);
    assert_encode_bytes(VarInt::<u32>(128), &[0x80, 1]);
    assert_encode_bytes(VarInt::<u32>(300), &[0xac, 2]);
    assert_encode_bytes(VarInt::<u32>(u32::MAX), &[0xff, 0xff, 0xff, 0xff, 0x0f]);
    assert_encode_bytes(VarInt::<i32>(-1), &[0xff, 0xff, 0xff, 0xff, 0x0f]);
}

#[test]
fn number_that_is_cut_off_is_refused() {
    assert_eq!(Err(()), u32::decode(&mut [1u8, 2, 3].as_slice()));
    assert_eq!(Err(()), VarInt::<u32>::decode(&mut [0x80u8, 0x80].as_slice()));
    assert_eq!(Err(()), u8::decode(&mut [].as_slice()));
}

#[test]
fn var_int_that_does_not_end_is_refused() {
    let mut input: &[u8] = &[0x80, 0x80, 0x80, 0x80, 0x80, 0x01];
    assert_eq!(Err(()), VarInt::<u32>::decode(&mut input));
}

#[test]
fn decoding_uses_up_what_it_reads() {
    let mut input: &[u8] = &[0xac, 2, 7, 8, 9];
    assert_eq!(Ok(VarInt(300u32)), VarInt::<u32>::decode(&mut input));
    assert_eq!(Ok(0x0807u16), u16::decode(&mut input));
    assert_eq!(Some(9), input.read_byte());
    assert_eq!(None, input.read_byte());
}

#[test]
fn reader_hands_out_bytes_or_nothing() {
    let mut input: &[u8] = &[1, 2, 3];
    assert_eq!(None, input.read(4));
    assert_eq!(Some([1u8, 2].as_slice()), input.read(2));
    assert_eq!(&[3u8], input);
}

#[test]
fn writer_appends() {
    let mut out: Vec<u8> = vec![1];
    assert_eq!(Ok(()), Encoder::write(&mut out, &[2, 3]));
    assert_eq!(vec![1, 2, 3], out);
}

#[test]
fn text_round_trip() {
    let mut out = vec![];
    assert!(StrWithMaxLen::<16>::new("h\u{e9}llo").encode(&mut out).is_ok());
    assert_eq!(vec![6, b'h', 0xc3, 0xa9, b'l', b'l', b'o'], out);
    out.push(42);
    let mut input = out.as_slice();
    let text = StrWithMaxLen::<16>::decode(&mut input).unwrap();
    assert_eq!("h\u{e9}llo", text.0);
    assert_eq!(&[42u8], input);
}

#[test]
fn text_that_is_too_long_is_refused() {
    let mut out = vec![];
    assert_eq!(Err(()), StrWithMaxLen::<4>::new("hello").encode(&mut out));
    assert!(out.is_empty());
    assert!(StrWithMaxLen::<5>::new("hello").encode(&mut out).is_ok());
    assert!(StrWithMaxLen::<4>::decode(&mut out.as_slice()).is_err());
    assert!(StrWithMaxLen::<5>::decode(&mut &out[..5]).is_err());
}

#[test]
fn text_that_is_not_utf8_is_refused() {
    assert!(StrWithMaxLen::<8>::decode(&mut [2u8, 0xc3, 0x28].as_slice()).is_err());
    assert_eq!("(", StrWithMaxLen::<8>::decode(&mut [1u8, 0x28].as_slice()).unwrap().0);
}
