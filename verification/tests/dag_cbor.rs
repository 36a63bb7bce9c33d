use bytecursor::ByteCursor;
use sp_ipld::cid::{Cid, Version};
use sp_ipld::codec::{Codec, Decode, Encode, Error, References, SkipOne, UnsupportedCodec};
use sp_ipld::dag_cbor::decode::{decode, decode_value};
use sp_ipld::dag_cbor::encode::{encode, encode_ipld, write_head};
use sp_ipld::dag_cbor::format::MAX_DEPTH;
use sp_ipld::dag_cbor::{cid, cid_of_block, cid_with, DagCborCodec};
use sp_ipld::hasher::{Code, MultihashDigest};
use sp_ipld::ipld::Ipld;

fn text(s: &str) -> Ipld {
    Ipld::String(s.to_string())
}

fn map(entries: Vec<(&str, Ipld)>) -> Ipld {
    Ipld::StringMap(entries.into_iter().map(|(k, v)| (k.to_string(), v)).collect())
}

fn a_cid() -> Cid {
    Cid::new_v1(0x55, Code::Blake2b256.digest(b"a block"))
}

fn samples() -> Vec<Ipld> {
    vec![
        Ipld::Null,
        Ipld::Bool(false),
        Ipld::Bool(true),
        Ipld::Integer(0),
        Ipld::Integer(23),
        Ipld::Integer(24),
        Ipld::Integer(255),
        Ipld::Integer(256),
        Ipld::Integer(65535),
        Ipld::Integer(65536),
        Ipld::Integer(0xffff_ffff),
        Ipld::Integer(0x1_0000_0000),
        Ipld::Integer(u64::MAX as i128),
        Ipld::Integer(i64::MAX as i128),
        Ipld::Integer(i64::MAX as i128 + 1),
        Ipld::Integer(-1),
        Ipld::Integer(-24),
        Ipld::Integer(-25),
        Ipld::Integer(-256),
        Ipld::Integer(-257),
        Ipld::Integer(i64::MIN as i128),
        Ipld::Integer(-(1i128 << 64)),
        Ipld::Float(0f64.to_bits()),
        Ipld::Float(1.5f64.to_bits()),
        Ipld::Float((-1e300f64).to_bits()),
        Ipld::Float(f64::INFINITY.to_bits()),
        Ipld::Float(f64::NAN.to_bits()),
        text(""),
        text("a"),
        text("h\u{e9}llo \u{1f600}"),
        text(&"x".repeat(300)),
        Ipld::Bytes(vec![]),
        Ipld::Bytes(vec![0, 1, 2, 255]),
        Ipld::Bytes(vec![7; 70000]),
        Ipld::List(vec![]),
        Ipld::List(vec![Ipld::Integer(1), text("two"), Ipld::Null]),
        Ipld::List(vec![Ipld::List(vec![Ipld::List(vec![])])]),
        Ipld::List((0..30).map(Ipld::Integer).collect()),
        map(vec![]),
        map(vec![("a", Ipld::Integer(2)), ("b", Ipld::Integer(1))]),
        map(vec![("", Ipld::Null), ("a", Ipld::Null), ("aa", Ipld::Null), ("b", Ipld::Null)]),
        map(vec![("k", map(vec![("k", Ipld::List(vec![Ipld::Link(a_cid())]))]))]),
        Ipld::Link(a_cid()),
        Ipld::Link(Cid::new_v0(Code::Sha2_256.digest(b"old")).unwrap()),
        Ipld::Link(Cid::new_v1(0x71, Code::Sha2_512.digest(b"wide"))),
    ]
}

#[test]
fn cbor_null() {
    assert_eq!(encode(&Ipld::Null), Ok(vec![0xf6]));
    assert_eq!(decode(&[0xf6]), Ok(Ipld::Null));
}

#[test]
fn cbor_bool() {
    assert_eq!(encode(&Ipld::Bool(false)), Ok(vec![0xf4]));
    assert_eq!(encode(&Ipld::Bool(true)), Ok(vec![0xf5]));
    assert_eq!(decode(&[0xf4]), Ok(Ipld::Bool(false)));
    assert_eq!(decode(&[0xf5]), Ok(Ipld::Bool(true)));
}

#[test]
fn cbor_small_int() {
    assert_eq!(encode(&Ipld::Integer(23)), Ok(vec![0x17]));
    assert_eq!(encode(&Ipld::Integer(24)), Ok(vec![0x18, 0x18]));
    assert_eq!(decode(&[0x18, 0x17]), Err(Error::NonCanonical));
}

#[test]
fn cbor_int_widths() {
    assert_eq!(encode(&Ipld::Integer(0)), Ok(vec![0x00]));
    assert_eq!(encode(&Ipld::Integer(255)), Ok(vec![0x18, 0xff]));
    assert_eq!(encode(&Ipld::Integer(256)), Ok(vec![0x19, 0x01, 0x00]));
    assert_eq!(encode(&Ipld::Integer(65535)), Ok(vec![0x19, 0xff, 0xff]));
    assert_eq!(encode(&Ipld::Integer(65536)), Ok(vec![0x1a, 0x00, 0x01, 0x00, 0x00]));
    assert_eq!(encode(&Ipld::Integer(0xffff_ffff)), Ok(vec![0x1a, 0xff, 0xff, 0xff, 0xff]));
    assert_eq!(
        encode(&Ipld::Integer(0x1_0000_0000)),
        Ok(vec![0x1b, 0x00, 0x00, 0x00, 0x01, 0x00, 0x00, 0x00, 0x00])
    );
    assert_eq!(
        encode(&Ipld::Integer(u64::MAX as i128)),
        Ok(vec![0x1b, 0xff, 0xff, 0xff, 0xff, 0xff, 0xff, 0xff, 0xff])
    );
    assert_eq!(
        encode(&Ipld::Integer(1_000_000)),
        Ok(vec![0x1a, 0x00, 0x0f, 0x42, 0x40])
    );
}

#[test]
fn cbor_negative() {
    assert_eq!(encode(&Ipld::Integer(-1)), Ok(vec![0x20]));
    assert_eq!(encode(&Ipld::Integer(-10)), Ok(vec![0x29]));
    assert_eq!(encode(&Ipld::Integer(-100)), Ok(vec![0x38, 0x63]));
    assert_eq!(encode(&Ipld::Integer(-1000)), Ok(vec![0x39, 0x03, 0xe7]));
    assert_eq!(
        encode(&Ipld::Integer(-(1i128 << 64))),
        Ok(vec![0x3b, 0xff, 0xff, 0xff, 0xff, 0xff, 0xff, 0xff, 0xff])
    );
    assert_eq!(encode(&Ipld::Integer(-(1i128 << 64) - 1)), Err(Error::NumberOutOfRange));
}

#[test]
fn cbor_int_out_of_range() {
    assert_eq!(encode(&Ipld::Integer(1i128 << 64)), Err(Error::NumberOutOfRange));
    assert_eq!(encode(&Ipld::Integer(i128::MAX)), Err(Error::NumberOutOfRange));
    assert_eq!(encode(&Ipld::Integer(i128::MIN)), Err(Error::NumberOutOfRange));
    assert_eq!(
        encode(&Ipld::List(vec![Ipld::Null, map(vec![("a", Ipld::Integer(1i128 << 64))])])),
        Err(Error::NumberOutOfRange)
    );
}

#[test]
fn cbor_decoded_ints() {
    assert_eq!(decode(&[0x00]), Ok(Ipld::Integer(0)));
    assert_eq!(decode(&[0x20]), Ok(Ipld::Integer(-1)));
    assert_eq!(
        decode(&[0x1b, 0xff, 0xff, 0xff, 0xff, 0xff, 0xff, 0xff, 0xff]),
        Ok(Ipld::Integer(u64::MAX as i128))
    );
    assert_eq!(
        decode(&[0x3b, 0xff, 0xff, 0xff, 0xff, 0xff, 0xff, 0xff, 0xff]),
        Ok(Ipld::Integer(-(1i128 << 64)))
    );
}

#[test]
fn cbor_float() {
    assert_eq!(
        encode(&Ipld::Float(1.5f64.to_bits())),
        Ok(vec![0xfb, 0x3f, 0xf8, 0, 0, 0, 0, 0, 0])
    );
    assert_eq!(
        encode(&Ipld::Float((-4.1f64).to_bits())),
        Ok(vec![0xfb, 0xc0, 0x10, 0x66, 0x66, 0x66, 0x66, 0x66, 0x66])
    );
    assert_eq!(
        decode(&[0xfb, 0x3f, 0xf8, 0, 0, 0, 0, 0, 0]),
        Ok(Ipld::Float(1.5f64.to_bits()))
    );
}

#[test]
fn cbor_narrow_floats_are_refused() {
    assert_eq!(decode(&[0xf9, 0x3e, 0x00]), Err(Error::InvalidFloatWidth));
    assert_eq!(decode(&[0xfa, 0x3f, 0xc0, 0x00, 0x00]), Err(Error::InvalidFloatWidth));
}

#[test]
fn cbor_string() {
    assert_eq!(encode(&text("")), Ok(vec![0x60]));
    assert_eq!(encode(&text("a")), Ok(vec![0x61, 0x61]));
    assert_eq!(encode(&text("IETF")), Ok(vec![0x64, 0x49, 0x45, 0x54, 0x46]));
    assert_eq!(encode(&text("\u{fc}")), Ok(vec![0x62, 0xc3, 0xbc]));
    assert_eq!(decode(&[0x62, 0xc3, 0xbc]), Ok(text("\u{fc}")));
}

#[test]
fn cbor_invalid_utf8() {
    assert_eq!(decode(&[0x61, 0xff]), Err(Error::InvalidUtf8));
    assert_eq!(decode(&[0x62, 0xc3, 0x28]), Err(Error::InvalidUtf8));
    assert_eq!(decode(&[0xa1, 0x61, 0xff, 0x00]), Err(Error::InvalidUtf8));
}

#[test]
fn cbor_bytes() {
    assert_eq!(encode(&Ipld::Bytes(vec![])), Ok(vec![0x40]));
    assert_eq!(encode(&Ipld::Bytes(vec![1, 2, 3, 4])), Ok(vec![0x44, 1, 2, 3, 4]));
    let long = encode(&Ipld::Bytes(vec![9; 24])).unwrap();
    assert_eq!(&long[..2], &[0x58, 24]);
    assert_eq!(long.len(), 26);
}

#[test]
fn cbor_list() {
    assert_eq!(encode(&Ipld::List(vec![])), Ok(vec![0x80]));
    assert_eq!(
        encode(&Ipld::List(vec![Ipld::Integer(1), Ipld::Integer(2), Ipld::Integer(3)])),
        Ok(vec![0x83, 0x01, 0x02, 0x03])
    );
    assert_eq!(
        encode(&Ipld::List(vec![
            Ipld::Integer(1),
            Ipld::List(vec![Ipld::Integer(2), Ipld::Integer(3)]),
            Ipld::List(vec![Ipld::Integer(4), Ipld::Integer(5)]),
        ])),
        Ok(vec![0x83, 0x01, 0x82, 0x02, 0x03, 0x82, 0x04, 0x05])
    );
}

#[test]
fn cbor_map_order() {
    let mut entries = Vec::new();
    Ipld::map_insert(&mut entries, "b".to_string(), Ipld::Integer(1));
    Ipld::map_insert(&mut entries, "a".to_string(), Ipld::Integer(2));
    assert_eq!(
        encode(&Ipld::StringMap(entries)),
        Ok(vec![0xa2, 0x61, 0x61, 0x02, 0x61, 0x62, 0x01])
    );
}

#[test]
fn cbor_map_keys_out_of_order_are_not_written() {
    assert_eq!(
        encode(&map(vec![("b", Ipld::Integer(1)), ("a", Ipld::Integer(2))])),
        Err(Error::NonCanonical)
    );
    assert_eq!(
        encode(&map(vec![("a", Ipld::Integer(1)), ("a", Ipld::Integer(2))])),
        Err(Error::NonCanonical)
    );
}

#[test]
fn cbor_map_keys_ascend_by_bytes() {
    // Not by length first: "aa" comes before "b".
    assert_eq!(
        encode(&map(vec![("aa", Ipld::Integer(1)), ("b", Ipld::Integer(2))])),
        Ok(vec![0xa2, 0x62, 0x61, 0x61, 0x01, 0x61, 0x62, 0x02])
    );
    assert_eq!(
        decode(&[0xa2, 0x61, 0x62, 0x02, 0x62, 0x61, 0x61, 0x01]),
        Err(Error::NonCanonical)
    );
}

#[test]
fn cbor_duplicate_key() {
    assert_eq!(
        decode(&[0xa2, 0x61, 0x61, 0x01, 0x61, 0x61, 0x02]),
        Err(Error::DuplicateKey)
    );
}

#[test]
fn cbor_map_key_must_be_text() {
    assert_eq!(decode(&[0xa1, 0x01, 0x02]), Err(Error::InvalidCborMajor));
    assert_eq!(decode(&[0xa1, 0x41, 0x61, 0x02]), Err(Error::InvalidCborMajor));
}

#[test]
fn cbor_link() {
    let c = cid(&Ipld::List(vec![]));
    let bytes = encode(&Ipld::Link(c)).unwrap();
    let cid_bytes = c.to_bytes();
    assert_eq!(&bytes[..3], &[0xd8, 0x2a, 0x58]);
    assert_eq!(bytes[3] as usize, cid_bytes.len() + 1);
    assert_eq!(bytes[4], 0x00);
    assert_eq!(&bytes[5..], &cid_bytes[..]);
    assert_eq!(decode(&bytes), Ok(Ipld::Link(c)));
}

#[test]
fn cbor_link_payload_must_start_with_zero() {
    let c = a_cid();
    let mut bytes = encode(&Ipld::Link(c)).unwrap();
    bytes[4] = 0x01;
    assert_eq!(decode(&bytes), Err(Error::InvalidCidBase));
    assert_eq!(decode(&[0xd8, 0x2a, 0x40]), Err(Error::InvalidCidBase));
}

#[test]
fn cbor_link_payload_must_be_a_byte_string() {
    assert_eq!(decode(&[0xd8, 0x2a, 0x61, 0x00]), Err(Error::InvalidCborMajor));
    assert_eq!(decode(&[0xd8, 0x2a]), Err(Error::UnexpectedEof));
}

#[test]
fn cbor_link_payload_must_be_one_cid() {
    let c = a_cid();
    let cid_bytes = c.to_bytes();
    let mut bytes = vec![0xd8, 0x2a, 0x58, cid_bytes.len() as u8 + 2, 0x00];
    bytes.extend_from_slice(&cid_bytes);
    bytes.push(0x00);
    assert_eq!(decode(&bytes), Err(Error::TrailingBytes));
}

#[test]
fn cbor_other_tags_are_refused() {
    assert_eq!(decode(&[0xc2, 0x41, 0x00]), Err(Error::UnknownTag(2)));
    assert_eq!(decode(&[0xd8, 0x2b, 0x41, 0x00]), Err(Error::UnknownTag(43)));
    assert_eq!(decode(&[0xd9, 0x01, 0x00, 0x41, 0x00]), Err(Error::UnknownTag(256)));
    assert_eq!(decode(&[0xd9, 0x00, 0x2a, 0x41, 0x00]), Err(Error::NonCanonical));
}

#[test]
fn cbor_indefinite_lengths_are_refused() {
    assert_eq!(decode(&[0x5f, 0x41, 0x00, 0xff]), Err(Error::IndefiniteLengthNotAllowed));
    assert_eq!(decode(&[0x7f, 0x61, 0x61, 0xff]), Err(Error::IndefiniteLengthNotAllowed));
    assert_eq!(decode(&[0x9f, 0x01, 0xff]), Err(Error::IndefiniteLengthNotAllowed));
    assert_eq!(decode(&[0xbf, 0x61, 0x61, 0x01, 0xff]), Err(Error::IndefiniteLengthNotAllowed));
}

#[test]
fn cbor_meaningless_heads_are_refused() {
    assert_eq!(decode(&[0x1c]), Err(Error::InvalidCborMajor));
    assert_eq!(decode(&[0x1f]), Err(Error::InvalidCborMajor));
    assert_eq!(decode(&[0x3f]), Err(Error::InvalidCborMajor));
    assert_eq!(decode(&[0xdf]), Err(Error::InvalidCborMajor));
    assert_eq!(decode(&[0xf7]), Err(Error::InvalidCborMajor));
    assert_eq!(decode(&[0xe0]), Err(Error::InvalidCborMajor));
    assert_eq!(decode(&[0xf8, 0x20]), Err(Error::InvalidCborMajor));
    assert_eq!(decode(&[0xff]), Err(Error::InvalidCborMajor));
}

#[test]
fn cbor_wide_heads_are_refused() {
    assert_eq!(decode(&[0x18, 0x00]), Err(Error::NonCanonical));
    assert_eq!(decode(&[0x19, 0x00, 0xff]), Err(Error::NonCanonical));
    assert_eq!(decode(&[0x1a, 0x00, 0x00, 0xff, 0xff]), Err(Error::NonCanonical));
    assert_eq!(
        decode(&[0x1b, 0x00, 0x00, 0x00, 0x00, 0xff, 0xff, 0xff, 0xff]),
        Err(Error::NonCanonical)
    );
    assert_eq!(decode(&[0x38, 0x17]), Err(Error::NonCanonical));
    assert_eq!(decode(&[0x58, 0x01, 0x00]), Err(Error::NonCanonical));
    assert_eq!(decode(&[0x78, 0x01, 0x61]), Err(Error::NonCanonical));
    assert_eq!(decode(&[0x98, 0x01, 0x00]), Err(Error::NonCanonical));
    assert_eq!(decode(&[0xb8, 0x01, 0x61, 0x61, 0x00]), Err(Error::NonCanonical));
}

#[test]
fn cbor_short_input() {
    assert_eq!(decode(&[]), Err(Error::UnexpectedEof));
    assert_eq!(decode(&[0x18]), Err(Error::UnexpectedEof));
    assert_eq!(decode(&[0x19, 0x01]), Err(Error::UnexpectedEof));
    assert_eq!(decode(&[0x42, 0x00]), Err(Error::UnexpectedEof));
    assert_eq!(decode(&[0x62, 0x61]), Err(Error::UnexpectedEof));
    assert_eq!(decode(&[0x82, 0x00]), Err(Error::UnexpectedEof));
    assert_eq!(decode(&[0xa1, 0x61, 0x61]), Err(Error::UnexpectedEof));
    assert_eq!(decode(&[0xfb, 0, 0, 0, 0, 0, 0, 0]), Err(Error::UnexpectedEof));
    assert_eq!(
        decode(&[0x9b, 0xff, 0xff, 0xff, 0xff, 0xff, 0xff, 0xff, 0xff]),
        Err(Error::UnexpectedEof)
    );
}

#[test]
fn cbor_trailing_bytes() {
    assert_eq!(decode(&[0xf6, 0x00]), Err(Error::TrailingBytes));
    assert_eq!(decode(&[0x80, 0x80]), Err(Error::TrailingBytes));
    for v in samples() {
        let mut bytes = encode(&v).unwrap();
        bytes.push(0xf6);
        assert_eq!(decode(&bytes), Err(Error::TrailingBytes));
    }
}

#[test]
fn cbor_recursion_limit() {
    let mut deep = vec![0x81; MAX_DEPTH];
    deep.push(0x00);
    assert!(decode(&deep).is_ok());
    let mut deeper = vec![0x81; MAX_DEPTH + 1];
    deeper.push(0x00);
    assert_eq!(decode(&deeper), Err(Error::RecursionLimit));
    let mut maps = Vec::new();
    for _ in 0..MAX_DEPTH + 1 {
        maps.extend_from_slice(&[0xa1, 0x61, 0x61]);
    }
    maps.push(0x00);
    assert_eq!(decode(&maps), Err(Error::RecursionLimit));
}

#[test]
fn cbor_roundtrip() {
    for v in samples() {
        let bytes = encode(&v).unwrap();
        assert_eq!(decode(&bytes), Ok(v));
    }
}

#[test]
fn cbor_decoded_values_encode_to_the_same_bytes() {
    let inputs: Vec<Vec<u8>> = vec![
        vec![0xa2, 0x61, 0x61, 0x82, 0x01, 0x20, 0x61, 0x62, 0xf5],
        vec![0x83, 0x60, 0x40, 0xfb, 0x7f, 0xf8, 0, 0, 0, 0, 0, 1],
        vec![0x98, 0x18, 0, 0, 0, 0, 0, 0, 0, 0, 0, 0, 0, 0, 0, 0, 0, 0, 0, 0, 0, 0, 0, 0, 0, 0],
    ];
    for input in inputs {
        let v = decode(&input).unwrap();
        assert!(v.is_valid());
        assert_eq!(encode(&v), Ok(input));
    }
}

#[test]
fn cbor_distinct_values_have_distinct_encodings() {
    let all = samples();
    let encodings: Vec<Vec<u8>> = all.iter().map(|v| encode(v).unwrap()).collect();
    for i in 0..all.len() {
        for j in 0..all.len() {
            assert_eq!(encodings[i] == encodings[j], all[i] == all[j]);
        }
    }
}

#[test]
fn cbor_encode_ipld_appends() {
    let mut out = vec![0xaa];
    assert_eq!(encode_ipld(&Ipld::Integer(24), &mut out), Ok(()));
    assert_eq!(encode_ipld(&text("a"), &mut out), Ok(()));
    assert_eq!(out, vec![0xaa, 0x18, 0x18, 0x61, 0x61]);
    assert_eq!(encode_ipld(&Ipld::Integer(1i128 << 64), &mut out), Err(Error::NumberOutOfRange));
}

#[test]
fn cbor_write_head() {
    let mut out = Vec::new();
    write_head(&mut out, 4, 3);
    write_head(&mut out, 5, 500);
    write_head(&mut out, 2, 70000);
    assert_eq!(out, vec![0x83, 0xb9, 0x01, 0xf4, 0x5a, 0x00, 0x01, 0x11, 0x70]);
}

#[test]
fn cbor_decode_value_reads_one_value() {
    let bytes = [0xff, 0x82, 0x01, 0x02, 0xf6];
    assert_eq!(
        decode_value(&bytes, 1, 1),
        Ok((Ipld::List(vec![Ipld::Integer(1), Ipld::Integer(2)]), 4))
    );
    assert_eq!(decode_value(&bytes, 1, 0), Err(Error::RecursionLimit));
    assert_eq!(decode_value(&bytes, 4, 0), Ok((Ipld::Null, 5)));
    assert_eq!(decode_value(&bytes, 5, 0), Err(Error::UnexpectedEof));
}

#[test]
fn cbor_cid_is_blake2b_of_the_encoding() {
    let value = map(vec![("a", Ipld::List(vec![Ipld::Integer(1)]))]);
    let c = cid(&value);
    assert_eq!(c.version(), Version::V1);
    assert_eq!(c.codec(), 0x71);
    assert_eq!(*c.hash(), Code::Blake2b256.digest(&encode(&value).unwrap()));
    assert_eq!(c, cid_of_block(0x71, &encode(&value).unwrap()));
    assert_ne!(c, cid(&Ipld::Null));
}

#[test]
fn cbor_cid_of_the_empty_list() {
    // BLAKE2b-256 of the one byte 0x80.
    let c = cid(&Ipld::List(vec![]));
    assert_eq!(*c.hash(), Code::Blake2b256.digest(&[0x80]));
    assert_eq!(c.to_bytes()[..6], [0x01, 0x71, 0xa0, 0xe4, 0x02, 0x20]);
    assert_eq!(c.to_bytes().len(), 38);
    assert!(c.to_string().starts_with("bafy2bza"));
}

#[test]
fn codec_code() {
    let code: u64 = DagCborCodec.into();
    assert_eq!(code, 0x71);
    assert_eq!(DagCborCodec::try_from(0x71), Ok(DagCborCodec));
    assert_eq!(DagCborCodec::try_from(0x70).map_err(|e| e.0), Err(0x70));
    assert_eq!(UnsupportedCodec(5).0, 5);
    assert_eq!(Error::from(UnsupportedCodec(5)), Error::UnsupportedCodec(5));
    assert_eq!(
        DagCborCodec::try_from(0x0129).map_err(Error::from),
        Err(Error::UnsupportedCodec(0x0129))
    );
}

#[test]
fn codec_encode_fills_a_fresh_cursor() {
    let value = Ipld::List(vec![Ipld::Integer(1), text("a")]);
    let cursor = DagCborCodec.encode(&value).unwrap();
    assert_eq!(cursor.position(), 4);
    assert_eq!(cursor.into_inner(), vec![0x82, 0x01, 0x61, 0x61]);
    assert_eq!(
        DagCborCodec.encode(&Ipld::Integer(1i128 << 64)).map(|c| c.into_inner()),
        Err(Error::NumberOutOfRange)
    );
}

#[test]
fn codec_decode_is_strict() {
    let value: Ipld = DagCborCodec.decode(ByteCursor::new(vec![0x82, 0x01, 0x61, 0x61])).unwrap();
    assert_eq!(value, Ipld::List(vec![Ipld::Integer(1), text("a")]));
    let res: Result<Ipld, Error> = DagCborCodec.decode(ByteCursor::new(vec![0x01, 0x02]));
    assert_eq!(res, Err(Error::TrailingBytes));
    let res: Result<Ipld, Error> = DagCborCodec.decode(ByteCursor::new(vec![0x18]));
    assert_eq!(res, Err(Error::UnexpectedEof));
}

#[test]
fn codec_roundtrip() {
    for v in samples() {
        let mut cursor = DagCborCodec.encode(&v).unwrap();
        cursor.set_position(0);
        let back: Ipld = DagCborCodec.decode(cursor).unwrap();
        assert_eq!(back, v);
    }
}

#[test]
fn trait_encode_writes_at_the_position() {
    let mut w = ByteCursor::new(vec![0xaa, 0xbb, 0xcc, 0xdd]);
    w.set_position(1);
    Encode::encode(&Ipld::Integer(24), DagCborCodec, &mut w).unwrap();
    assert_eq!(w.position(), 3);
    assert_eq!(w.into_inner(), vec![0xaa, 0x18, 0x18, 0xdd]);
}

#[test]
fn trait_encode_failure_writes_nothing() {
    let mut w = ByteCursor::new(vec![0xaa]);
    w.set_position(1);
    assert_eq!(
        Encode::encode(&Ipld::Integer(1i128 << 64), DagCborCodec, &mut w),
        Err(Error::NumberOutOfRange)
    );
    assert_eq!(w.position(), 1);
    assert_eq!(w.into_inner(), vec![0xaa]);
}

#[test]
fn trait_decode_reads_one_value_and_moves_on() {
    let mut r = ByteCursor::new(vec![0x01, 0x61, 0x61, 0xf6]);
    assert_eq!(<Ipld as Decode<DagCborCodec>>::decode(DagCborCodec, &mut r), Ok(Ipld::Integer(1)));
    assert_eq!(r.position(), 1);
    assert_eq!(<Ipld as Decode<DagCborCodec>>::decode(DagCborCodec, &mut r), Ok(text("a")));
    assert_eq!(r.position(), 3);
    assert_eq!(<Ipld as Decode<DagCborCodec>>::decode(DagCborCodec, &mut r), Ok(Ipld::Null));
    assert_eq!(
        <Ipld as Decode<DagCborCodec>>::decode(DagCborCodec, &mut r),
        Err(Error::UnexpectedEof)
    );
    assert_eq!(r.position(), 4);
}

#[test]
fn trait_decode_failure_leaves_the_cursor() {
    let mut r = ByteCursor::new(vec![0x01, 0x82, 0x01]);
    r.set_position(1);
    assert_eq!(
        <Ipld as Decode<DagCborCodec>>::decode(DagCborCodec, &mut r),
        Err(Error::UnexpectedEof)
    );
    assert_eq!(r.position(), 1);
}

#[test]
fn trait_references_harvests_links() {
    let a = a_cid();
    let b = Cid::new_v1(0x71, Code::Sha2_256.digest(b"b"));
    let value = Ipld::List(vec![
        Ipld::Link(a),
        map(vec![("x", Ipld::Link(b)), ("y", Ipld::Integer(1))]),
        Ipld::Link(a),
    ]);
    let mut set = vec![b];
    let mut r = DagCborCodec.encode(&value).unwrap();
    r.set_position(0);
    <Ipld as References<DagCborCodec>>::references(DagCborCodec, &mut r, &mut set).unwrap();
    assert_eq!(set, vec![b, a, b, a]);
    let mut set = Vec::new();
    let mut r = DagCborCodec.encode(&value).unwrap();
    r.set_position(0);
    DagCborCodec.references::<Ipld>(r, &mut set).unwrap();
    assert_eq!(set, vec![a, b, a]);
}

#[test]
fn trait_references_failure_leaves_the_set() {
    let a = a_cid();
    let mut set = vec![a];
    assert_eq!(
        DagCborCodec.references::<Ipld>(ByteCursor::new(vec![0x82, 0x01]), &mut set),
        Err(Error::UnexpectedEof)
    );
    assert_eq!(set, vec![a]);
}

#[test]
fn skip_passes_one_value() {
    let mut r = ByteCursor::new(vec![0x82, 0x01, 0x61, 0x61, 0xf6, 0x18]);
    assert_eq!(DagCborCodec.skip(&mut r), Ok(()));
    assert_eq!(r.position(), 4);
    assert_eq!(DagCborCodec.skip(&mut r), Ok(()));
    assert_eq!(r.position(), 5);
    assert_eq!(DagCborCodec.skip(&mut r), Err(Error::UnexpectedEof));
    assert_eq!(r.position(), 5);
}

#[test]
fn cbor_cid_with_another_hash() {
    let value = Ipld::List(vec![Ipld::Integer(1)]);
    let c = cid_with(&value, Code::Sha2_256);
    assert_eq!(c.codec(), 0x71);
    assert_eq!(*c.hash(), Code::Sha2_256.digest(&[0x81, 0x01]));
    assert_eq!(cid_with(&value, Code::Blake2b256), cid(&value));
    let inline = cid_with(&value, Code::Identity);
    assert_eq!(inline.hash().digest(), &[0x81, 0x01]);
    assert_eq!(inline.to_bytes(), vec![0x01, 0x71, 0x00, 0x02, 0x81, 0x01]);
}
