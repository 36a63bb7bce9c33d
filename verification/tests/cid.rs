use bytecursor::ByteCursor;
use sp_ipld::cid::{is_v0_str, Cid, Version};
use sp_ipld::codec::Error;
use sp_ipld::hasher::{Code, MultihashDigest};
use sp_ipld::multihash::Multihash;

#[test]
fn v1_parts() {
    let hash = Code::Sha2_256.digest(b"foo");
    let cid = Cid::new_v1(0x55, hash);
    assert_eq!(cid.version(), Version::V1);
    assert_eq!(cid.codec(), 0x55);
    assert_eq!(*cid.hash(), hash);
}

#[test]
fn v1_bytes() {
    let hash = Code::Sha2_256.digest(b"foo");
    let cid = Cid::new_v1(0x55, hash);
    let mut expected = vec![0x01, 0x55];
    expected.extend_from_slice(&hash.to_bytes());
    assert_eq!(cid.to_bytes(), expected);
    assert_eq!(Cid::from_bytes(&expected), Ok(cid));
}

#[test]
fn v1_text_is_base32() {
    let cid = Cid::new_v1(0x55, Code::Sha2_256.digest(b"foo"));
    assert_eq!(cid.to_string(), "bafkreibme22gw2h7y2h7tg2fhqotaqjucnbc24deqo72b6mkl2egezxhvy");
    assert_eq!(Cid::from_str("bafkreibme22gw2h7y2h7tg2fhqotaqjucnbc24deqo72b6mkl2egezxhvy"), Ok(cid));
}

#[test]
fn v1_text_in_another_base() {
    let cid = Cid::new_v1(0x55, Code::Sha2_256.digest(b"foo"));
    let text = multibase::encode(multibase::Base::Base58Btc, cid.to_bytes());
    assert!(text.starts_with('z'));
    assert_eq!(Cid::from_str(&text), Ok(cid));
    let text = multibase::encode(multibase::Base::Base16Lower, cid.to_bytes());
    assert_eq!(Cid::from_str(&text), Ok(cid));
}

#[test]
fn v0_parts() {
    let hash = Code::Sha2_256.digest(b"foo");
    let cid = Cid::new_v0(hash).unwrap();
    assert_eq!(cid.version(), Version::V0);
    assert_eq!(cid.codec(), 0x70);
    assert_eq!(cid.to_bytes(), hash.to_bytes());
    assert_eq!(Cid::from_bytes(&hash.to_bytes()), Ok(cid));
}

#[test]
fn v0_text_is_bare_base58btc() {
    let text = "QmdfTbBqBPQ7VNxZEYEj14VmRuZBkqFbiwReogJgS1zR1n";
    let cid = Cid::from_str(text).unwrap();
    assert_eq!(cid.version(), Version::V0);
    assert_eq!(cid.codec(), 0x70);
    assert_eq!(cid.hash().code(), 0x12);
    assert_eq!(cid.hash().size(), 32);
    assert_eq!(cid.to_string(), text);
}

#[test]
fn v0_text_roundtrip() {
    for input in [&b""[..], b"foo", b"hello world"] {
        let cid = Cid::new_v0(Code::Sha2_256.digest(input)).unwrap();
        let text = cid.to_string();
        assert_eq!(text.len(), 46);
        assert!(text.starts_with("Qm"));
        assert!(is_v0_str(&text));
        assert_eq!(Cid::from_str(&text), Ok(cid));
    }
}

#[test]
fn v1_text_roundtrip() {
    for codec in [0x55u64, 0x70, 0x71, 0x0129, u64::MAX] {
        for code in [Code::Sha2_256, Code::Blake2b256, Code::Sha3_512] {
            let cid = Cid::new_v1(codec, code.digest(b"block"));
            assert_eq!(Cid::from_str(&cid.to_string()), Ok(cid));
            assert_eq!(Cid::from_bytes(&cid.to_bytes()), Ok(cid));
        }
    }
}

#[test]
fn new_v0_wants_sha2_256() {
    assert_eq!(Cid::new_v0(Code::Blake2b256.digest(b"foo")), Err(Error::InvalidCidV0Multihash));
    assert_eq!(
        Cid::new_v0(Multihash::wrap(0x12, &[0u8; 31]).unwrap()),
        Err(Error::InvalidCidV0Multihash)
    );
}

#[test]
fn new_checks_the_parts() {
    let sha = Code::Sha2_256.digest(b"foo");
    assert_eq!(Cid::new(Version::V0, 0x71, sha), Err(Error::InvalidCidV0Codec));
    assert_eq!(
        Cid::new(Version::V0, 0x70, Code::Sha3_256.digest(b"foo")),
        Err(Error::InvalidCidV0Multihash)
    );
    assert_eq!(Cid::new(Version::V0, 0x70, sha), Cid::new_v0(sha));
    assert_eq!(Cid::new(Version::V1, 0x71, sha), Ok(Cid::new_v1(0x71, sha)));
    assert_eq!(Cid::new(Version::V1, 0x71, Multihash::default()), Err(Error::InvalidSize(0)));
}

#[test]
fn version_numbers() {
    assert_eq!(Version::V0.to_u64(), 0);
    assert_eq!(Version::V1.to_u64(), 1);
    assert_eq!(Version::from_u64(0), Ok(Version::V0));
    assert_eq!(Version::from_u64(1), Ok(Version::V1));
    assert_eq!(Version::from_u64(2), Err(Error::InvalidCidVersion));
}

#[test]
fn cid_from_bytes_refuses_another_version() {
    let mut bytes = vec![0x02, 0x55];
    bytes.extend_from_slice(&Code::Sha2_256.digest(b"foo").to_bytes());
    assert_eq!(Cid::from_bytes(&bytes), Err(Error::InvalidCidVersion));
    bytes[0] = 0x00;
    assert_eq!(Cid::from_bytes(&bytes), Err(Error::InvalidCidVersion));
}

#[test]
fn cid_from_bytes_refuses_trailing_bytes() {
    let mut bytes = Cid::new_v1(0x55, Code::Sha2_256.digest(b"foo")).to_bytes();
    bytes.push(0);
    assert_eq!(Cid::from_bytes(&bytes), Err(Error::TrailingBytes));
    let mut bytes = Code::Sha2_256.digest(b"foo").to_bytes();
    bytes.push(0);
    assert_eq!(Cid::from_bytes(&bytes), Err(Error::InvalidCidVersion));
}

#[test]
fn cid_from_bytes_refuses_short_input() {
    assert_eq!(Cid::from_bytes(&[]), Err(Error::VarintOverflow));
    assert_eq!(Cid::from_bytes(&[0x01]), Err(Error::VarintOverflow));
    assert_eq!(Cid::from_bytes(&[0x01, 0x55]), Err(Error::VarintOverflow));
    assert_eq!(Cid::from_bytes(&[0x01, 0x55, 0x12, 0x20, 0x00]), Err(Error::VarintOverflow));
}

#[test]
fn cid_from_bytes_refuses_an_empty_digest() {
    assert_eq!(Cid::from_bytes(&[0x01, 0x55, 0x00, 0x00]), Err(Error::InvalidSize(0)));
}

#[test]
fn cid_from_bytes_refuses_a_digest_above_the_width() {
    let mut bytes = vec![0x01, 0x55, 0x12, 0x41];
    bytes.extend_from_slice(&[0u8; 65]);
    assert_eq!(Cid::from_bytes(&bytes), Err(Error::InvalidSize(65)));
}

#[test]
fn from_str_refuses_what_is_no_base() {
    assert_eq!(Cid::from_str(""), Err(Error::InvalidCidBase));
    assert_eq!(Cid::from_str("!abc"), Err(Error::InvalidCidBase));
    assert_eq!(Cid::from_str("b!!!!"), Err(Error::InvalidCidBase));
}

#[test]
fn from_str_refuses_v0_bytes_in_multibase() {
    let v0 = Cid::new_v0(Code::Sha2_256.digest(b"foo")).unwrap();
    let text = multibase::encode(multibase::Base::Base32Lower, v0.to_bytes());
    assert_eq!(Cid::from_str(&text), Err(Error::InvalidCidVersion));
}

#[test]
fn from_str_refuses_v0_text_of_other_bytes() {
    // 46 characters that start with Qm and are base58btc of 34 other bytes.
    let cid = Cid::new_v0(Code::Sha2_256.digest(b"foo")).unwrap();
    let mut bytes = cid.to_bytes();
    bytes[1] = 0x21;
    let text = multibase::Base::Base58Btc.encode(&bytes);
    if is_v0_str(&text) {
        assert_eq!(Cid::from_str(&text), Err(Error::InvalidCidV0Multihash));
    } else {
        assert!(Cid::from_str(&text).is_err());
    }
    assert_eq!(
        Cid::from_str("Qm0000000000000000000000000000000000000000000O"),
        Err(Error::InvalidCidBase)
    );
}

#[test]
fn v0_shape() {
    assert!(is_v0_str("QmdfTbBqBPQ7VNxZEYEj14VmRuZBkqFbiwReogJgS1zR1n"));
    assert!(!is_v0_str("QmdfTbBqBPQ7VNxZEYEj14VmRuZBkqFbiwReogJgS1zR1"));
    assert!(!is_v0_str("bafkreibme22gw2h7y2h7tg2fhqotaqjucnbc24deqo72b6mkl2egezxhvy"));
    assert!(!is_v0_str("Qm\u{e9}fTbBqBPQ7VNxZEYEj14VmRuZBkqFbiwReogJgS1zR1"));
}

#[test]
fn write_bytes_at_the_position() {
    let cid = Cid::new_v1(0x71, Code::Blake2b256.digest(b"x"));
    let mut w = ByteCursor::new(vec![0xee]);
    w.set_position(1);
    cid.write_bytes(&mut w).unwrap();
    let bytes = cid.to_bytes();
    assert_eq!(w.position(), 1 + bytes.len() as u64);
    let written = w.into_inner();
    assert_eq!(written[0], 0xee);
    assert_eq!(&written[1..], &bytes[..]);
}

#[test]
fn equality_is_by_binary_form() {
    let a = Cid::new_v1(0x71, Code::Sha2_256.digest(b"a"));
    let b = Cid::new_v1(0x71, Code::Sha2_256.digest(b"a"));
    let c = Cid::new_v1(0x70, Code::Sha2_256.digest(b"a"));
    let d = Cid::new_v0(Code::Sha2_256.digest(b"a")).unwrap();
    assert_eq!(a, b);
    assert_eq!(a.to_bytes(), b.to_bytes());
    assert_ne!(a, c);
    assert_ne!(c, d);
    assert!(a.same(&b));
    assert!(!c.same(&d));
}
