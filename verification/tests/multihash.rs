use bytecursor::ByteCursor;
use sp_ipld::codec::Error;
use sp_ipld::hasher::{Code, MultihashDigest};
use sp_ipld::multihash::{read_multihash, write_multihash, Multihash};

fn hex(s: &str) -> Vec<u8> {
    (0..s.len() / 2).map(|i| u8::from_str_radix(&s[2 * i..2 * i + 2], 16).unwrap()).collect()
}

#[test]
fn roundtrip() {
    let hash = Code::Sha2_256.digest(b"hello world");
    let mut buf = ByteCursor::new([0u8; 35].to_vec());
    hash.write(&mut buf).unwrap();
    buf.set_position(0);
    let hash2 = Multihash::read(&mut buf).unwrap();
    assert_eq!(hash, hash2);
}

#[test]
fn write_rewinds_the_cursor() {
    let hash = Code::Sha2_256.digest(b"hello world");
    let mut buf = ByteCursor::new([0u8; 35].to_vec());
    hash.write(&mut buf).unwrap();
    assert_eq!(buf.position(), 0);
    let bytes = buf.into_inner();
    assert_eq!(bytes.len(), 35);
    assert_eq!(&bytes[..34], &hash.to_bytes()[..]);
    assert_eq!(bytes[34], 0);
}

#[test]
fn write_at_a_position() {
    let hash = Multihash::<64>::wrap(0x12, &[7u8; 4]).unwrap();
    let mut buf = ByteCursor::new(vec![0xaa, 0xbb]);
    buf.set_position(1);
    hash.write(&mut buf).unwrap();
    assert_eq!(buf.position(), 0);
    assert_eq!(buf.into_inner(), vec![0xaa, 0x12, 0x04, 7, 7, 7, 7]);
}

#[test]
fn sha2_256_digest() {
    let hash = Code::Sha2_256.digest(b"hello world");
    assert_eq!(hash.code(), 0x12);
    assert_eq!(hash.size(), 32);
    assert_eq!(
        hash.digest(),
        &hex("b94d27b9934d3e08a52e52d7da7dabfac484efe37a5380ee9088f7ace2efcde9")[..]
    );
}

#[test]
fn digests_of_the_empty_input() {
    let sha2 = Code::Sha2_256.digest(b"");
    assert_eq!(
        sha2.digest(),
        &hex("e3b0c44298fc1c149afbf4c8996fb92427ae41e4649b934ca495991b7852b855")[..]
    );
    let sha3 = Code::Sha3_256.digest(b"");
    assert_eq!(sha3.code(), 0x16);
    assert_eq!(
        sha3.digest(),
        &hex("a7ffc6f8bf1ed76651c14756a061d662f580ff4de43b49fa82d80a4b80f8434a")[..]
    );
    let blake2b = Code::Blake2b256.digest(b"");
    assert_eq!(blake2b.code(), 0xb220);
    assert_eq!(
        blake2b.digest(),
        &hex("0e5751c026e543b2e8ab2eb06099daa1d1e5df47778f7787faab45cdf12fe3a8")[..]
    );
    let blake3 = Code::Blake3_256.digest(b"");
    assert_eq!(blake3.code(), 0x1e);
    assert_eq!(
        blake3.digest(),
        &hex("af1349b9f5f9a1a6a0404dea36dcc9499bcb25c9adc112b7cc9a93cae41f3262")[..]
    );
}

#[test]
fn wide_digests() {
    let sha2 = Code::Sha2_512.digest(b"");
    assert_eq!(sha2.code(), 0x13);
    assert_eq!(sha2.size(), 64);
    assert_eq!(
        sha2.digest(),
        &hex(
            "cf83e1357eefb8bdf1542850d66d8007d620e4050b5715dc83f4a921d36ce9ce\
             47d0d13c5d85f2b0ff8318d2877eec2f63b931bd47417a81a538327af927da3e"
        )[..]
    );
    let sha3 = Code::Sha3_512.digest(b"");
    assert_eq!(sha3.code(), 0x14);
    assert_eq!(sha3.size(), 64);
    assert_eq!(
        sha3.digest(),
        &hex(
            "a69f73cca23a9ac5c8b567dc185a756e97c982164fe25859e0d1dcc1475c80a6\
             15b2123af1f5f94c11e3e9402c3ac558f500199d95b6d3e301758586281dcd26"
        )[..]
    );
    let blake2b = Code::Blake2b512.digest(b"");
    assert_eq!(blake2b.code(), 0xb240);
    assert_eq!(blake2b.size(), 64);
    assert_eq!(
        blake2b.digest(),
        &hex(
            "786a02f742015903c6c6fd852552d272912f4740e15847618a86e217f71f5419\
             d25e1031afee585313896444934eb04b903a685b1448b755d56f701afe9be2ce"
        )[..]
    );
}

#[test]
fn identity_digest() {
    let hash = Code::Identity.digest(b"abc");
    assert_eq!(hash.code(), 0);
    assert_eq!(hash.size(), 3);
    assert_eq!(hash.digest(), b"abc");
    assert_eq!(hash.to_bytes(), vec![0x00, 0x03, b'a', b'b', b'c']);
}

#[test]
fn code_table() {
    for code in [
        Code::Identity,
        Code::Sha2_256,
        Code::Sha2_512,
        Code::Sha3_512,
        Code::Sha3_256,
        Code::Blake3_256,
        Code::Blake2b256,
        Code::Blake2b512,
    ] {
        assert_eq!(Code::from_u64(code.to_u64()), Ok(code));
    }
    assert_eq!(Code::Sha2_256.to_u64(), 0x12);
    assert_eq!(Code::Blake2b256.to_u64(), 0xb220);
    assert_eq!(Code::from_u64(0x11), Err(Error::UnknownMultihashCode));
}

#[test]
fn wrap_keeps_code_and_digest() {
    let hash = Multihash::<32>::wrap(0x16, &[1, 2, 3]).unwrap();
    assert_eq!(hash.code(), 0x16);
    assert_eq!(hash.size(), 3);
    assert_eq!(hash.digest(), &[1, 2, 3]);
}

#[test]
fn wrap_refuses_a_digest_wider_than_the_buffer() {
    assert_eq!(Multihash::<32>::wrap(0x12, &[0u8; 33]), Err(Error::InvalidSize(33)));
    assert!(Multihash::<32>::wrap(0x12, &[0u8; 32]).is_ok());
    assert!(Multihash::<64>::wrap(0x12, &[0u8; 64]).is_ok());
    assert_eq!(Multihash::<64>::wrap(0x12, &[0u8; 65]), Err(Error::InvalidSize(65)));
}

#[test]
fn to_bytes_is_code_size_digest() {
    let hash = Multihash::<64>::wrap(0xb220, &[9, 8, 7]).unwrap();
    assert_eq!(hash.to_bytes(), vec![0xa0, 0xe4, 0x02, 0x03, 9, 8, 7]);
}

#[test]
fn from_bytes_takes_the_exact_length() {
    let hash = Code::Sha2_256.digest(b"hello world");
    let bytes = hash.to_bytes();
    assert_eq!(bytes.len(), 34);
    assert_eq!(Multihash::<64>::from_bytes(&bytes), Ok(hash));
}

#[test]
fn from_bytes_refuses_trailing_bytes() {
    let hash = Code::Sha2_256.digest(b"hello world");
    let mut bytes = hash.to_bytes();
    bytes.push(0);
    assert_eq!(Multihash::<64>::from_bytes(&bytes), Err(Error::InvalidSize(35)));
}

#[test]
fn from_bytes_refuses_a_short_digest() {
    let hash = Code::Sha2_256.digest(b"hello world");
    let bytes = hash.to_bytes();
    assert_eq!(Multihash::<64>::from_bytes(&bytes[..33]), Err(Error::VarintOverflow));
    assert_eq!(Multihash::<64>::from_bytes(&[]), Err(Error::VarintOverflow));
    assert_eq!(Multihash::<64>::from_bytes(&[0x12]), Err(Error::VarintOverflow));
}

#[test]
fn read_refuses_a_size_above_the_width() {
    let mut bytes = vec![0x12, 0x21];
    bytes.extend_from_slice(&[0u8; 33]);
    let mut r = ByteCursor::new(bytes.clone());
    assert_eq!(Multihash::<32>::read(&mut r), Err(Error::InvalidSize(33)));
    let mut r = ByteCursor::new(bytes);
    assert!(Multihash::<64>::read(&mut r).is_ok());
    assert_eq!(r.position(), 35);
}

#[test]
fn read_refuses_a_size_above_255() {
    let mut bytes = vec![0x12, 0x80, 0x02];
    bytes.extend_from_slice(&[0u8; 256]);
    let mut r = ByteCursor::new(bytes);
    assert_eq!(read_multihash::<300>(&mut r).map(|x| x.1), Err(Error::InvalidSize(256)));
}

#[test]
fn read_multihash_parts() {
    let mut r = ByteCursor::new(vec![0x12, 0x02, 0xaa, 0xbb, 0xcc]);
    let (code, size, digest) = read_multihash::<4>(&mut r).unwrap();
    assert_eq!((code, size, digest), (0x12, 2, [0xaa, 0xbb, 0, 0]));
    assert_eq!(r.position(), 4);
}

#[test]
fn write_multihash_parts() {
    let mut w = ByteCursor::new(Vec::new());
    write_multihash(&mut w, 0x12, 2, &[0xaa, 0xbb]).unwrap();
    assert_eq!(w.position(), 0);
    assert_eq!(w.into_inner(), vec![0x12, 0x02, 0xaa, 0xbb]);
}

#[test]
fn equality_is_by_code_and_digest() {
    let a = Multihash::<64>::wrap(0x12, &[1, 2, 3]).unwrap();
    let b = Multihash::<64>::wrap(0x12, &[1, 2, 3]).unwrap();
    let c = Multihash::<64>::wrap(0x13, &[1, 2, 3]).unwrap();
    let d = Multihash::<64>::wrap(0x12, &[1, 2, 4]).unwrap();
    let e = Multihash::<64>::wrap(0x12, &[1, 2]).unwrap();
    assert_eq!(a, b);
    assert_ne!(a, c);
    assert_ne!(a, d);
    assert_ne!(a, e);
    assert!(a.same(&b));
    assert!(!a.same(&e));
}

#[test]
fn default_is_empty() {
    let hash = Multihash::<32>::default();
    assert_eq!(hash.code(), 0);
    assert_eq!(hash.size(), 0);
    assert_eq!(hash.to_bytes(), vec![0, 0]);
    assert_eq!(Multihash::<32>::from_bytes(&[0, 0]), Ok(hash));
}
