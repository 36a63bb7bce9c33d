use std::collections::BTreeMap;

use bytecursor::ByteCursor;
use quickcheck::{quickcheck, Arbitrary, Gen};
use sp_ipld::cid::Cid;
use sp_ipld::codec::{Decode, Encode};
use sp_ipld::dag_cbor::DagCborCodec;
use sp_ipld::dag_json::DagJsonCodec;
use sp_ipld::hasher::{Code, MultihashDigest};
use sp_ipld::ipld::Ipld;
use sp_ipld::multihash::Multihash;
use sp_ipld::varint::{read_u64, write_u64};

fn arbitrary_cid(g: &mut Gen) -> Cid {
    let mut bytes: [u8; 32] = [0; 32];
    for x in bytes.iter_mut() {
        *x = Arbitrary::arbitrary(g);
    }
    Cid::new_v1(0x55, Code::Blake2b256.digest(&bytes))
}

fn arbitrary_ipld(g: &mut Gen, depth: usize) -> Ipld {
    let kinds: &[u8] = if depth == 0 { &[0, 1, 2, 3, 4, 5] } else { &[0, 1, 2, 3, 4, 5, 6, 7] };
    match *g.choose(kinds).unwrap() {
        0 => Ipld::Null,
        1 => Ipld::Bool(Arbitrary::arbitrary(g)),
        2 => Ipld::Link(arbitrary_cid(g)),
        3 => Ipld::Integer(i64::arbitrary(g) as i128),
        4 => Ipld::String(Arbitrary::arbitrary(g)),
        5 => Ipld::Bytes(Arbitrary::arbitrary(g)),
        6 => {
            let size = *g.choose(&[0usize, 1, 2, 3, 4]).unwrap();
            Ipld::List((0..size).map(|_| arbitrary_ipld(g, depth - 1)).collect())
        }
        _ => {
            let size = *g.choose(&[0usize, 1, 2, 3, 4]).unwrap();
            let mut entries = Vec::new();
            for _ in 0..size {
                let mut key = String::arbitrary(g);
                if key == "/" {
                    key.push('x');
                }
                Ipld::map_insert(&mut entries, key, arbitrary_ipld(g, depth - 1));
            }
            Ipld::StringMap(entries)
        }
    }
}

#[derive(Clone, Debug)]
struct AnIpld(Ipld);

impl Arbitrary for AnIpld {
    fn arbitrary(g: &mut Gen) -> Self {
        AnIpld(arbitrary_ipld(g, 3))
    }
}

#[derive(Clone, Debug)]
struct ACid(Cid);

impl Arbitrary for ACid {
    fn arbitrary(g: &mut Gen) -> Self {
        ACid(arbitrary_cid(g))
    }
}

fn cbor_encode_decode_id(value: Ipld) -> bool {
    let mut bc = ByteCursor::new(Vec::new());
    match Encode::encode(&value, DagCborCodec, &mut bc) {
        Ok(()) => {
            bc.set_position(0);
            match <Ipld as Decode<DagCborCodec>>::decode(DagCborCodec, &mut bc) {
                Ok(new_value) => return value == new_value,
                Err(e) => println!("Error occurred during decoding: {:?}", e),
            }
        }
        Err(e) => println!("Error occurred during encoding: {:?}", e),
    }
    false
}

fn json_encode_decode_id(value: Ipld) -> bool {
    let mut bc = ByteCursor::new(Vec::new());
    match Encode::encode(&value, DagJsonCodec, &mut bc) {
        Ok(()) => {
            bc.set_position(0);
            match <Ipld as Decode<DagJsonCodec>>::decode(DagJsonCodec, &mut bc) {
                Ok(new_value) => return value == new_value,
                Err(e) => println!("Error occurred during decoding: {:?}", e),
            }
        }
        Err(e) => println!("Error occurred during encoding: {:?}", e),
    }
    false
}

fn sorted(x: BTreeMap<String, AnIpld>) -> Vec<(String, Ipld)> {
    x.into_iter().filter(|(k, _)| k != "/").map(|(k, v)| (k, v.0)).collect()
}

#[test]
fn cbor_edid_null() {
    assert!(cbor_encode_decode_id(Ipld::Null));
}

#[test]
fn cbor_edid_bool() {
    fn prop(x: bool) -> bool {
        cbor_encode_decode_id(Ipld::Bool(x))
    }
    quickcheck(prop as fn(bool) -> bool);
}

#[test]
fn cbor_edid_integer() {
    fn prop(x: i64) -> bool {
        cbor_encode_decode_id(Ipld::Integer(x as i128))
    }
    quickcheck(prop as fn(i64) -> bool);
}

#[test]
fn cbor_edid_wide_integer() {
    fn prop(x: u64, negative: bool) -> bool {
        let n = if negative { -1 - x as i128 } else { x as i128 };
        cbor_encode_decode_id(Ipld::Integer(n))
    }
    quickcheck(prop as fn(u64, bool) -> bool);
}

#[test]
fn cbor_edid_float() {
    fn prop(bits: u64) -> bool {
        cbor_encode_decode_id(Ipld::Float(bits))
    }
    quickcheck(prop as fn(u64) -> bool);
}

#[test]
fn cbor_edid_bytes() {
    fn prop(x: Vec<u8>) -> bool {
        cbor_encode_decode_id(Ipld::Bytes(x))
    }
    quickcheck(prop as fn(Vec<u8>) -> bool);
}

#[test]
fn cbor_edid_string() {
    fn prop(x: String) -> bool {
        cbor_encode_decode_id(Ipld::String(x))
    }
    quickcheck(prop as fn(String) -> bool);
}

#[test]
fn cbor_edid_list() {
    fn prop(x: Vec<AnIpld>) -> bool {
        cbor_encode_decode_id(Ipld::List(x.into_iter().map(|v| v.0).collect()))
    }
    quickcheck(prop as fn(Vec<AnIpld>) -> bool);
}

#[test]
fn cbor_edid_string_map() {
    fn prop(x: BTreeMap<String, AnIpld>) -> bool {
        cbor_encode_decode_id(Ipld::StringMap(sorted(x)))
    }
    quickcheck(prop as fn(BTreeMap<String, AnIpld>) -> bool);
}

#[test]
fn cbor_edid_link() {
    fn prop(x: ACid) -> bool {
        cbor_encode_decode_id(Ipld::Link(x.0))
    }
    quickcheck(prop as fn(ACid) -> bool);
}

#[test]
fn json_edid_null() {
    assert!(json_encode_decode_id(Ipld::Null));
}

#[test]
fn json_edid_bool() {
    fn prop(x: bool) -> bool {
        json_encode_decode_id(Ipld::Bool(x))
    }
    quickcheck(prop as fn(bool) -> bool);
}

#[test]
fn json_edid_integer() {
    fn prop(x: i64) -> bool {
        json_encode_decode_id(Ipld::Integer(x as i128))
    }
    quickcheck(prop as fn(i64) -> bool);
}

#[test]
fn json_edid_bytes() {
    fn prop(x: Vec<u8>) -> bool {
        json_encode_decode_id(Ipld::Bytes(x))
    }
    quickcheck(prop as fn(Vec<u8>) -> bool);
}

#[test]
fn json_edid_string() {
    fn prop(x: String) -> bool {
        json_encode_decode_id(Ipld::String(x))
    }
    quickcheck(prop as fn(String) -> bool);
}

#[test]
fn json_edid_list() {
    fn prop(x: Vec<AnIpld>) -> bool {
        json_encode_decode_id(Ipld::List(x.into_iter().map(|v| v.0).collect()))
    }
    quickcheck(prop as fn(Vec<AnIpld>) -> bool);
}

#[test]
fn json_edid_string_map() {
    fn prop(x: BTreeMap<String, AnIpld>) -> bool {
        json_encode_decode_id(Ipld::StringMap(sorted(x)))
    }
    quickcheck(prop as fn(BTreeMap<String, AnIpld>) -> bool);
}

#[test]
fn json_edid_link() {
    fn prop(x: ACid) -> bool {
        json_encode_decode_id(Ipld::Link(x.0))
    }
    quickcheck(prop as fn(ACid) -> bool);
}

#[test]
fn decoded_cbor_encodes_to_its_input() {
    fn prop(bytes: Vec<u8>) -> bool {
        match sp_ipld::dag_cbor::decode::decode(&bytes) {
            Ok(value) => {
                value.is_valid() && sp_ipld::dag_cbor::encode::encode(&value) == Ok(bytes)
            }
            Err(_) => true,
        }
    }
    quickcheck(prop as fn(Vec<u8>) -> bool);
}

#[test]
fn arbitrary_values_are_valid() {
    fn prop(x: AnIpld) -> bool {
        x.0.is_valid() && x.0.clone() == x.0
    }
    quickcheck(prop as fn(AnIpld) -> bool);
}

#[test]
fn references_are_the_links_of_iter() {
    fn prop(x: AnIpld) -> bool {
        let mut set = Vec::new();
        x.0.references(&mut set);
        let mut by_iter = Vec::new();
        let mut it = x.0.iter();
        while let Some(v) = it.next() {
            if let Ipld::Link(c) = v {
                by_iter.push(*c);
            }
        }
        set == by_iter
    }
    quickcheck(prop as fn(AnIpld) -> bool);
}

#[test]
fn varint_roundtrip() {
    fn prop(n: u64, rest: Vec<u8>) -> bool {
        let mut bytes = write_u64(n);
        let len = bytes.len() as u64;
        bytes.extend_from_slice(&rest);
        let mut r = ByteCursor::new(bytes);
        read_u64(&mut r) == Ok(n) && r.position() == len
    }
    quickcheck(prop as fn(u64, Vec<u8>) -> bool);
}

#[test]
fn multihash_roundtrip() {
    fn prop(code: u64, digest: Vec<u8>) -> bool {
        let digest = &digest[..digest.len().min(64)];
        let hash = Multihash::<64>::wrap(code, digest).unwrap();
        Multihash::<64>::from_bytes(&hash.to_bytes()) == Ok(hash)
            && hash.code() == code
            && hash.digest() == digest
    }
    quickcheck(prop as fn(u64, Vec<u8>) -> bool);
}

#[test]
fn cid_roundtrip() {
    fn prop(codec: u64, block: Vec<u8>) -> bool {
        let cid = Cid::new_v1(codec, Code::Sha2_256.digest(&block));
        Cid::from_bytes(&cid.to_bytes()) == Ok(cid) && Cid::from_str(&cid.to_string()) == Ok(cid)
    }
    quickcheck(prop as fn(u64, Vec<u8>) -> bool);
}

#[test]
fn cid_v0_text_roundtrip() {
    fn prop(block: Vec<u8>) -> bool {
        let cid = Cid::new_v0(Code::Sha2_256.digest(&block)).unwrap();
        let text = cid.to_string();
        text.len() == 46 && text.starts_with("Qm") && Cid::from_str(&text) == Ok(cid)
    }
    quickcheck(prop as fn(Vec<u8>) -> bool);
}
