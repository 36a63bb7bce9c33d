use bytecursor::ByteCursor;
use sp_ipld::cid::Cid;
use sp_ipld::codec::{Codec, Decode, Encode, Error, References};
use sp_ipld::dag_json::codec::{decode, encode, MAX_BYTES_LEN};
use sp_ipld::dag_json::{cid, from_dag_json_string, to_dag_json_string, DagJsonCodec};
use sp_ipld::hasher::{Code, MultihashDigest};
use sp_ipld::ipld::Ipld;

fn text(s: &str) -> Ipld {
    Ipld::String(s.to_string())
}

fn map(entries: Vec<(&str, Ipld)>) -> Ipld {
    Ipld::StringMap(entries.into_iter().map(|(k, v)| (k.to_string(), v)).collect())
}

fn a_cid() -> Cid {
    Cid::new_v1(0x71, Code::Blake2b256.digest(b"a block"))
}

fn write(v: Ipld) -> Result<String, Error> {
    to_dag_json_string(v)
}

fn read(s: &str) -> Result<Ipld, Error> {
    from_dag_json_string(s.to_string())
}

fn samples() -> Vec<Ipld> {
    vec![
        Ipld::Null,
        Ipld::Bool(false),
        Ipld::Bool(true),
        Ipld::Integer(0),
        Ipld::Integer(1),
        Ipld::Integer(-1),
        Ipld::Integer(1 << 53),
        Ipld::Integer(-(1 << 53)),
        Ipld::Integer(i64::MAX as i128),
        Ipld::Integer(i64::MIN as i128),
        Ipld::Float(1.5f64.to_bits()),
        Ipld::Float((-0.25f64).to_bits()),
        Ipld::Float(1e100f64.to_bits()),
        text(""),
        text("a \"quoted\" \\ string\n\twith \u{1} control and \u{e9}\u{1f600}"),
        text("/"),
        Ipld::Bytes(vec![]),
        Ipld::Bytes(vec![0, 1, 2, 253, 254, 255]),
        Ipld::List(vec![]),
        Ipld::List(vec![Ipld::Integer(1), text("two"), Ipld::Null, Ipld::List(vec![])]),
        map(vec![]),
        map(vec![("a", Ipld::Integer(2)), ("b", Ipld::Integer(1))]),
        map(vec![("/", Ipld::Integer(1))]),
        map(vec![("/", Ipld::Null), ("bytes", text("x"))]),
        map(vec![("/", Ipld::Link(a_cid()))]),
        map(vec![("/", Ipld::Bytes(vec![1]))]),
        map(vec![("/", map(vec![("bytes", Ipld::Null), ("c", Ipld::Null)]))]),
        map(vec![("bytes", text("AQID"))]),
        Ipld::Link(a_cid()),
        Ipld::Link(Cid::new_v0(Code::Sha2_256.digest(b"old")).unwrap()),
        Ipld::List(vec![Ipld::Link(a_cid()), Ipld::Bytes(vec![9; 40])]),
    ]
}

#[test]
fn json_scalars() {
    assert_eq!(write(Ipld::Null), Ok("null".to_string()));
    assert_eq!(write(Ipld::Bool(true)), Ok("true".to_string()));
    assert_eq!(write(Ipld::Bool(false)), Ok("false".to_string()));
    assert_eq!(write(Ipld::Integer(0)), Ok("0".to_string()));
    assert_eq!(write(Ipld::Integer(-17)), Ok("-17".to_string()));
    assert_eq!(write(Ipld::Integer(i64::MAX as i128)), Ok("9223372036854775807".to_string()));
    assert_eq!(write(Ipld::Integer(i64::MIN as i128)), Ok("-9223372036854775808".to_string()));
    assert_eq!(write(text("a\"b")), Ok("\"a\\\"b\"".to_string()));
}

#[test]
fn json_float_has_a_fraction_or_an_exponent() {
    assert_eq!(write(Ipld::Float(1.5f64.to_bits())), Ok("1.5".to_string()));
    assert_eq!(write(Ipld::Float(1f64.to_bits())), Ok("1.0".to_string()));
    assert_eq!(write(Ipld::Float((-0.25f64).to_bits())), Ok("-0.25".to_string()));
    assert_eq!(write(Ipld::Float(1e100f64.to_bits())), Ok("1e+100".to_string()));
    assert_eq!(read("1.5"), Ok(Ipld::Float(1.5f64.to_bits())));
    assert_eq!(read("1.0"), Ok(Ipld::Float(1f64.to_bits())));
    assert_eq!(read("1e2"), Ok(Ipld::Float(100f64.to_bits())));
    assert_eq!(read("1"), Ok(Ipld::Integer(1)));
}

#[test]
fn json_float_must_be_a_number() {
    assert_eq!(write(Ipld::Float(f64::NAN.to_bits())), Err(Error::NumberOutOfRange));
    assert_eq!(write(Ipld::Float(f64::INFINITY.to_bits())), Err(Error::NumberOutOfRange));
    assert_eq!(write(Ipld::Float(f64::NEG_INFINITY.to_bits())), Err(Error::NumberOutOfRange));
    assert_eq!(write(Ipld::Float(f64::MAX.to_bits())).map(|s| s.is_empty()), Ok(false));
}

#[test]
fn json_integer_must_be_an_i64() {
    assert_eq!(write(Ipld::Integer(i64::MAX as i128 + 1)), Err(Error::NumberOutOfRange));
    assert_eq!(write(Ipld::Integer(i64::MIN as i128 - 1)), Err(Error::NumberOutOfRange));
    assert_eq!(
        write(Ipld::List(vec![Ipld::Integer(u64::MAX as i128)])),
        Err(Error::NumberOutOfRange)
    );
    assert_eq!(read("9223372036854775808"), Err(Error::NumberOutOfRange));
    assert_eq!(read("18446744073709551615"), Err(Error::NumberOutOfRange));
    assert_eq!(read("9223372036854775807"), Ok(Ipld::Integer(i64::MAX as i128)));
    assert_eq!(read("-9223372036854775808"), Ok(Ipld::Integer(i64::MIN as i128)));
}

#[test]
fn json_bytes_escape() {
    assert_eq!(write(Ipld::Bytes(vec![1, 2, 3])), Ok("{\"/\":{\"bytes\":\"AQID\"}}".to_string()));
    assert_eq!(write(Ipld::Bytes(vec![1, 2])), Ok("{\"/\":{\"bytes\":\"AQI\"}}".to_string()));
    assert_eq!(write(Ipld::Bytes(vec![])), Ok("{\"/\":{\"bytes\":\"\"}}".to_string()));
    assert_eq!(read("{\"/\":{\"bytes\":\"AQID\"}}"), Ok(Ipld::Bytes(vec![1, 2, 3])));
    assert_eq!(read("{\"/\":{\"bytes\":\"AQI\"}}"), Ok(Ipld::Bytes(vec![1, 2])));
    assert_eq!(read(" { \"/\" : { \"bytes\" : \"\" } } "), Ok(Ipld::Bytes(vec![])));
}

#[test]
fn json_bytes_escape_errors() {
    assert_eq!(read("{\"/\":{\"bytes\":\"A\"}}"), Err(Error::InvalidBase64));
    assert_eq!(read("{\"/\":{\"bytes\":\"AQ-_\"}}"), Err(Error::InvalidBase64));
    assert_eq!(read("{\"/\":{\"bytes\":\"!!\"}}"), Err(Error::InvalidBase64));
    assert_eq!(read("{\"/\":{\"bytes\":1}}"), Err(Error::InvalidBytesEscape));
    assert_eq!(read("{\"/\":{\"bytes\":null}}"), Err(Error::InvalidBytesEscape));
    assert_eq!(read("{\"/\":{\"bytes\":{\"bytes\":\"AQID\"}}}"), Err(Error::InvalidBytesEscape));
}

#[test]
fn json_link_escape() {
    let c = a_cid();
    let expected = format!("{{\"/\":\"{}\"}}", c.to_string());
    assert!(c.to_string().starts_with('b'));
    assert_eq!(write(Ipld::Link(c)), Ok(expected.clone()));
    assert_eq!(read(&expected), Ok(Ipld::Link(c)));
}

#[test]
fn json_link_escape_of_a_v0_cid() {
    let c = Cid::new_v0(Code::Sha2_256.digest(b"old")).unwrap();
    let expected = format!("{{\"/\":\"{}\"}}", c.to_string());
    assert!(c.to_string().starts_with("Qm"));
    assert_eq!(write(Ipld::Link(c)), Ok(expected.clone()));
    assert_eq!(read(&expected), Ok(Ipld::Link(c)));
}

#[test]
fn json_link_escape_errors() {
    assert_eq!(read("{\"/\":\"not a cid\"}"), Err(Error::InvalidLinkEscape));
    assert_eq!(read("{\"/\":\"\"}"), Err(Error::InvalidLinkEscape));
    assert_eq!(read("{\"/\":\"bafkqaaa\"}"), Err(Error::InvalidLinkEscape));
}

#[test]
fn json_objects_with_a_slash_that_are_no_escape() {
    assert_eq!(read("{\"/\":1}"), Ok(map(vec![("/", Ipld::Integer(1))])));
    assert_eq!(read("{\"/\":null,\"a\":1}"), Ok(map(vec![("/", Ipld::Null), ("a", Ipld::Integer(1))])));
    assert_eq!(
        read("{\"/\":{\"bytes\":\"AQID\",\"c\":1}}"),
        Ok(map(vec![("/", map(vec![("bytes", text("AQID")), ("c", Ipld::Integer(1))]))]))
    );
    assert_eq!(read("{\"/\":{\"b\":\"AQID\"}}"), Ok(map(vec![("/", map(vec![("b", text("AQID"))]))])));
    assert_eq!(read("{\"bytes\":\"AQID\"}"), Ok(map(vec![("bytes", text("AQID"))])));
}

#[test]
fn json_containers() {
    assert_eq!(
        write(Ipld::List(vec![Ipld::Integer(1), text("a"), Ipld::Null])),
        Ok("[1,\"a\",null]".to_string())
    );
    assert_eq!(
        write(map(vec![("a", Ipld::Integer(2)), ("b", Ipld::List(vec![]))])),
        Ok("{\"a\":2,\"b\":[]}".to_string())
    );
    assert_eq!(
        read("{\"b\": [], \"a\": 2}"),
        Ok(map(vec![("a", Ipld::Integer(2)), ("b", Ipld::List(vec![]))]))
    );
    assert_eq!(read("[[], {}]"), Ok(Ipld::List(vec![Ipld::List(vec![]), map(vec![])])));
}

#[test]
fn json_keys_out_of_order_are_not_written() {
    assert_eq!(
        write(map(vec![("b", Ipld::Integer(1)), ("a", Ipld::Integer(2))])),
        Err(Error::NonCanonical)
    );
    assert_eq!(
        write(Ipld::List(vec![map(vec![("a", Ipld::Null), ("a", Ipld::Null)])])),
        Err(Error::NonCanonical)
    );
}

#[test]
fn json_that_is_no_json() {
    assert_eq!(read(""), Err(Error::InvalidJson));
    assert_eq!(read("{"), Err(Error::InvalidJson));
    assert_eq!(read("[1,]"), Err(Error::InvalidJson));
    assert_eq!(read("nul"), Err(Error::InvalidJson));
    assert_eq!(read("1 2"), Err(Error::InvalidJson));
    assert_eq!(read("{\"a\":1} x"), Err(Error::InvalidJson));
}

#[test]
fn json_roundtrip() {
    for v in samples() {
        let s = write(v.clone()).unwrap();
        assert_eq!(read(&s), Ok(v));
    }
}

#[test]
fn json_escape_shaped_maps_do_not_read_back() {
    let c = a_cid();
    let as_link = map(vec![("/", text(&c.to_string()))]);
    assert_eq!(read(&write(as_link).unwrap()), Ok(Ipld::Link(c)));
    let as_bytes = map(vec![("/", map(vec![("bytes", text("AQID"))]))]);
    assert_eq!(read(&write(as_bytes).unwrap()), Ok(Ipld::Bytes(vec![1, 2, 3])));
    let no_cid = map(vec![("/", text("x"))]);
    assert_eq!(read(&write(no_cid).unwrap()), Err(Error::InvalidLinkEscape));
}

#[test]
fn json_decoded_values_are_valid() {
    let v = read("{\"z\":1,\"a\":{\"y\":[{\"c\":1,\"b\":2}],\"x\":2}}").unwrap();
    assert!(v.is_valid());
    assert_eq!(write(v), Ok("{\"a\":{\"x\":2,\"y\":[{\"b\":2,\"c\":1}]},\"z\":1}".to_string()));
}

#[test]
fn json_encode_writes_at_the_position() {
    let mut w = ByteCursor::new(b"xx".to_vec());
    w.set_position(1);
    assert_eq!(encode(&Ipld::List(vec![Ipld::Null]), &mut w), Ok(()));
    assert_eq!(w.position(), 7);
    assert_eq!(w.into_inner(), b"x[null]".to_vec());
}

#[test]
fn json_encode_failure_writes_nothing() {
    let mut w = ByteCursor::new(b"xx".to_vec());
    w.set_position(1);
    assert_eq!(encode(&Ipld::Integer(1 << 70), &mut w), Err(Error::NumberOutOfRange));
    assert_eq!(w.position(), 1);
    assert_eq!(w.into_inner(), b"xx".to_vec());
}

#[test]
fn json_decode_reads_from_the_position_to_the_end() {
    let mut r = ByteCursor::new(b"x[1, 2] ".to_vec());
    r.set_position(1);
    assert_eq!(decode(&mut r), Ok(Ipld::List(vec![Ipld::Integer(1), Ipld::Integer(2)])));
    assert_eq!(r.position(), 8);
    let mut r = ByteCursor::new(b"x[1, 2] ".to_vec());
    assert_eq!(decode(&mut r), Err(Error::InvalidJson));
    assert_eq!(r.position(), 0);
}

#[test]
fn json_codec_code() {
    let code: u64 = DagJsonCodec.into();
    assert_eq!(code, 0x0129);
    assert_eq!(DagJsonCodec::try_from(0x0129), Ok(DagJsonCodec));
    assert_eq!(DagJsonCodec::try_from(0x71).map_err(|e| e.0), Err(0x71));
}

#[test]
fn json_codec_roundtrip() {
    for v in samples() {
        let mut cursor = DagJsonCodec.encode(&v).unwrap();
        cursor.set_position(0);
        let back: Ipld = DagJsonCodec.decode(cursor).unwrap();
        assert_eq!(back, v);
    }
}

#[test]
fn json_trait_surface() {
    let a = a_cid();
    let value = Ipld::List(vec![Ipld::Link(a), map(vec![("k", Ipld::Link(a))])]);
    let mut w = ByteCursor::new(Vec::new());
    Encode::encode(&value, DagJsonCodec, &mut w).unwrap();
    let bytes = w.into_inner();
    assert_eq!(String::from_utf8(bytes.clone()).ok(), to_dag_json_string(value.clone()).ok());
    let mut r = ByteCursor::new(bytes.clone());
    assert_eq!(<Ipld as Decode<DagJsonCodec>>::decode(DagJsonCodec, &mut r), Ok(value));
    assert_eq!(r.position(), bytes.len() as u64);
    let mut set = Vec::new();
    let mut r = ByteCursor::new(bytes);
    <Ipld as References<DagJsonCodec>>::references(DagJsonCodec, &mut r, &mut set).unwrap();
    assert_eq!(set, vec![a, a]);
    let mut r = ByteCursor::new(b"[".to_vec());
    assert_eq!(
        <Ipld as References<DagJsonCodec>>::references(DagJsonCodec, &mut r, &mut set),
        Err(Error::InvalidJson)
    );
    assert_eq!(set, vec![a, a]);
}

#[test]
fn json_cid_is_blake2b_of_the_text() {
    let value = map(vec![("a", Ipld::List(vec![Ipld::Integer(1)]))]);
    let c = cid(&value);
    assert_eq!(c.codec(), 0x0129);
    assert_eq!(*c.hash(), Code::Blake2b256.digest(b"{\"a\":[1]}"));
    assert_ne!(c, sp_ipld::dag_cbor::cid(&value));
}

#[test]
fn json_bytes_cap() {
    assert_eq!(MAX_BYTES_LEN, 0x3fff_fff0);
}
