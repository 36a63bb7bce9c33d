use bytecursor::ByteCursor;
use sp_ipld::codec::Error;
use sp_ipld::cid::varint_read_u64;
use sp_ipld::cursor::{fits, read_exact};
use sp_ipld::varint::{read_u64, read_u8, write_u64};

fn read(bytes: &[u8]) -> (Result<u64, Error>, u64) {
    let mut r = ByteCursor::new(bytes.to_vec());
    let res = read_u64(&mut r);
    (res, r.position())
}

#[test]
fn read_u64_single_byte() {
    assert_eq!(read(&[0x00]), (Ok(0), 1));
    assert_eq!(read(&[0x01]), (Ok(1), 1));
    assert_eq!(read(&[0x7f]), (Ok(127), 1));
}

#[test]
fn read_u64_several_bytes() {
    assert_eq!(read(&[0x80, 0x01]), (Ok(128), 2));
    assert_eq!(read(&[0xff, 0x01]), (Ok(255), 2));
    assert_eq!(read(&[0xac, 0x02]), (Ok(300), 2));
    assert_eq!(read(&[0x80, 0x80, 0x01]), (Ok(16384), 3));
}

#[test]
fn read_u64_stops_behind_the_varint() {
    assert_eq!(read(&[0xac, 0x02, 0xff, 0xff]), (Ok(300), 2));
}

#[test]
fn read_u64_largest() {
    let bytes = [0xff, 0xff, 0xff, 0xff, 0xff, 0xff, 0xff, 0xff, 0xff, 0x01];
    assert_eq!(read(&bytes), (Ok(u64::MAX), 10));
}

#[test]
fn read_u64_tenth_byte_too_large() {
    let bytes = [0xff, 0xff, 0xff, 0xff, 0xff, 0xff, 0xff, 0xff, 0xff, 0x02];
    assert_eq!(read(&bytes), (Err(Error::VarintOverflow), 10));
}

#[test]
fn read_u64_tenth_byte_goes_on() {
    let bytes = [0x80, 0x80, 0x80, 0x80, 0x80, 0x80, 0x80, 0x80, 0x80, 0x80, 0x01];
    assert_eq!(read(&bytes), (Err(Error::VarintOverflow), 10));
}

#[test]
fn read_u64_input_ends_early() {
    assert_eq!(read(&[]), (Err(Error::VarintOverflow), 0));
    assert_eq!(read(&[0x80]), (Err(Error::VarintOverflow), 1));
    assert_eq!(read(&[0xff, 0xff]), (Err(Error::VarintOverflow), 2));
}

#[test]
fn read_u64_not_minimal() {
    assert_eq!(read(&[0x80, 0x00]), (Err(Error::VarintOverflow), 2));
    assert_eq!(read(&[0x81, 0x80, 0x00]), (Err(Error::VarintOverflow), 3));
}

#[test]
fn read_u64_from_the_position() {
    let mut r = ByteCursor::new(vec![0xff, 0xac, 0x02, 0x05]);
    r.set_position(1);
    assert_eq!(read_u64(&mut r), Ok(300));
    assert_eq!(r.position(), 3);
    assert_eq!(read_u64(&mut r), Ok(5));
    assert_eq!(r.position(), 4);
    assert_eq!(read_u64(&mut r), Err(Error::VarintOverflow));
}

#[test]
fn read_u8_values() {
    let mut r = ByteCursor::new(vec![0x7f]);
    assert_eq!(read_u8(&mut r), Ok(127));
    let mut r = ByteCursor::new(vec![0xff, 0x01]);
    assert_eq!(read_u8(&mut r), Ok(255));
    assert_eq!(r.position(), 2);
}

#[test]
fn read_u8_overflow() {
    let mut r = ByteCursor::new(vec![0x80, 0x02]);
    assert_eq!(read_u8(&mut r), Err(Error::VarintOverflow));
    let mut r = ByteCursor::new(vec![0x80, 0x80, 0x01]);
    assert_eq!(read_u8(&mut r), Err(Error::VarintOverflow));
    assert_eq!(r.position(), 2);
    let mut r = ByteCursor::new(vec![0x80]);
    assert_eq!(read_u8(&mut r), Err(Error::VarintOverflow));
}

#[test]
fn write_u64_is_minimal() {
    assert_eq!(write_u64(0), vec![0x00]);
    assert_eq!(write_u64(1), vec![0x01]);
    assert_eq!(write_u64(127), vec![0x7f]);
    assert_eq!(write_u64(128), vec![0x80, 0x01]);
    assert_eq!(write_u64(300), vec![0xac, 0x02]);
    assert_eq!(write_u64(0xb220), vec![0xa0, 0xe4, 0x02]);
    assert_eq!(
        write_u64(u64::MAX),
        vec![0xff, 0xff, 0xff, 0xff, 0xff, 0xff, 0xff, 0xff, 0xff, 0x01]
    );
}

#[test]
fn varint_write_then_read() {
    for n in [0u64, 1, 127, 128, 255, 256, 16383, 16384, 1 << 32, (1 << 63) - 1, 1 << 63, u64::MAX] {
        let bytes = write_u64(n);
        let len = bytes.len() as u64;
        let mut r = ByteCursor::new(bytes);
        assert_eq!(read_u64(&mut r), Ok(n));
        assert_eq!(r.position(), len);
    }
}

#[test]
fn varint_read_u64_reads_a_varint() {
    let mut r = ByteCursor::new(vec![0xac, 0x02, 0x01]);
    assert_eq!(varint_read_u64(&mut r), Ok(300));
    assert_eq!(r.position(), 2);
    let mut r = ByteCursor::new(vec![0x80]);
    assert_eq!(varint_read_u64(&mut r), Err(Error::VarintOverflow));
}

#[test]
fn cursor_read_exact() {
    let mut r = ByteCursor::new(vec![1, 2, 3, 4]);
    r.set_position(1);
    assert_eq!(read_exact(&mut r, 2), Ok(vec![2, 3]));
    assert_eq!(r.position(), 3);
    assert_eq!(read_exact(&mut r, 2), Err(Error::UnexpectedEof));
    assert_eq!(r.position(), 3);
    assert_eq!(read_exact(&mut r, 0), Ok(vec![]));
    assert_eq!(read_exact(&mut r, 1), Ok(vec![4]));
    assert_eq!(read_exact(&mut r, 1), Err(Error::UnexpectedEof));
    r.set_position(100);
    assert_eq!(read_exact(&mut r, 0), Ok(vec![]));
    assert_eq!(read_exact(&mut r, 1), Err(Error::UnexpectedEof));
}

#[test]
fn cursor_fits() {
    let mut w = ByteCursor::new(Vec::new());
    assert!(fits(&w, 0));
    assert!(fits(&w, 1000));
    w.set_position(isize::MAX as u64);
    assert!(fits(&w, 0));
    assert!(!fits(&w, 1));
    w.set_position(u64::MAX);
    assert!(!fits(&w, 0));
}
