use proto2json::cursor::Cursor;
use proto2json::error::{Error, VarintError};
use proto2json::varint::{read_unsigned_varint, read_varint, write_unsigned_varint, write_varint};

fn assert_varint_serde(value: i32, expected: &[u8]) {
    let buf = write_varint(value).unwrap();
    println!("assert_varint_serde: {:?} {:?}", buf, expected);
    assert_eq!(buf, expected);
    let read_val: i32 = read_varint(&mut Cursor::new(&buf)).unwrap();
    println!("assert_varint_serde: {} {}", value, read_val);
    assert_eq!(value, read_val);
}

fn assert_unsigned_varint_serde(value: i32, expected: &[u8]) {
    let buf = write_unsigned_varint(value).unwrap();
    println!("assert_unsigned_varint_serde: {:?} {:?}", buf, expected);
    assert_eq!(buf, expected);
    let read_val: i32 = read_unsigned_varint(&mut Cursor::new(&buf)).unwrap();
    println!("assert_unsigned_varint_serde: {} {}", value, read_val);
    assert_eq!(value, read_val);
}

#[test]
fn test_invalid_varint() {
    let r = read_varint(&mut Cursor::new(&[0xFF, 0xFF, 0xFF, 0xFF, 0xFF, 0x01]));
    println!("test_invalid_varint: {:?}", r);
    assert!(r.is_err());
}

#[test]
fn test_unsigned_varint() {
    assert_unsigned_varint_serde(0, &[0x00]);
    assert_unsigned_varint_serde(-1, &[0xFF, 0xFF, 0xFF, 0xFF, 0x0F]);
    assert_unsigned_varint_serde(1, &[0x01]);
    assert_unsigned_varint_serde(63, &[0x3F]);
    assert_unsigned_varint_serde(-64, &[0xC0, 0xFF, 0xFF, 0xFF, 0x0F]);
    assert_unsigned_varint_serde(64, &[0x40]);
    assert_unsigned_varint_serde(8191, &[0xFF, 0x3F]);
    assert_unsigned_varint_serde(-8192, &[0x80, 0xC0, 0xFF, 0xFF, 0x0F]);
    assert_unsigned_varint_serde(8192, &[0x80, 0x40]);
    assert_unsigned_varint_serde(-8193, &[0xFF, 0xBF, 0xFF, 0xFF, 0x0F]);
    assert_unsigned_varint_serde(1048575, &[0xFF, 0xFF, 0x3F]);
    assert_unsigned_varint_serde(1048576, &[0x80, 0x80, 0x40]);
    assert_unsigned_varint_serde(i32::MAX, &[0xFF, 0xFF, 0xFF, 0xFF, 0x07]);
    assert_unsigned_varint_serde(i32::MIN, &[0x80, 0x80, 0x80, 0x80, 0x08]);
}

#[test]
fn test_varint() {
    assert_varint_serde(0, &[0x00]);
    assert_varint_serde(-1, &[0x01]);
    assert_varint_serde(1, &[0x02]);
    assert_varint_serde(63, &[0x7E]);
    assert_varint_serde(-64, &[0x7F]);
    assert_varint_serde(64, &[0x80, 0x01]);
    assert_varint_serde(-65, &[0x81, 0x01]);
    assert_varint_serde(8191, &[0xFE, 0x7F]);
    assert_varint_serde(-8192, &[0xFF, 0x7F]);
    assert_varint_serde(8192, &[0x80, 0x80, 0x01]);
    assert_varint_serde(-8193, &[0x81, 0x80, 0x01]);
    assert_varint_serde(1048575, &[0xFE, 0xFF, 0x7F]);
    assert_varint_serde(-1048576, &[0xFF, 0xFF, 0x7F]);
    assert_varint_serde(1048576, &[0x80, 0x80, 0x80, 0x01]);
    assert_varint_serde(-1048577, &[0x81, 0x80, 0x80, 0x01]);
    assert_varint_serde(134217727, &[0xFE, 0xFF, 0xFF, 0x7F]);
    assert_varint_serde(-134217728, &[0xFF, 0xFF, 0xFF, 0x7F]);
    assert_varint_serde(134217728, &[0x80, 0x80, 0x80, 0x80, 0x01]);
    assert_varint_serde(-134217729, &[0x81, 0x80, 0x80, 0x80, 0x01]);
    assert_varint_serde(i32::MAX, &[0xFE, 0xFF, 0xFF, 0xFF, 0x0F]);
    assert_varint_serde(i32::MIN, &[0xFF, 0xFF, 0xFF, 0xFF, 0x0F]);
}

#[test]
fn invalid_varint_reports_its_kind_and_stops_after_five_bytes() {
    let data = [0xFF, 0xFF, 0xFF, 0xFF, 0xFF, 0x01];
    let mut rdr = Cursor::new(&data);
    assert_eq!(
        read_varint(&mut rdr),
        Err(Error::Varint(VarintError::InvalidVarint))
    );
    assert_eq!(rdr.position(), 5);
    let mut rdr = Cursor::new(&data);
    assert_eq!(
        read_unsigned_varint(&mut rdr),
        Err(Error::Varint(VarintError::InvalidVarint))
    );
    let long = [0x80u8; 64];
    assert_eq!(
        read_varint(&mut Cursor::new(&long)),
        Err(Error::Varint(VarintError::InvalidVarint))
    );
}

#[test]
fn truncated_varint_is_unexpected_eof() {
    assert_eq!(read_varint(&mut Cursor::new(&[])), Err(Error::UnexpectedEof));
    assert_eq!(
        read_unsigned_varint(&mut Cursor::new(&[0x80, 0x80])),
        Err(Error::UnexpectedEof)
    );
    assert_eq!(
        read_varint(&mut Cursor::new(&[0xFF, 0xFF, 0xFF, 0xFF])),
        Err(Error::UnexpectedEof)
    );
}

#[test]
fn varint_round_trips_on_a_sweep_of_values() {
    let mut v: i64 = i32::MIN as i64;
    while v <= i32::MAX as i64 {
        let x = v as i32;
        let z = write_varint(x).unwrap();
        assert_eq!(read_varint(&mut Cursor::new(&z)), Ok(x));
        let u = write_unsigned_varint(x).unwrap();
        assert_eq!(read_unsigned_varint(&mut Cursor::new(&u)), Ok(x));
        v += 9_999_991;
    }
}

#[test]
fn reading_leaves_the_cursor_behind_the_varint() {
    let data = [0x80, 0x01, 0x7F, 0x00];
    let mut rdr = Cursor::new(&data);
    assert_eq!(read_varint(&mut rdr), Ok(64));
    assert_eq!(rdr.position(), 2);
    assert_eq!(read_varint(&mut rdr), Ok(-64));
    assert_eq!(rdr.position(), 3);
    assert_eq!(read_unsigned_varint(&mut rdr), Ok(0));
    assert_eq!(rdr.position(), 4);
    assert_eq!(read_unsigned_varint(&mut rdr), Err(Error::UnexpectedEof));
}
