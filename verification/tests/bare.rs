use chewing::bare::{BareDecoder, BareEncoder, BareError};

#[test]
fn decode_uint() -> Result<(), BareError> {
    let buf = [
        0x00, // 0
        0x01, // 1
        0x7e, // 126
        0x7f, // 127
        0x80, 0x01, // 128
        0x81, 0x01, // 129
        0xff, 0x01, // 255,
    ];
    let mut d = BareDecoder::new(&buf[..]);
    assert_eq!(0, d.read_uint()?);
    assert_eq!(1, d.read_uint()?);
    assert_eq!(126, d.read_uint()?);
    assert_eq!(127, d.read_uint()?);
    assert_eq!(128, d.read_uint()?);
    assert_eq!(129, d.read_uint()?);
    assert_eq!(255, d.read_uint()?);
    Ok(())
}

#[test]
fn encode_uint() -> Result<(), BareError> {
    let buf = [
        0x00, // 0
        0x01, // 1
        0x7e, // 126
        0x7f, // 127
        0x80, 0x01, // 128
        0x81, 0x01, // 129
        0xff, 0x01, // 255,
    ];
    let mut e = BareEncoder::new(vec![]);
    e.write_uint(0);
    e.write_uint(1);
    e.write_uint(126);
    e.write_uint(127);
    e.write_uint(128);
    e.write_uint(129);
    e.write_uint(255);
    let ob = e.into_inner();
    assert_eq!(&buf, ob.as_slice());
    Ok(())
}

#[test]
fn decode_u8() -> Result<(), BareError> {
    let buf = [
        0x00, // 0
        0x01, // 1
        0xff, // 255,
    ];
    let mut d = BareDecoder::new(&buf[..]);
    assert_eq!(0, d.read_u8()?);
    assert_eq!(1, d.read_u8()?);
    assert_eq!(255, d.read_u8()?);
    Ok(())
}

#[test]
fn encode_u8() -> Result<(), BareError> {
    let buf = [
        0x00, // 0
        0x01, // 1
        0xff, // 255,
    ];
    let mut e = BareEncoder::new(vec![]);
    e.write_u8(0);
    e.write_u8(1);
    e.write_u8(255);
    let ob = e.into_inner();
    assert_eq!(&buf, ob.as_slice());
    Ok(())
}

#[test]
fn decode_u16() -> Result<(), BareError> {
    let buf = [
        0x00, 0x00, // 0
        0x01, 0x00, // 1
        0xff, 0x00, // 255,
    ];
    let mut d = BareDecoder::new(&buf[..]);
    assert_eq!(0, d.read_u16()?);
    assert_eq!(1, d.read_u16()?);
    assert_eq!(255, d.read_u16()?);
    Ok(())
}

#[test]
fn encode_u16() -> Result<(), BareError> {
    let buf = [
        0x00, 0x00, // 0
        0x01, 0x00, // 1
        0xff, 0x00, // 255,
    ];
    let mut e = BareEncoder::new(vec![]);
    e.write_u16(0);
    e.write_u16(1);
    e.write_u16(255);
    let ob = e.into_inner();
    assert_eq!(&buf, ob.as_slice());
    Ok(())
}

#[test]
fn decode_u32() -> Result<(), BareError> {
    let buf = [
        0x00, 0x00, 0x00, 0x00, // 0
        0x01, 0x00, 0x00, 0x00, // 1
        0xff, 0x00, 0x00, 0x00, // 255,
    ];
    let mut d = BareDecoder::new(&buf[..]);
    assert_eq!(0, d.read_u32()?);
    assert_eq!(1, d.read_u32()?);
    assert_eq!(255, d.read_u32()?);
    Ok(())
}

#[test]
fn encode_u32() -> Result<(), BareError> {
    let buf = [
        0x00, 0x00, 0x00, 0x00, // 0
        0x01, 0x00, 0x00, 0x00, // 1
        0xff, 0x00, 0x00, 0x00, // 255,
    ];
    let mut e = BareEncoder::new(vec![]);
    e.write_u32(0);
    e.write_u32(1);
    e.write_u32(255);
    let ob = e.into_inner();
    assert_eq!(&buf, ob.as_slice());
    Ok(())
}

#[test]
fn decode_u64() -> Result<(), BareError> {
    let buf = [
        0x00, 0x00, 0x00, 0x00, 0x00, 0x00, 0x00, 0x00, // 0
        0x01, 0x00, 0x00, 0x00, 0x00, 0x00, 0x00, 0x00, // 1
        0xff, 0x00, 0x00, 0x00, 0x00, 0x00, 0x00, 0x00, // 255,
    ];
    let mut d = BareDecoder::new(&buf[..]);
    assert_eq!(0, d.read_u64()?);
    assert_eq!(1, d.read_u64()?);
    assert_eq!(255, d.read_u64()?);
    Ok(())
}

#[test]
fn encode_u64() -> Result<(), BareError> {
    let buf = [
        0x00, 0x00, 0x00, 0x00, 0x00, 0x00, 0x00, 0x00, // 0
        0x01, 0x00, 0x00, 0x00, 0x00, 0x00, 0x00, 0x00, // 1
        0xff, 0x00, 0x00, 0x00, 0x00, 0x00, 0x00, 0x00, // 255,
    ];
    let mut e = BareEncoder::new(vec![]);
    e.write_u64(0);
    e.write_u64(1);
    e.write_u64(255);
    let ob = e.into_inner();
    assert_eq!(&buf, ob.as_slice());
    Ok(())
}

#[test]
fn decode_data() -> Result<(), BareError> {
    let buf = [
        0x10, 0xaa, 0xee, 0xff, 0xee, 0xdd, 0xcc, 0xbb, 0xaa, 0xee, 0xdd, 0xcc, 0xbb, 0xee, 0xdd,
        0xcc, 0xbb,
    ];
    let mut d = BareDecoder::new(&buf[..]);
    assert_eq!(
        vec![
            0xaa, 0xee, 0xff, 0xee, 0xdd, 0xcc, 0xbb, 0xaa, 0xee, 0xdd, 0xcc, 0xbb, 0xee, 0xdd,
            0xcc, 0xbb
        ],
        d.read_data()?
    );
    Ok(())
}

#[test]
fn encode_data() -> Result<(), BareError> {
    let buf = [
        0xaa, 0xee, 0xff, 0xee, 0xdd, 0xcc, 0xbb, 0xaa, 0xee, 0xdd, 0xcc, 0xbb, 0xee, 0xdd, 0xcc,
        0xbb,
    ];
    let mut e = BareEncoder::new(vec![]);
    e.write_data(&buf);
    let ob = e.into_inner();
    assert_eq!(
        vec![
            0x10, 0xaa, 0xee, 0xff, 0xee, 0xdd, 0xcc, 0xbb, 0xaa, 0xee, 0xdd, 0xcc, 0xbb, 0xee,
            0xdd, 0xcc, 0xbb
        ],
        ob
    );
    Ok(())
}

#[test]
fn decode_data_exact() -> Result<(), BareError> {
    let buf = [
        0xaa, 0xee, 0xff, 0xee, 0xdd, 0xcc, 0xbb, 0xaa, 0xee, 0xdd, 0xcc, 0xbb, 0xee, 0xdd, 0xcc,
        0xbb,
    ];
    let mut d = BareDecoder::new(&buf[..]);
    assert_eq!(
        vec![
            0xaa, 0xee, 0xff, 0xee, 0xdd, 0xcc, 0xbb, 0xaa, 0xee, 0xdd, 0xcc, 0xbb, 0xee, 0xdd,
            0xcc, 0xbb
        ],
        d.read_data_exact(0x10)?
    );
    Ok(())
}

#[test]
fn encode_data_exact() -> Result<(), BareError> {
    let buf = [
        0xaa, 0xee, 0xff, 0xee, 0xdd, 0xcc, 0xbb, 0xaa, 0xee, 0xdd, 0xcc, 0xbb, 0xee, 0xdd, 0xcc,
        0xbb,
    ];
    let mut e = BareEncoder::new(vec![]);
    e.write_data_exact(&buf);
    let ob = e.into_inner();
    assert_eq!(
        vec![
            0xaa, 0xee, 0xff, 0xee, 0xdd, 0xcc, 0xbb, 0xaa, 0xee, 0xdd, 0xcc, 0xbb, 0xee, 0xdd,
            0xcc, 0xbb
        ],
        ob
    );
    Ok(())
}

#[test]
fn decode_errors() {
    let buf = [0x80, 0x80];
    let mut d = BareDecoder::new(&buf[..]);
    assert_eq!(Err(BareError::UnexpectedEof), d.read_uint());
    let too_long = [0xff, 0xff, 0xff, 0xff, 0xff, 0xff, 0xff, 0xff, 0xff, 0xff, 0x01];
    let mut d = BareDecoder::new(&too_long[..]);
    assert_eq!(Err(BareError::InvalidUint), d.read_uint());
    let short = [0x01, 0x02, 0x03];
    let mut d = BareDecoder::new(&short[..]);
    assert_eq!(Err(BareError::UnexpectedEof), d.read_u32());
    assert_eq!(Ok(0x0201), d.read_u16());
    assert_eq!(Err(BareError::UnexpectedEof), d.read_data_exact(2));
    assert_eq!(Ok(vec![0x03]), d.read_data_exact(1));
}

#[test]
fn uint_round_trip() {
    let values = [0u64, 1, 127, 128, 300, 16384, u32::MAX as u64, u64::MAX];
    let mut e = BareEncoder::new(vec![]);
    for v in values {
        e.write_uint(v);
    }
    let bytes = e.into_inner();
    let mut d = BareDecoder::new(&bytes);
    for v in values {
        assert_eq!(Ok(v), d.read_uint());
    }
    assert_eq!(0, d.remaining());
}
