use rw_utils::byte_source::ByteCursor;
use rw_utils::leb128_read::Leb128Read;
use rw_utils::leb128_write::Leb128Write;
use rw_utils::num_read::NumRead;
use rw_utils::num_write::NumWrite;
use rw_utils::RwError;

#[test]
fn test_encode_wikipedia() -> Result<(), RwError> {
    let mut b: Vec<u8> = vec![];
    b.write_leb128_i32(-123456)?;
    assert_eq!(b, vec![0xC0, 0xBB, 0x78]);
    return Ok(());
}

#[test]
fn test_zero_is_one_byte() -> Result<(), RwError> {
    let mut b: Vec<u8> = vec![];
    b.write_leb128_u16(0)?;
    b.write_leb128_u32(0)?;
    b.write_leb128_u64(0)?;
    b.write_leb128_u128(0)?;
    b.write_leb128_i16(0)?;
    b.write_leb128_i32(0)?;
    b.write_leb128_i64(0)?;
    b.write_leb128_i128(0)?;
    b.write_leb128_large_unsigned(&vec![0, 0, 0])?;
    b.write_leb128_large_signed(&vec![0, 0, 0])?;
    assert_eq!(b, vec![0u8; 10]);
    return Ok(());
}

#[test]
fn test_large_unsigned_result_bytes() -> Result<(), RwError> {
    // 16384 in two little-endian bytes
    let mut cursor = ByteCursor::new(vec![0x80, 0x80, 0x01]);
    let parsed = cursor.read_leb128_large_unsigned(2)?;
    assert_eq!(parsed, vec![0x00, 0x40]);
    return Ok(());
}

#[test]
fn test_overflow_too_many_groups() {
    let mut cursor = ByteCursor::new(vec![0x80, 0x80, 0x80, 0x01]);
    assert_eq!(cursor.read_leb128_u16(), Err(RwError::Overflow));
    let mut cursor = ByteCursor::new(vec![0x80, 0x80, 0x80, 0x01]);
    assert_eq!(cursor.read_leb128_i16(), Err(RwError::Overflow));
    let mut cursor = ByteCursor::new(vec![0x80, 0x80, 0x80, 0x80, 0x80, 0x01]);
    assert_eq!(cursor.read_leb128_u32(), Err(RwError::Overflow));
}

#[test]
fn test_overflow_high_payload_bits() {
    // a set payload bit would land at bit 16
    let mut cursor = ByteCursor::new(vec![0x80, 0x80, 0x04]);
    assert_eq!(cursor.read_leb128_u16(), Err(RwError::Overflow));
    // while bits that land just below bit 16 decode fine
    let mut cursor = ByteCursor::new(vec![0xFF, 0xFF, 0x03]);
    assert_eq!(cursor.read_leb128_u16(), Ok(u16::MAX));
}

#[test]
fn test_too_large() {
    let mut cursor = ByteCursor::new(vec![0x80, 0x80, 0x01]);
    assert_eq!(
        cursor.read_leb128_large_unsigned(1),
        Err(RwError::TooLarge)
    );
}

#[test]
fn test_invalid_input_empty_buffer() {
    let mut b: Vec<u8> = vec![];
    assert_eq!(
        b.write_leb128_large_unsigned(&vec![]),
        Err(RwError::InvalidInput)
    );
    assert_eq!(
        b.write_leb128_large_signed(&vec![]),
        Err(RwError::InvalidInput)
    );
    assert_eq!(b, vec![]);
}

#[test]
fn test_io_failure_on_drained_source() {
    let mut cursor = ByteCursor::new(vec![]);
    assert_eq!(cursor.read_leb128_u32(), Err(RwError::IoFailure));
    let mut cursor = ByteCursor::new(vec![0x80, 0x80]);
    assert_eq!(cursor.read_leb128_u32(), Err(RwError::IoFailure));
    let mut cursor = ByteCursor::new(vec![0x80]);
    assert_eq!(
        cursor.read_leb128_large_unsigned(8),
        Err(RwError::IoFailure)
    );
}

#[test]
fn test_round_trip_fixed() -> Result<(), RwError> {
    for v in [0u64, 1, 127, 128, 16383, 16384, u64::MAX / 3, u64::MAX] {
        let mut b: Vec<u8> = vec![];
        b.write_leb128_u64(v)?;
        let mut cursor = ByteCursor::new(b);
        assert_eq!(cursor.read_leb128_u64()?, v);
    }
    for v in [0i64, 1, -1, 63, 64, -64, -65, i64::MIN, i64::MAX] {
        let mut b: Vec<u8> = vec![];
        b.write_leb128_i64(v)?;
        let mut cursor = ByteCursor::new(b);
        assert_eq!(cursor.read_leb128_i64()?, v);
    }
    let mut b: Vec<u8> = vec![];
    b.write_leb128_i16(i16::MIN)?;
    assert_eq!(b, vec![0x80, 0x80, 0x02]);
    let mut cursor = ByteCursor::new(b);
    assert_eq!(cursor.read_leb128_i16()?, i16::MIN);
    return Ok(());
}

#[test]
fn test_minimal_length() -> Result<(), RwError> {
    for (v, len) in [(0u32, 1), (127, 1), (128, 2), (16383, 2), (16384, 3)] {
        let mut b: Vec<u8> = vec![];
        b.write_leb128_u32(v)?;
        assert_eq!(b.len(), len, "{}", v);
    }
    for (v, len) in [(0i32, 1), (63, 1), (-64, 1), (64, 2), (-65, 2), (8191, 2), (8192, 3)] {
        let mut b: Vec<u8> = vec![];
        b.write_leb128_i32(v)?;
        assert_eq!(b.len(), len, "{}", v);
    }
    return Ok(());
}

#[test]
fn test_fixed_and_large_agree() -> Result<(), RwError> {
    for v in [0u32, 1, 300, 65536, u32::MAX] {
        let mut b: Vec<u8> = vec![];
        b.write_leb128_u32(v)?;
        let mut cursor = ByteCursor::new(b.clone());
        let fixed = cursor.read_leb128_u32()?;
        let mut cursor = ByteCursor::new(b);
        let large = cursor.read_leb128_large_unsigned(4)?;
        let mut acc: u32 = 0;
        for (i, byte) in large.iter().enumerate() {
            acc |= (*byte as u32) << (8 * i);
        }
        assert_eq!(fixed, acc);
    }
    return Ok(());
}

#[test]
fn test_large_signed_cap_keeps_the_sign() -> Result<(), RwError> {
    // +128 needs two bytes; one byte would read back as -128
    let mut cursor = ByteCursor::new(vec![0x80, 0x01]);
    assert_eq!(cursor.read_leb128_large_signed(1), Err(RwError::TooLarge));
    let mut cursor = ByteCursor::new(vec![0x80, 0x01]);
    assert_eq!(cursor.read_leb128_large_signed(2)?, vec![0x80, 0x00]);

    // +40000 needs three bytes; two would read back as -25536
    let mut cursor = ByteCursor::new(vec![0xC0, 0xB8, 0x02]);
    assert_eq!(cursor.read_leb128_large_signed(2), Err(RwError::TooLarge));
    let mut cursor = ByteCursor::new(vec![0xC0, 0xB8, 0x02]);
    assert_eq!(cursor.read_leb128_large_signed(3)?, vec![0x40, 0x9C, 0x00]);

    // -129 needs two bytes; one byte would read back as +127
    let mut cursor = ByteCursor::new(vec![0xFF, 0x7E]);
    assert_eq!(cursor.read_leb128_large_signed(1), Err(RwError::TooLarge));
    let mut cursor = ByteCursor::new(vec![0xFF, 0x7E]);
    assert_eq!(cursor.read_leb128_large_signed(2)?, vec![0x7F, 0xFF]);

    // -1 cannot live in an empty buffer
    let mut cursor = ByteCursor::new(vec![0x7F]);
    assert_eq!(cursor.read_leb128_large_signed(0), Err(RwError::TooLarge));

    // -128 in one byte keeps its sign: the redundant 0xFF is dropped
    let mut cursor = ByteCursor::new(vec![0x80, 0x7F]);
    assert_eq!(cursor.read_leb128_large_signed(1)?, vec![0x80]);

    return Ok(());
}

#[test]
fn test_u8_buffers() -> Result<(), RwError> {
    let mut buffer: Vec<u8> = vec![];
    buffer.write_u8_vec(&vec![1, 2, 0xFE])?;
    buffer.write_i8_vec(&vec![-1i8, 5, -128])?;
    buffer.write_u8_slice(&[9, 8])?;
    buffer.write_i8_slice(&[-2i8, 3])?;
    assert_eq!(buffer, vec![1, 2, 0xFE, 0xFF, 5, 0x80, 9, 8, 0xFE, 3]);

    let mut cursor = ByteCursor::new(buffer);
    assert_eq!(cursor.read_u8_vec(3)?, vec![1, 2, 0xFE]);
    assert_eq!(cursor.read_i8_vec(3)?, vec![-1i8, 5, -128]);
    let mut us = [0u8; 2];
    cursor.read_u8_slice(&mut us)?;
    assert_eq!(us, [9, 8]);
    let mut is = [0i8; 2];
    cursor.read_i8_slice(&mut is)?;
    assert_eq!(is, [-2i8, 3]);

    return Ok(());
}

#[test]
fn test_large_signed_round_trip() -> Result<(), RwError> {
    for v in [0i64, 1, -1, 127, 128, -128, -129, 40000, -40000, i64::MIN, i64::MAX] {
        let x = v.to_le_bytes().to_vec();
        let mut groups: Vec<u8> = vec![];
        groups.write_leb128_large_signed(&x)?;
        let mut cursor = ByteCursor::new(groups);
        let parsed = cursor.read_leb128_large_signed(8)?;
        let mut acc: u64 = if parsed.last().map_or(false, |b| *b >= 128) {
            u64::MAX
        } else {
            0
        };
        for (i, byte) in parsed.iter().enumerate() {
            acc = (acc & !(0xFFu64 << (8 * i))) | ((*byte as u64) << (8 * i));
        }
        assert_eq!(acc as i64, v, "{}", v);
    }
    return Ok(());
}

#[test]
fn test_large_signed_negative_bytes() -> Result<(), RwError> {
    let mut cursor = ByteCursor::new(vec![0x7F]);
    assert_eq!(cursor.read_leb128_large_signed(1)?, vec![0xFF]);
    let mut b: Vec<u8> = vec![];
    b.write_leb128_large_signed(&vec![0xFF])?;
    assert_eq!(b, vec![0x7F]);
    return Ok(());
}
