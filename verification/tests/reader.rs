use bitio::error::BitError;
use bitio::reader::Reader;

#[test]
pub fn read_bit() {
    // 251 = 1111_1011
    // 85 = 0101_0101
    let mut reader = Reader::new(vec![251, 85]);

    // 1111_1011
    assert!(reader.read_bit().unwrap());
    assert!(reader.read_bit().unwrap());
    assert!(reader.read_bit().unwrap());
    assert!(reader.read_bit().unwrap());
    assert!(reader.read_bit().unwrap());
    assert!(!reader.read_bit().unwrap());
    assert!(reader.read_bit().unwrap());
    assert!(reader.read_bit().unwrap());

    // 0101_0101
    assert!(!reader.read_bit().unwrap());
    assert!(reader.read_bit().unwrap());
    assert!(!reader.read_bit().unwrap());
    assert!(reader.read_bit().unwrap());
    assert!(!reader.read_bit().unwrap());
    assert!(reader.read_bit().unwrap());
    assert!(!reader.read_bit().unwrap());
    assert!(reader.read_bit().unwrap());
}

#[test]
pub fn read_bits() {
    // 251 = 1111_1011
    // 85 = 0101_0101
    let mut reader = Reader::new(vec![251, 85]);

    assert_eq!(reader.read_bits(8).unwrap(), 251);
    assert_eq!(reader.read_bits(8).unwrap(), 85);
}

#[test]
pub fn read_bits_u16() {
    // 33987 = 1000_0100__1100_0011
    let mut reader = Reader::new(vec![132, 195]);

    assert_eq!(reader.read_bits(16).unwrap(), 33987);
}

#[test]
pub fn read_bits_u64() {
    // 9566613174483237893 = 1000_0100__1100_0011__0110_1111__1111_1111__0000_0000__1010_0101__0011_1100_0000_0101
    let mut reader = Reader::new(vec![132, 195, 111, 255, 0, 165, 60, 5]);

    assert_eq!(reader.read_bits(64).unwrap(), 9566613174483237893);
}

#[test]
pub fn read_byte() {
    let mut reader = Reader::new(vec![251, 85]);

    assert_eq!(reader.read_byte().unwrap(), 251);
    assert_eq!(reader.read_byte().unwrap(), 85);
}

#[test]
pub fn read_bytes() {
    let mut reader = Reader::new(vec![251, 85]);

    assert_eq!(reader.read_bytes(2).unwrap(), vec![251, 85]);
}

#[test]
pub fn read_bits_width_boundary() {
    let mut reader = Reader::new(vec![255; 17]);

    assert_eq!(reader.read_bits(129).unwrap_err(), BitError::InvalidBitWidth);
    assert_eq!(reader.read_bits(128).unwrap(), u128::MAX);
}

#[test]
pub fn read_bits_zero_width() {
    let mut reader = Reader::new(vec![251]);

    assert_eq!(reader.read_bits(0).unwrap(), 0);
    // Nothing was consumed.
    assert_eq!(reader.read_byte().unwrap(), 251);
}

#[test]
pub fn read_bit_end_of_stream() {
    let mut reader = Reader::new(Vec::new());

    assert_eq!(reader.read_bit().unwrap_err(), BitError::UnexpectedEndOfInput);
}

#[test]
pub fn read_past_last_bit() {
    let mut reader = Reader::new(vec![128]);

    for _ in 0..8 {
        reader.read_bit().unwrap();
    }
    assert_eq!(reader.read_bit().unwrap_err(), BitError::UnexpectedEndOfInput);
}

#[test]
pub fn read_bits_runs_out_part_way() {
    let mut reader = Reader::new(vec![255]);

    assert_eq!(reader.read_bits(16).unwrap_err(), BitError::UnexpectedEndOfInput);
}

#[test]
pub fn reader_get_ref_sees_source() {
    let mut reader = Reader::new(vec![9, 8, 7]);

    reader.read_bit().unwrap();
    assert_eq!(*reader.get_ref(), [9, 8, 7]);
}
