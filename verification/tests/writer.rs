use bitio::error::BitError;
use bitio::reader::Reader;
use bitio::writer::Writer;

#[test]
pub fn test_write_bit() {
    let mut writer = Writer::new(Vec::new());

    // 1111_1011
    writer.write_bit(true).unwrap();
    writer.write_bit(true).unwrap();
    writer.write_bit(true).unwrap();
    writer.write_bit(true).unwrap();
    writer.write_bit(true).unwrap();
    writer.write_bit(false).unwrap();
    writer.write_bit(true).unwrap();
    writer.write_bit(true).unwrap();

    // 0101_0101
    writer.write_bit(false).unwrap();
    writer.write_bit(true).unwrap();
    writer.write_bit(false).unwrap();
    writer.write_bit(true).unwrap();
    writer.write_bit(false).unwrap();
    writer.write_bit(true).unwrap();
    writer.write_bit(false).unwrap();
    writer.write_bit(true).unwrap();

    // 101 -> 1010_0000
    writer.write_bit(true).unwrap();
    writer.write_bit(false).unwrap();
    writer.write_bit(true).unwrap();

    writer.flush().unwrap();

    assert_eq!(*writer.get_ref(), [251, 85, 160]);
}

#[test]
pub fn write_bits() {
    let mut writer = Writer::new(Vec::new());

    writer.write_bits(251, 8).unwrap();
    writer.write_bits(85, 8).unwrap();

    writer.flush().unwrap();

    assert_eq!(*writer.get_ref(), [251, 85]);
}

#[test]
pub fn write_byte() {
    let mut writer = Writer::new(Vec::new());

    writer.write_byte(251).unwrap();
    writer.write_byte(85).unwrap();

    writer.flush().unwrap();

    assert_eq!(*writer.get_ref(), [251, 85]);
}

#[test]
pub fn write_bytes() {
    let mut writer = Writer::new(Vec::new());

    writer.write_bytes(vec![251, 85]).unwrap();

    writer.flush().unwrap();

    assert_eq!(*writer.get_ref(), [251, 85]);
}

#[test]
pub fn write_bytes_u128() {
    let mut writer = Writer::new(Vec::new());

    let test_num: u128 = 340282366920938463463374607431768088333;
    writer.write_bytes(test_num.to_be_bytes().to_vec()).unwrap();

    writer.flush().unwrap();

    assert_eq!(
        *writer.get_ref(),
        [255, 255, 255, 255, 255, 255, 255, 255, 255, 255, 255, 255, 255, 254, 31, 13]
    );
}

#[test]
pub fn pad_to_byte() {
    let mut writer = Writer::new(Vec::new());

    // 1 -> 1000_0000
    writer.write_bit(true).unwrap();
    writer.pad_to_byte().unwrap();

    // 1111_111 -> 1111_1110
    writer.write_bit(true).unwrap();
    writer.write_bit(true).unwrap();
    writer.write_bit(true).unwrap();
    writer.write_bit(true).unwrap();
    writer.write_bit(true).unwrap();
    writer.write_bit(true).unwrap();
    writer.write_bit(true).unwrap();
    writer.pad_to_byte().unwrap();

    writer.flush().unwrap();

    assert_eq!(*writer.get_ref(), [128, 254]);
}

#[test]
pub fn front_pad_to_byte() {
    let mut writer = Writer::new(Vec::new());

    // 1
    writer.write_bit(true).unwrap();
    writer.front_pad_to_byte().unwrap();

    // 101
    writer.write_bit(true).unwrap();
    writer.write_bit(false).unwrap();
    writer.write_bit(true).unwrap();
    writer.front_pad_to_byte().unwrap();

    // 1010
    writer.write_bit(true).unwrap();
    writer.write_bit(false).unwrap();
    writer.write_bit(true).unwrap();
    writer.write_bit(false).unwrap();
    writer.front_pad_to_byte().unwrap();

    writer.flush().unwrap();

    assert_eq!(*writer.get_ref(), [1, 5, 10]);
}

#[test]
pub fn write_bits_width_boundary() {
    let mut writer = Writer::new(Vec::new());

    assert_eq!(writer.write_bits(0, 129).unwrap_err(), BitError::InvalidBitWidth);
    writer.write_bits(u128::MAX, 128).unwrap();
    writer.flush().unwrap();

    assert_eq!(*writer.get_ref(), [255; 16]);
}

#[test]
pub fn write_bits_exact_packing() {
    let mut writer = Writer::new(Vec::new());

    // 33987 = 1000_0100__1100_0011
    writer.write_bits(33987, 16).unwrap();
    writer.flush().unwrap();

    assert_eq!(*writer.get_ref(), [132, 195]);
}

#[test]
pub fn write_bits_zero_width() {
    let mut writer = Writer::new(Vec::new());

    writer.write_bits(251, 0).unwrap();
    writer.flush().unwrap();

    assert_eq!(*writer.get_ref(), []);
}

#[test]
pub fn flush_twice_adds_nothing() {
    let mut writer = Writer::new(Vec::new());

    writer.write_bit(true).unwrap();
    writer.write_bit(true).unwrap();
    writer.flush().unwrap();
    let first = writer.get_ref().clone();
    writer.flush().unwrap();

    assert_eq!(*writer.get_ref(), first);
}

#[test]
pub fn round_trip_bytes() {
    let mut writer = Writer::new(Vec::new());
    let payload = vec![0, 1, 2, 3, 127, 128, 200, 255, 84, 42];

    writer.write_bytes(payload.clone()).unwrap();
    writer.flush().unwrap();

    let mut reader = Reader::new(writer.get_ref().clone());
    assert_eq!(reader.read_bytes(payload.len()).unwrap(), payload);
}

#[test]
pub fn writer_starts_after_given_sink() {
    let mut writer = Writer::new(vec![7]);

    writer.write_byte(9).unwrap();
    writer.flush().unwrap();

    assert_eq!(*writer.get_ref(), [7, 9]);
}
