use press_rs::bitio::{BitReader, BitWriter};

#[test]
fn test_write_aligned_bytes() {
    let mut writer = BitWriter::new();
    let val1: u16 = 0xFFF;
    let val2: u16 = 0x0;

    writer.write(val1, 12);
    writer.write(val2, 4);
    writer.flush();

    assert_eq!(writer.output, vec![0xFF, 0x0F]);
}

#[test]
fn test_write_spanning_boundaries() {
    let mut writer = BitWriter::new();

    writer.write(0b111, 3);
    writer.write(0b101, 3);
    writer.write(0b001, 3);
    writer.flush();

    assert_eq!(writer.output.len(), 2);
    assert_eq!(writer.output[0], 0x6F);
    assert_eq!(writer.output[1], 0x00);
}

#[test]
fn decompress_test_read_variable_widths() {
    let data = vec![0xFF, 0x0F];
    let mut reader = BitReader::new(data);

    let val_12bits = reader.read_one(12).unwrap();
    let val_4bits = reader.read_one(4).unwrap();

    assert_eq!(val_12bits, 0xFFF);
    assert_eq!(val_4bits, 0x0);
}

#[test]
fn decompress_test_read_exhaustion() {
    let data = vec![0xAA];
    let mut reader = BitReader::new(data);

    let val1 = reader.read_one(4);
    let val2 = reader.read_one(4);
    let val3 = reader.read_one(4);

    assert!(val1.is_ok());
    assert!(val2.is_ok());
    assert!(val3.is_err());
}

#[test]
fn write_high_bits_of_code_are_ignored() {
    let mut writer = BitWriter::new();
    writer.write(0xFFFF, 4);
    writer.flush();
    assert_eq!(writer.output, vec![0x0F]);
}

#[test]
fn write_then_read_gives_codes_back() {
    let codes: Vec<(u16, u8)> = vec![
        (256, 9), (65, 9), (511, 9), (0, 9), (1023, 10), (3, 2), (4095, 12), (1, 1), (0xABCD, 16), (257, 12),
    ];
    let mut writer = BitWriter::new();
    for &(c, w) in &codes {
        writer.write(c, w);
    }
    writer.flush();
    let mut reader = BitReader::new(writer.output.clone());
    for &(c, w) in &codes {
        assert_eq!(reader.read_one(w).unwrap(), c);
    }
    assert_eq!(reader.read_one(8).is_err(), true);
}

#[test]
fn flush_pads_with_zero_bits() {
    let mut writer = BitWriter::new();
    writer.write(0b1, 1);
    writer.flush();
    assert_eq!(writer.output, vec![0x01]);
    let mut empty = BitWriter::new();
    empty.flush();
    assert!(empty.output.is_empty());
}
