use press_rs::header::{EntryType, Header, NAME_SIZE};

#[test]
fn test_entry_type_conversion() {
    let file_byte = EntryType::File.as_byte();
    let dir_byte = EntryType::Directory.as_byte();

    let file_type = EntryType::new(file_byte);
    let dir_type = EntryType::new(dir_byte);

    assert_eq!(file_type, EntryType::File);
    assert_eq!(dir_type, EntryType::Directory);
}

#[test]
fn test_header_round_trip() {
    let mut header = Header::new();
    let name = "test_file.txt";
    let size = 1024;

    header.set_name(name.to_string());
    header.set_size(size);
    header.set_typeflag(EntryType::File);

    let bytes = header.to_bytes();
    let decoded = Header::from_bytes(bytes);

    assert_eq!(decoded.get_name(), name);
    assert_eq!(decoded.get_size(), size);
    assert_eq!(decoded.typeflag[0], EntryType::File.as_byte());
}

#[test]
fn test_name_truncation() {
    let mut header = Header::new();
    let long_name = "a".repeat(NAME_SIZE + 50);

    header.set_name(long_name.clone());
    let stored_name = header.get_name();

    assert_eq!(stored_name.len(), NAME_SIZE);
    assert_eq!(stored_name, "a".repeat(NAME_SIZE));
}

#[test]
fn test_size_parsing_zero() {
    let mut header = Header::new();

    header.set_size(0);
    let bytes = header.to_bytes();
    let decoded = Header::from_bytes(bytes);
    assert_eq!(decoded.get_size(), 0);
}

#[test]
fn test_size_parsing_large() {
    let mut header = Header::new();
    let large_size = 999999;

    header.set_size(large_size);
    let bytes_l = header.to_bytes();
    let decoded_l = Header::from_bytes(bytes_l);
    assert_eq!(decoded_l.get_size(), large_size);
}

#[test]
fn size_round_trip_over_listed_sizes() {
    for s in [0usize, 1, 7, 8, 511, 4096, 999_999, 8589934591] {
        let header = Header::from_values("x".to_string(), s, EntryType::File);
        let decoded = Header::from_bytes(header.to_bytes());
        assert_eq!(decoded.get_size(), s);
        assert_eq!(decoded.get_name(), "x");
        assert_eq!(decoded.typeflag[0], b'0');
    }
}

#[test]
fn size_field_is_eleven_octal_digits_and_nul() {
    let mut header = Header::new();
    header.set_size(8);
    assert_eq!(&header.size[..], b"00000000010\0");
    header.set_size(8589934591);
    assert_eq!(&header.size[..], b"77777777777\0");
}

#[test]
fn name_truncation_keeps_first_156_bytes() {
    let name: String = (0..206).map(|i| (b'a' + (i % 26) as u8) as char).collect();
    let header = Header::from_values(name.clone(), 3, EntryType::Directory);
    let decoded = Header::from_bytes(header.to_bytes());
    let got = decoded.get_name();
    assert_eq!(got.len(), 156);
    assert_eq!(got, name[..156]);
    assert_eq!(decoded.typeflag[0], b'1');
}

#[test]
fn header_block_layout() {
    let header = Header::from_values("ab".to_string(), 5, EntryType::File);
    let bytes = header.to_bytes();
    assert_eq!(bytes.len(), 169);
    assert_eq!(&bytes[0..2], b"ab");
    assert!(bytes[2..156].iter().all(|&b| b == 0));
    assert_eq!(&bytes[156..168], b"00000000005\0");
    assert_eq!(bytes[168], b'0');
}

#[test]
fn malformed_size_field_is_refused() {
    let mut header = Header::new();
    assert_eq!(header.parse_size(), None);
    header.set_size(9);
    header.size[3] = b'9';
    assert_eq!(header.parse_size(), None);
    header.set_size(9);
    assert_eq!(header.parse_size(), Some(9));
}

#[test]
fn unknown_flag_names_no_kind() {
    assert_eq!(EntryType::from_flag(b'0'), Some(EntryType::File));
    assert_eq!(EntryType::from_flag(b'1'), Some(EntryType::Directory));
    assert_eq!(EntryType::from_flag(b'2'), None);
    assert_eq!(EntryType::from_flag(0), None);
}

#[test]
fn invalid_utf8_name_is_decoded_lossily() {
    let mut block = [0u8; 169];
    block[0] = b'a';
    block[1] = 0xff;
    block[2] = b'b';
    let header = Header::from_bytes(block);
    assert_eq!(header.get_name(), "a\u{fffd}b");
}
