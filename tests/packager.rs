use press_rs::header::{EntryType, Header, ENTRY_SIZE};
use press_rs::packager::{
    block_is_empty, file_as_entries, pack_entries, pack_from_file_entries, unpack_to_entries,
    unpack_to_file_entries, ArchiveError, FileEntry,
};

#[test]
fn test_pack_unpack_in_memory_integration_flow() {
    let original_entries = vec![FileEntry {
        name: "a/b/c.txt".to_string(),
        data: b"nested content".to_vec(),
        is_dir: false,
    }];

    let archive = pack_entries(original_entries.clone());
    let unpacked_entries = unpack_to_entries(archive).unwrap();

    assert_eq!(original_entries.len(), unpacked_entries.len());
    assert_eq!(original_entries[0].name, unpacked_entries[0].name);
    assert_eq!(original_entries[0].data, unpacked_entries[0].data);
}

#[test]
fn test_pack_from_file_entries_logic() {
    let entries = vec![
        FileEntry {
            name: "test.txt".to_string(),
            data: b"hello binary".to_vec(),
            is_dir: false,
        },
        FileEntry {
            name: "folder".to_string(),
            data: vec![],
            is_dir: true,
        },
    ];

    let result = pack_from_file_entries(entries);
    assert!(result.len() >= ENTRY_SIZE * 4);
}

#[test]
fn test_unpack_to_entries_standard_file() {
    let mut header = Header::new();
    let file_name = "mem_test.txt";
    let content = b"memory content";
    header.set_name(file_name.to_string());
    header.set_size(content.len());
    header.set_typeflag(EntryType::File);

    let mut data = header.to_bytes().to_vec();
    data.extend_from_slice(content);

    let entries = unpack_to_file_entries(data).unwrap();

    assert_eq!(entries.len(), 1);
    assert_eq!(entries[0].name, file_name);
    assert_eq!(entries[0].data, content);
    assert!(!entries[0].is_dir);
}

#[test]
fn test_unpack_to_entries_empty_buffer() {
    let data = vec![];
    let entries = unpack_to_file_entries(data).unwrap();
    assert_eq!(entries.len(), 0);
}

#[test]
fn test_unpack_to_entries_corrupted_data() {
    let corrupted = vec![0u8; ENTRY_SIZE - 1];
    let entries = unpack_to_file_entries(corrupted).unwrap();
    assert_eq!(entries.len(), 0);
}

#[test]
fn single_file_archive_has_header_payload_and_sentinel() {
    let entries = vec![FileEntry { name: "a.txt".to_string(), data: b"hi".to_vec(), is_dir: false }];
    let archive = pack_entries(entries.clone());
    assert_eq!(archive.len(), 169 + 169 + 2 * 169);
    assert_eq!(&archive[169..171], b"hi");
    assert!(archive[171..].iter().all(|&b| b == 0));
    assert_eq!(unpack_to_entries(archive).unwrap(), entries);
}

#[test]
fn directory_then_file_round_trip() {
    let entries = vec![
        FileEntry { name: "dir/".to_string(), data: vec![], is_dir: true },
        FileEntry { name: "dir/x".to_string(), data: b"k".to_vec(), is_dir: false },
    ];
    let archive = pack_entries(entries.clone());
    assert_eq!(archive.len(), 169 + 169 + 169 + 2 * 169);
    assert_eq!(unpack_to_entries(archive).unwrap(), entries);
}

#[test]
fn many_entries_round_trip_in_order() {
    let mut entries = Vec::new();
    for i in 0..20usize {
        let data: Vec<u8> = (0..(i * 37)).map(|k| (k * 7 + i) as u8).collect();
        entries.push(FileEntry { name: format!("d/f{}.bin", i), data, is_dir: false });
        if i % 5 == 0 {
            entries.push(FileEntry { name: format!("d/sub{}", i), data: vec![], is_dir: true });
        }
    }
    entries.push(FileEntry { name: "été/ü.txt".to_string(), data: vec![0; 169], is_dir: false });
    let archive = pack_entries(entries.clone());
    assert_eq!(archive.len() % 169, 0);
    assert_eq!(unpack_to_entries(archive).unwrap(), entries);
}

#[test]
fn empty_list_packs_to_sentinel_only() {
    let archive = pack_entries(vec![]);
    assert_eq!(archive, vec![0u8; 2 * 169]);
    assert_eq!(unpack_to_entries(archive).unwrap(), vec![]);
}

#[test]
fn padding_to_block_boundary() {
    assert_eq!(file_as_entries(vec![]), Vec::<u8>::new());
    assert_eq!(file_as_entries(vec![1]).len(), 169);
    assert_eq!(file_as_entries(vec![1; 169]).len(), 169);
    assert_eq!(file_as_entries(vec![1; 170]).len(), 338);
    let padded = file_as_entries(vec![5, 6]);
    assert_eq!(&padded[..2], &[5, 6]);
    assert!(padded[2..].iter().all(|&b| b == 0));
}

#[test]
fn empty_block_detection() {
    assert!(block_is_empty(&[0u8; 169]));
    assert!(block_is_empty(&[]));
    let mut b = [0u8; 169];
    b[100] = 1;
    assert!(!block_is_empty(&b));
}

#[test]
fn unknown_type_flag_is_malformed() {
    let mut block = Header::from_values("f".to_string(), 0, EntryType::File).to_bytes();
    block[168] = b'7';
    assert_eq!(unpack_to_entries(block.to_vec()), Err(ArchiveError::MalformedHeader));
}

#[test]
fn bad_octal_size_is_malformed() {
    let mut block = Header::from_values("f".to_string(), 3, EntryType::File).to_bytes();
    block[160] = b'x';
    assert_eq!(unpack_to_entries(block.to_vec()), Err(ArchiveError::MalformedHeader));
}

#[test]
fn size_past_the_end_is_truncated_archive() {
    let mut data = Header::from_values("f".to_string(), 10, EntryType::File).to_bytes().to_vec();
    data.extend_from_slice(b"abc");
    assert_eq!(unpack_to_entries(data), Err(ArchiveError::TruncatedArchive));
}

#[test]
fn missing_sentinel_stops_at_last_whole_block() {
    let entries = vec![FileEntry { name: "d".to_string(), data: vec![], is_dir: true }];
    let mut archive = pack_entries(entries.clone());
    archive.truncate(169 + 100);
    assert_eq!(unpack_to_entries(archive).unwrap(), entries);
}

#[test]
fn single_zero_block_between_headers_is_skipped() {
    let first = Header::from_values("a".to_string(), 0, EntryType::Directory).to_bytes();
    let second = Header::from_values("b".to_string(), 0, EntryType::Directory).to_bytes();
    let mut data = first.to_vec();
    data.extend_from_slice(&[0u8; 169]);
    data.extend_from_slice(&second);
    let names: Vec<String> = unpack_to_entries(data).unwrap().into_iter().map(|e| e.name).collect();
    assert_eq!(names, vec!["a".to_string(), "b".to_string()]);
}
