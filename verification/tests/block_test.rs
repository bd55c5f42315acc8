use vfs::block::Block;
use vfs::block::Empty;
use vfs::block::FileData;
use vfs::block::FileHeader;
use vfs::block::Folder;
use vfs::vfs::VFSError;

#[test]
fn test_parse_empty() {
    // A seven-character line leaves an odd-length hexadecimal payload
    // between the type digit and the terminator digit, so it is rejected.
    let data = "1000000";
    let parsed = Block::parse(data);

    assert_eq!(parsed.unwrap_err(), VFSError::InvalidHexPayload);
}

#[test]
#[should_panic]
fn test_bad_datatype() {
    let data = "9000000";
    Block::parse(data).unwrap();
}

#[test]
fn test_folder_parse() {
    // Three bytes cover only the pointer fields, so the name region is
    // empty and its zero terminator is missing.
    let data = "010000";
    let data = hex::decode(data).unwrap();
    let block = Folder::parse(&data);

    assert_eq!(block.unwrap_err(), VFSError::MissingNameTerminator);
}

#[test]
fn round_trip_empty_line() {
    let data = "10000000";
    let parsed = Block::parse(data).unwrap();
    match &parsed {
        Block::Empty(e) => {
            assert_eq!(e.next_file, 0);
            assert_eq!(e.data, vec![0, 0]);
        }
        _ => panic!("expected an empty block"),
    }
    assert_eq!(parsed.to_string(), data);
}

#[test]
fn round_trip_damaged_line() {
    let data = "2ABC0000";
    let parsed = Block::parse(data).unwrap();
    match &parsed {
        Block::Damaged(e) => {
            assert_eq!(e.next_file, 0xAB);
            assert_eq!(e.data, vec![0xC0, 0x00]);
        }
        _ => panic!("expected a damaged block"),
    }
    assert_eq!(parsed.to_string(), data);
}

#[test]
fn round_trip_folder_value() {
    let block = Block::Folder(Folder {
        next_available: 1,
        next_bad: 2,
        next_file: 3,
        name: b"disk".to_vec(),
        rest: vec![0, 0],
    });
    let line = block.to_string();
    assert_eq!(line, "00102036469736B0000000");
    let back = Block::parse(&line).unwrap();
    match back {
        Block::Folder(f) => {
            assert_eq!(f.next_available, 1);
            assert_eq!(f.next_bad, 2);
            assert_eq!(f.next_file, 3);
            assert_eq!(f.name, b"disk".to_vec());
            assert_eq!(f.rest, vec![0, 0]);
        }
        _ => panic!("expected a folder block"),
    }
}

#[test]
fn round_trip_file_header_value() {
    let block = Block::FileHeader(FileHeader {
        next_file: 0,
        next_data: 2,
        name: b"a.txt".to_vec(),
        data: vec![b'h', b'i', 0],
    });
    let line = block.to_string();
    let back = Block::parse(&line).unwrap();
    match back {
        Block::FileHeader(h) => {
            assert_eq!(h.next_file, 0);
            assert_eq!(h.next_data, 2);
            assert_eq!(h.name, b"a.txt".to_vec());
            assert_eq!(h.data, vec![b'h', b'i', 0]);
        }
        _ => panic!("expected a file header block"),
    }
}

#[test]
fn round_trip_file_data_line() {
    let data = "40068690";
    let parsed = Block::parse(data).unwrap();
    match &parsed {
        Block::FileData(d) => {
            assert_eq!(d.next_data, 0);
            assert_eq!(d.data, vec![0x68, 0x69]);
        }
        _ => panic!("expected a file data block"),
    }
    assert_eq!(parsed.to_string(), data);
}

#[test]
fn lowercase_hex_is_decoded_but_reencoded_uppercase() {
    let parsed = Block::parse("1ab000").unwrap();
    match &parsed {
        Block::Empty(e) => {
            assert_eq!(e.next_file, 0xAB);
            assert_eq!(e.data, vec![0x00]);
        }
        _ => panic!("expected an empty block"),
    }
    assert_eq!(parsed.to_string(), "1AB000");
}

#[test]
fn missing_name_terminator_in_file_header() {
    // All payload bytes after the two pointers are nonzero.
    let err = Block::parse("3000101010").unwrap_err();
    assert_eq!(err, VFSError::MissingNameTerminator);
}

#[test]
fn parse_rejects_non_hex_payload() {
    let err = Block::parse("1zz000").unwrap_err();
    assert_eq!(err, VFSError::InvalidHexPayload);
}

#[test]
fn parse_empty_block_parts() {
    let bytes = vec![5, 7, 8];
    let e = Empty::parse(&bytes);
    assert_eq!(e.next_file, 5);
    assert_eq!(e.data, vec![7, 8]);
    let d = FileData::parse(&bytes);
    assert_eq!(d.next_data, 5);
    assert_eq!(d.data, vec![7, 8]);
}

#[test]
fn parse_file_header_parts() {
    let bytes = vec![1, 2, b'h', b'i', 0, 9, 9];
    let h = FileHeader::parse(&bytes).unwrap();
    assert_eq!(h.next_file, 1);
    assert_eq!(h.next_data, 2);
    assert_eq!(h.name, b"hi".to_vec());
    assert_eq!(h.data, vec![9, 9]);
}
