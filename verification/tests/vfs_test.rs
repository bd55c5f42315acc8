use vfs::block::Block;
use vfs::block::Empty;
use vfs::block::FileData;
use vfs::block::FileHeader;
use vfs::block::Folder;
use vfs::vfs::VFS;
use vfs::vfs::VFSError;

fn root(next_file: u8) -> Block {
    Block::Folder(Folder {
        next_available: 0,
        next_bad: 0,
        next_file,
        name: b"vol".to_vec(),
        rest: vec![],
    })
}

fn hello_world_disk() -> VFS {
    VFS {
        blocks: vec![
            root(1),
            Block::FileHeader(FileHeader {
                next_file: 0,
                next_data: 2,
                name: b"hello.txt".to_vec(),
                data: vec![b'h', b'e', b'l', 0],
            }),
            Block::FileData(FileData {
                next_data: 3,
                data: b"lo wo".to_vec(),
            }),
            Block::FileData(FileData {
                next_data: 0,
                data: vec![b'r', b'l', b'd', 0, 0],
            }),
        ],
    }
}

#[test]
fn create_rejects_bad_geometry() {
    assert_eq!(
        VFS::new("a", 4, 9).unwrap_err(),
        VFSError::ColumnsTooSmall
    );
    assert_eq!(
        VFS::new("a", 4, 13).unwrap_err(),
        VFSError::ColumnsNotEven
    );
    assert_eq!(VFS::new("a", 1, 12).unwrap_err(), VFSError::RowsTooSmall);
    assert_eq!(
        VFS::new("toolong", 4, 12).unwrap_err(),
        VFSError::VolumeNameTooLarge
    );
}

#[test]
fn create_builds_free_list() {
    let disk = VFS::new("ab", 4, 14).unwrap();
    assert_eq!(disk.blocks.len(), 4);
    match &disk.blocks[0] {
        Block::Folder(f) => {
            assert_eq!(f.next_available, 1);
            assert_eq!(f.next_bad, 0);
            assert_eq!(f.next_file, 0);
            assert_eq!(f.name, b"ab".to_vec());
            assert_eq!(f.rest, Vec::<u8>::new());
        }
        _ => panic!("block 0 must be the root folder"),
    }
    for i in 1..4usize {
        match &disk.blocks[i] {
            Block::Empty(e) => {
                let expected = if i == 3 { 0 } else { (i + 1) as u8 };
                assert_eq!(e.next_file, expected);
                assert_eq!(e.data, vec![0, 0, 0, 0, 0]);
            }
            _ => panic!("blocks 1.. must be empty"),
        }
    }
}

#[test]
fn created_disk_round_trips_through_text() {
    let disk = VFS::new("a", 2, 12).unwrap();
    let text = disk.print();
    assert_eq!(
        text,
        "XX: \nXX:0123456789AB\n00:001000061000\n01:100000000000\n"
    );
    let back = VFS::parse(&text).unwrap();
    assert_eq!(back.print(), text);
}

#[test]
fn get_files_lists_headers_in_chain_order() {
    let disk = VFS {
        blocks: vec![
            root(1),
            Block::FileHeader(FileHeader {
                next_file: 2,
                next_data: 0,
                name: b"a".to_vec(),
                data: vec![0],
            }),
            Block::Empty(Empty {
                next_file: 3,
                data: vec![0],
            }),
            Block::FileHeader(FileHeader {
                next_file: 0,
                next_data: 0,
                name: b"b".to_vec(),
                data: vec![0],
            }),
        ],
    };
    let files = disk.get_files();
    assert_eq!(files.len(), 2);
    assert_eq!(files[0], (String::from("a"), 1));
    assert_eq!(files[1], (String::from("b"), 3));
}

#[test]
fn walk_stops_at_non_directory_block() {
    let disk = VFS {
        blocks: vec![
            root(1),
            Block::FileHeader(FileHeader {
                next_file: 2,
                next_data: 0,
                name: b"a".to_vec(),
                data: vec![0],
            }),
            Block::Damaged(Empty {
                next_file: 0,
                data: vec![0],
            }),
        ],
    };
    let files = disk.get_files();
    assert_eq!(files.len(), 1);
    assert_eq!(files[0], (String::from("a"), 1));
}

#[test]
fn cat_file_reconstructs_content() {
    let disk = hello_world_disk();
    assert_eq!(disk.cat_file("hello.txt").unwrap(), "hello world");
}

#[test]
fn cat_file_missing_name() {
    let disk = hello_world_disk();
    assert_eq!(
        disk.cat_file("nonexistent.txt").unwrap_err(),
        VFSError::FileNotFound
    );
    // The disk is untouched: the file is still there afterwards.
    assert_eq!(disk.cat_file("hello.txt").unwrap(), "hello world");
}

#[test]
fn cat_file_broken_chain() {
    let disk = VFS {
        blocks: vec![
            root(1),
            Block::FileHeader(FileHeader {
                next_file: 0,
                next_data: 2,
                name: b"x".to_vec(),
                data: vec![b'x', 0],
            }),
            Block::Empty(Empty {
                next_file: 0,
                data: vec![0],
            }),
        ],
    };
    assert_eq!(disk.cat_file("x").unwrap_err(), VFSError::DataNotFound);
}

#[test]
fn parse_empty_inputs() {
    assert_eq!(VFS::parse("").unwrap_err(), VFSError::EmptyDisk);
    assert_eq!(
        VFS::parse("header one\nheader two").unwrap_err(),
        VFSError::EmptyDisk
    );
}

#[test]
fn parse_short_third_data_line() {
    let text = "XX: \nXX:0123456789AB\n00:001000061000\n01:100000000000\n02:12";
    assert_eq!(VFS::parse(text).unwrap_err(), VFSError::LineTooShort);
}

#[test]
fn parse_unknown_block_type_line() {
    let text = "XX: \nXX:0123456789AB\n00:900000000000";
    assert_eq!(VFS::parse(text).unwrap_err(), VFSError::UnknownBlockType);
}

#[test]
fn disk_usage_counts_used_blocks() {
    let fresh = VFS::new("vol", 5, 20).unwrap();
    assert_eq!(fresh.disk_usage(), 1);
    let used = hello_world_disk();
    assert_eq!(used.disk_usage(), 4);
}

#[test]
fn error_messages_match_kinds() {
    assert_eq!(
        VFSError::ColumnsNotEven.message(),
        "cols is not divisible by 2"
    );
    assert_eq!(
        VFSError::FileNotFound.message(),
        "file in vfs was not found"
    );
    assert_eq!(VFSError::DataNotFound.message(), "disk is missing data");
}
