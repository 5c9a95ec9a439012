use evbunpack_core::evb::{FileNode, VfsNode};
use evbunpack_core::vfs::compressed::{finish_decompression, PlanTail};
use evbunpack_core::vfs::{IoError, SizeMismatch, Unpacker, UnpackerError};

fn utf16(s: &str) -> Vec<u8> {
    s.encode_utf16().flat_map(|u| u.to_le_bytes()).collect()
}

fn node(size: u32, objects: u32, name: &[u8], kind: u8) -> Vec<u8> {
    let mut v = Vec::new();
    v.extend_from_slice(&size.to_le_bytes());
    v.extend_from_slice(&[0u8; 8]);
    v.extend_from_slice(&objects.to_le_bytes());
    v.extend_from_slice(name);
    v.extend_from_slice(&[0, 0, kind]);
    v
}

fn modern_record(original: u32, stored: u32) -> Vec<u8> {
    let mut v = vec![0u8; 2];
    v.extend_from_slice(&original.to_le_bytes());
    v.extend_from_slice(&[0u8; 43]);
    v.extend_from_slice(&stored.to_le_bytes());
    v
}

fn legacy_record(original: u32, stored: u32) -> Vec<u8> {
    let mut v = vec![0u8; 2];
    v.extend_from_slice(&original.to_le_bytes());
    v.extend_from_slice(&[0u8; 35]);
    v.extend_from_slice(&stored.to_le_bytes());
    v.extend_from_slice(&[0u8; 4]);
    v
}

const PREFIX: usize = 8;
const MAIN: usize = PREFIX + 64;

/// A modern layout: root folder with `a.txt` (5 bytes) and `dir` holding `b.bin` (3 bytes).
fn modern_blob_with(name_a: &[u8], kind_a: u8) -> Vec<u8> {
    let mut v = vec![0xAAu8; PREFIX];
    v.extend_from_slice(b"EVB\0");
    v.extend_from_slice(&[0u8; 60]);
    assert_eq!(v.len(), MAIN);
    // main header: size 308, padding, objects_count 1 (its last byte is the root's first)
    v.extend_from_slice(&308u32.to_le_bytes());
    v.extend_from_slice(&[0u8; 8]);
    v.extend_from_slice(&[1, 0, 0]);
    // root folder, starting at MAIN + 15 with a size whose low byte is 0
    v.extend_from_slice(&node(0x100, 2, &utf16("%DEFAULT FOLDER%"), 3));
    v.extend_from_slice(&[0u8; 25]);
    v.extend_from_slice(&node(7, 0, name_a, kind_a));
    v.extend_from_slice(&modern_record(5, 5));
    v.extend_from_slice(&node(9, 1, &utf16("dir"), 3));
    v.extend_from_slice(&[0u8; 25]);
    v.extend_from_slice(&node(11, 0, &utf16("b.bin"), 2));
    v.extend_from_slice(&modern_record(3, 3));
    while v.len() < MAIN + 312 {
        v.push(0);
    }
    v.extend_from_slice(b"hello");
    v.extend_from_slice(b"xyz");
    while v.len() < MAIN + 400 {
        v.push(0);
    }
    v
}

fn modern_blob() -> Vec<u8> {
    modern_blob_with(&utf16("a.txt"), 2)
}

#[test]
fn modern_layout_lists_nodes_in_order() {
    let data = modern_blob();
    let u = Unpacker::new(&data).unwrap();
    let keys: Vec<&str> = u.files().keys().map(|k| k.as_str()).collect();
    assert_eq!(keys, vec!["", "a.txt", "dir", "dir/b.bin"]);
    let root = u.get_node("").unwrap();
    assert!(root.is_folder);
    assert_eq!(root.name, "");
    assert_eq!(root.objects_count, 2);
    assert!(root.file.is_none());
}

#[test]
fn modern_files_are_back_to_back_after_the_header_block() {
    let data = modern_blob();
    let u = Unpacker::new(&data).unwrap();
    let a = u.get_node("a.txt").unwrap();
    let b = u.get_node("dir/b.bin").unwrap();
    assert_eq!(a.file.unwrap().offset(), (MAIN + 312) as u64);
    assert_eq!(b.file.unwrap().offset(), (MAIN + 317) as u64);
    assert_eq!(u.get_raw_file_data(a), Some(&b"hello"[..]));
    assert_eq!(u.get_raw_file_data(b), Some(&b"xyz"[..]));
    assert!(!a.is_compressed());
}

#[test]
fn raw_data_of_a_folder_is_none() {
    let data = modern_blob();
    let u = Unpacker::new(&data).unwrap();
    let d = u.get_node("dir").unwrap();
    assert!(d.is_folder);
    assert_eq!(u.get_raw_file_data(d), None);
    assert!(u.get_node("missing").is_none());
}

#[test]
fn every_listed_path_finds_its_node() {
    let data = modern_blob();
    let u = Unpacker::new(&data).unwrap();
    for (path, node) in u.files() {
        let found = u.get_node(path).unwrap();
        assert_eq!(found.name, node.name);
        assert_eq!(found.is_folder, node.is_folder);
        assert_eq!(found.file.map(|f| f.offset()), node.file.map(|f| f.offset()));
    }
}

#[test]
fn paths_are_compared_by_component() {
    let data = modern_blob();
    let u = Unpacker::new(&data).unwrap();
    assert!(u.get_node("dir/").unwrap().is_folder);
    assert_eq!(u.get_node("dir//b.bin").unwrap().name, "b.bin");
    assert_eq!(u.get_node("dir/./b.bin").unwrap().name, "b.bin");
    assert_eq!(u.get_node("a.txt/.").unwrap().name, "a.txt");
    assert!(u.get_node("./a.txt").is_none());
    assert!(u.get_node("/a.txt").is_none());
    assert!(u.get_node(".").is_none());
    assert!(u.get_node("dir/../a.txt").is_none());
    assert_eq!(u.get_node("").unwrap().objects_count, 2);
}

#[test]
fn packed_data_is_the_input() {
    let data = modern_blob();
    let u = Unpacker::new(&data).unwrap();
    assert_eq!(u.packed_data(), &data[..]);
}

#[test]
fn legacy_layout_places_data_after_each_record() {
    let mut v = vec![0u8; PREFIX];
    v.extend_from_slice(b"EVB\0");
    v.extend_from_slice(&[0u8; 60]);
    v.extend_from_slice(&12u32.to_le_bytes());
    v.extend_from_slice(&[0u8; 8]);
    v.extend_from_slice(&1u32.to_le_bytes());
    v.extend_from_slice(&node(47, 1, &utf16("%DEFAULT FOLDER%"), 3));
    v.extend_from_slice(&node(40, 0, &utf16("c.dat"), 2));
    v.extend_from_slice(&legacy_record(4, 4));
    v.extend_from_slice(b"DATA");
    v.extend_from_slice(&[0u8; 16]);
    let u = Unpacker::new(&v).unwrap();
    let keys: Vec<&str> = u.files().keys().map(|k| k.as_str()).collect();
    assert_eq!(keys, vec!["", "c.dat"]);
    let c = u.get_node("c.dat").unwrap();
    assert_eq!(c.file.unwrap().offset(), (MAIN + 16 + 51 + 29 + 49) as u64);
    assert_eq!(u.get_raw_file_data(c), Some(&b"DATA"[..]));
}

#[test]
fn no_magic_is_an_error() {
    let data = vec![0u8; 200];
    assert_eq!(Unpacker::new(&data).err(), Some(UnpackerError::MagicNotFound));
}

#[test]
fn more_than_one_root_folder_is_refused() {
    let mut data = modern_blob();
    data[MAIN + 12] = 2;
    assert_eq!(Unpacker::new(&data).err(), Some(UnpackerError::MultipleRootFolders));
}

#[test]
fn unknown_layout_is_invalid() {
    let mut data = modern_blob();
    data[MAIN + 31] = b'#';
    assert_eq!(Unpacker::new(&data).err(), Some(UnpackerError::InvalidVfs));
}

#[test]
fn other_root_folder_is_not_supported() {
    let mut data = modern_blob();
    data[MAIN + 33] = b'X';
    assert_eq!(Unpacker::new(&data).err(), Some(UnpackerError::RootFolderNotSupported));
}

#[test]
fn separators_in_names_are_refused() {
    let data = modern_blob_with(&utf16("a/b.t"), 2);
    assert_eq!(Unpacker::new(&data).err(), Some(UnpackerError::InvalidCharacter));
    let data = modern_blob_with(&utf16("c:x.t"), 2);
    assert_eq!(Unpacker::new(&data).err(), Some(UnpackerError::InvalidCharacter));
}

#[test]
fn relative_names_are_refused() {
    let data = modern_blob_with(&utf16(".."), 2);
    assert_eq!(Unpacker::new(&data).err(), Some(UnpackerError::RelativePath));
}

#[test]
fn unknown_node_type_is_refused() {
    let data = modern_blob_with(&utf16("a.txt"), 7);
    assert_eq!(Unpacker::new(&data).err(), Some(UnpackerError::UnknownNodeType));
}

/// The modern blob cut after the root folder, followed by a node for a file whose
/// name is long enough to carry the node past the layout probes.
fn long_name_prefix() -> Vec<u8> {
    let data = modern_blob();
    let mut v = data[..MAIN + 91].to_vec();
    v.extend_from_slice(&7u32.to_le_bytes());
    v.extend_from_slice(&[0u8; 8]);
    v.extend_from_slice(&0u32.to_le_bytes());
    v.extend_from_slice(&utf16(&"a".repeat(130)));
    v.extend_from_slice(&[0, 0]);
    assert!(v.len() > MAIN + 360);
    v
}

#[test]
fn truncated_records_are_errors() {
    let mut v = long_name_prefix();
    v.push(2);
    v.extend_from_slice(&[0u8; 10]);
    assert_eq!(Unpacker::new(&v).err(), Some(UnpackerError::Serialize));
}

#[test]
fn missing_terminator_and_type_byte() {
    let data = modern_blob();
    // the name of `a.txt` runs to the end: no terminator
    let start = MAIN + 91 + 16;
    let mut v = data[..start].to_vec();
    v.extend_from_slice(&[0x41, 0x00, 0x42]);
    while v.len() < MAIN + 400 {
        v.push(0x41);
    }
    assert_eq!(Unpacker::new(&v).err(), Some(UnpackerError::NullTerminatorNotFound));
    // the name ends with the data: no type byte
    let w = long_name_prefix();
    assert_eq!(Unpacker::new(&w).err(), Some(UnpackerError::Io(IoError::UnexpectedEof)));
}

#[test]
fn reading_that_would_abort_is_reported() {
    let mut v = vec![0u8; 10];
    v.extend_from_slice(b"EVB\0");
    v.extend_from_slice(&[0u8; 20]);
    assert!(Unpacker::try_new(&v).is_none());
}

fn compressed_blob() -> (Vec<u8>, usize, usize) {
    let mut data = modern_blob();
    let multi = data.len();
    data.extend_from_slice(&24u32.to_le_bytes());
    data.extend_from_slice(&[0u8; 4]);
    let mut table = vec![0u8; 16];
    table[0..4].copy_from_slice(&3u32.to_le_bytes());
    table[12..16].copy_from_slice(&2u32.to_le_bytes());
    data.extend_from_slice(&table);
    data.extend_from_slice(&[1, 2, 3, 4, 5]);
    let single = data.len();
    data.extend_from_slice(&12u32.to_le_bytes());
    data.extend_from_slice(&[0u8; 4]);
    data.extend_from_slice(&6u32.to_le_bytes());
    data.extend_from_slice(&[9u8; 6]);
    (data, multi, single)
}

fn file_node(original: u32, stored: u32, offset: u64) -> VfsNode {
    VfsNode {
        name: String::from("z"),
        size: 0,
        objects_count: 0,
        is_folder: false,
        file: Some(FileNode::new(original, stored, offset)),
    }
}

#[test]
fn chunk_table_plan_lists_chunks_back_to_back() {
    let (data, multi, _) = compressed_blob();
    let u = Unpacker::new(&data).unwrap();
    let node = file_node(10, 29, multi as u64);
    assert!(node.is_compressed());
    let plan = u.decompression_plan(&node).unwrap().unwrap();
    let first = multi + 24;
    assert_eq!(plan.chunks, vec![(first, 3), (first + 3, 2)]);
    assert_eq!(plan.tail, PlanTail::Checked { total: 5, expected_total: 5, original_size: 10 });
}

#[test]
fn single_chunk_plan() {
    let (data, _, single) = compressed_blob();
    let u = Unpacker::new(&data).unwrap();
    let node = file_node(100, 18, single as u64);
    let plan = u.decompression_plan(&node).unwrap().unwrap();
    assert_eq!(plan.chunks, vec![(single + 12, 6)]);
    assert_eq!(plan.tail, PlanTail::Single);
}

#[test]
fn uncompressed_file_has_no_plan() {
    let (data, multi, _) = compressed_blob();
    let u = Unpacker::new(&data).unwrap();
    let node = file_node(29, 29, multi as u64);
    assert!(u.decompression_plan(&node).unwrap().is_none());
}

#[test]
fn chunk_outside_the_data_aborts() {
    let (mut data, _, single) = compressed_blob();
    data[single + 8] = 200;
    let u = Unpacker::new(&data).unwrap();
    let node = file_node(100, 18, single as u64);
    let plan = u.decompression_plan(&node).unwrap().unwrap();
    assert!(plan.chunks.is_empty());
    assert_eq!(plan.tail, PlanTail::Aborts);
}

#[test]
fn chunk_header_past_the_end_is_an_error() {
    let (data, _, _) = compressed_blob();
    let u = Unpacker::new(&data).unwrap();
    let node = file_node(10, 29, (data.len() - 4) as u64);
    assert_eq!(u.decompression_plan(&node).err(), Some(UnpackerError::Serialize));
}

#[test]
fn finishing_checks_both_sizes() {
    let ok = PlanTail::Checked { total: 5, expected_total: 5, original_size: 10 };
    assert_eq!(finish_decompression(&ok, 10), Ok(()));
    assert_eq!(
        finish_decompression(&ok, 9),
        Err(UnpackerError::SizeMismatch(SizeMismatch::DecompressedSize))
    );
    let bad = PlanTail::Checked { total: 4, expected_total: 5, original_size: 10 };
    assert_eq!(
        finish_decompression(&bad, 10),
        Err(UnpackerError::SizeMismatch(SizeMismatch::TotalChunkSize))
    );
    assert_eq!(finish_decompression(&PlanTail::Single, 3), Ok(()));
}

#[test]
fn file_node_accessors() {
    let f = FileNode::new(10, 4, 100);
    assert!(f.is_compressed());
    assert_eq!(f.offset(), 100);
    assert_eq!(f.original_size(), 10);
    assert_eq!(f.stored_size(), 4);
    assert!(!FileNode::new(4, 4, 0).is_compressed());
    let folder = VfsNode { name: String::new(), size: 0, objects_count: 0, is_folder: true, file: None };
    assert!(!folder.is_compressed());
}
