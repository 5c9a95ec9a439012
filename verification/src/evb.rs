//! On-disk layout of the Enigma Virtual Box virtual file system (VFS).

use vstd::prelude::*;
use crate::bytes::{u32_le, read_u32_le};

verus! {

/// Distance from the magic `EVB\0` to the main VFS header.
pub const EVB_PACK_HEADER_SIZE: usize = 64;
/// Padding that follows the body of a node header.
pub const VFS_PADDING: usize = 4;
/// Length of the UTF-16LE name `%DEFAULT FOLDER%`.
pub const DEFAULT_FOLDER_LEN: usize = 32;
/// Size of a node header (`size`, eight padding bytes, `objects_count`).
pub const VFS_HEADER_SIZE: usize = 16;
/// Node type byte of a file.
pub const VFS_NODE_TYPE_FILE: u8 = 2;
/// Node type byte of a folder.
pub const VFS_NODE_TYPE_FOLDER: u8 = 3;
/// Size of the header in front of a compressed file's chunk table.
pub const VFS_CHUNK_HEADER_SIZE: u32 = 8;
/// Size of a modern file record: 2 padding bytes, `original_size`, 43 padding bytes, `stored_size`.
pub const MODERN_FILE_NODE_SIZE: usize = 53;
/// Size of a legacy file record: 2 padding bytes, `original_size`, 35 padding bytes,
/// `stored_size`, 4 padding bytes.
pub const LEGACY_FILE_NODE_SIZE: usize = 49;

/// The magic that precedes the packed data.
pub open spec fn evb_magic() -> Seq<u8> {
    seq![0x45u8, 0x56u8, 0x42u8, 0u8]
}

/// `%DEFAULT FOLDER%` in UTF-16LE.
pub open spec fn default_folder_bytes() -> Seq<u8> {
    seq![
        0x25u8, 0u8, 0x44u8, 0u8, 0x45u8, 0u8, 0x46u8, 0u8, 0x41u8, 0u8, 0x55u8, 0u8, 0x4cu8, 0u8,
        0x54u8, 0u8, 0x20u8, 0u8, 0x46u8, 0u8, 0x4fu8, 0u8, 0x4cu8, 0u8, 0x44u8, 0u8, 0x45u8, 0u8,
        0x52u8, 0u8, 0x25u8, 0u8,
    ]
}

/// `%` in UTF-16LE: the first character of every root folder name.
pub open spec fn percent_utf16() -> Seq<u8> {
    seq![0x25u8, 0u8]
}

/// Whether `s[at..at + 32]` is `%DEFAULT FOLDER%` in UTF-16LE.
pub fn is_default_folder_at(s: &[u8], at: usize) -> (r: bool)
    requires
        at + DEFAULT_FOLDER_LEN <= s.len(),
    ensures
        r == (s@.subrange(at as int, at + DEFAULT_FOLDER_LEN) == default_folder_bytes()),
{
    let expected: [u8; 16] = [0x25, 0x44, 0x45, 0x46, 0x41, 0x55, 0x4c, 0x54, 0x20, 0x46, 0x4f, 0x4c,
        0x44, 0x45, 0x52, 0x25];
    let ghost want = default_folder_bytes();
    assert forall|j: int| 0 <= j < 16 implies #[trigger] want[2 * j] == expected@[j] && want[2 * j + 1]
        == 0 by {
        assert(want[0] == 0x25 && want[1] == 0 && want[2] == 0x44 && want[3] == 0);
        assert(want[4] == 0x45 && want[5] == 0 && want[6] == 0x46 && want[7] == 0);
        assert(want[8] == 0x41 && want[9] == 0 && want[10] == 0x55 && want[11] == 0);
        assert(want[12] == 0x4c && want[13] == 0 && want[14] == 0x54 && want[15] == 0);
        assert(want[16] == 0x20 && want[17] == 0 && want[18] == 0x46 && want[19] == 0);
        assert(want[20] == 0x4f && want[21] == 0 && want[22] == 0x4c && want[23] == 0);
        assert(want[24] == 0x44 && want[25] == 0 && want[26] == 0x45 && want[27] == 0);
        assert(want[28] == 0x52 && want[29] == 0 && want[30] == 0x25 && want[31] == 0);
    }
    let mut i: usize = 0;
    while i < 16
        invariant
            i <= 16,
            at + DEFAULT_FOLDER_LEN <= s.len(),
            want == default_folder_bytes(),
            forall|j: int| 0 <= j < 16 ==> #[trigger] want[2 * j] == expected@[j] && want[2 * j + 1]
                == 0,
            forall|j: int| 0 <= j < 2 * i ==> s@[at + j] == want[j],
        decreases 16 - i,
    {
        proof {
            assert(want[2 * i] == expected@[i as int] && want[2 * i + 1] == 0);
        }
        if s[at + 2 * i] != expected[i] || s[at + 2 * i + 1] != 0 {
            proof {
                let sub = s@.subrange(at as int, at + DEFAULT_FOLDER_LEN);
                assert(sub[2 * i] == s@[at + 2 * i]);
                assert(sub[2 * i + 1] == s@[at + 2 * i + 1]);
                assert(sub[2 * i] != want[2 * i] || sub[2 * i + 1] != want[2 * i + 1]);
            }
            return false;
        }
        proof {
            assert(want[2 * i] == expected@[i as int] && want[2 * i + 1] == 0);
        }
        i += 1;
    }
    assert(s@.subrange(at as int, at + DEFAULT_FOLDER_LEN) =~= want);
    true
}

/// Placement of one stored file.
#[derive(Debug, Clone, Copy)]
pub struct FileNode {
    pub(crate) original_size: u32,
    pub(crate) stored_size: u32,
    pub(crate) offset: u64,
}

/// The values held by a [`FileNode`].
pub struct FileNodeView {
    pub original_size: u32,
    pub stored_size: u32,
    pub offset: u64,
}

impl View for FileNode {
    type V = FileNodeView;

    closed spec fn view(&self) -> FileNodeView {
        FileNodeView {
            original_size: self.original_size,
            stored_size: self.stored_size,
            offset: self.offset,
        }
    }
}

impl FileNode {
    pub fn new(original_size: u32, stored_size: u32, offset: u64) -> (f: FileNode)
        ensures
            f@ == (FileNodeView { original_size, stored_size, offset }),
    {
        FileNode { original_size, stored_size, offset }
    }

    /// Absolute position of the stored data in the packed file.
    pub fn offset(&self) -> (r: u64)
        ensures
            r == self@.offset,
    {
        self.offset
    }

    /// Size of the file once unpacked.
    pub fn original_size(&self) -> (r: u32)
        ensures
            r == self@.original_size,
    {
        self.original_size
    }

    /// Number of bytes the file occupies in the packed file.
    pub fn stored_size(&self) -> (r: u32)
        ensures
            r == self@.stored_size,
    {
        self.stored_size
    }

    /// A file is stored compressed exactly when its stored size differs from its size.
    pub fn is_compressed(&self) -> (r: bool)
        ensures
            r == (self@.stored_size != self@.original_size),
    {
        self.stored_size != self.original_size
    }
}

/// A node of the virtual file system: node header, name and, for a file, its placement.
#[derive(Debug)]
pub struct VfsNode {
    pub name: String,
    pub size: u32,
    pub objects_count: u32,
    pub is_folder: bool,
    pub file: Option<FileNode>,
}

/// The values held by a [`VfsNode`].
pub struct VfsNodeView {
    pub name: Seq<char>,
    pub size: u32,
    pub objects_count: u32,
    pub is_folder: bool,
    pub file: Option<FileNodeView>,
}

impl View for VfsNode {
    type V = VfsNodeView;

    open spec fn view(&self) -> VfsNodeView {
        VfsNodeView {
            name: self.name@,
            size: self.size,
            objects_count: self.objects_count,
            is_folder: self.is_folder,
            file: match self.file {
                Some(f) => Some(f@),
                None => None,
            },
        }
    }
}

impl VfsNodeView {
    pub open spec fn is_compressed(self) -> bool {
        match self.file {
            Some(f) => f.original_size != f.stored_size,
            None => false,
        }
    }
}

impl VfsNode {
    /// A node is compressed when it holds a file whose stored size differs from its size.
    pub fn is_compressed(&self) -> (r: bool)
        ensures
            r == self@.is_compressed(),
    {
        match &self.file {
            Some(f) => f.original_size != f.stored_size,
            None => false,
        }
    }
}

/// Node header: `size` (u32), eight padding bytes, `objects_count` (u32).
pub struct VfsHeader {
    pub size: u32,
    pub objects_count: u32,
}

pub open spec fn spec_vfs_header(s: Seq<u8>, at: int) -> VfsHeader {
    VfsHeader { size: u32_le(s, at), objects_count: u32_le(s, at + 12) }
}

pub fn read_vfs_header(s: &[u8], at: usize) -> (h: VfsHeader)
    requires
        at + VFS_HEADER_SIZE <= s.len(),
    ensures
        h == spec_vfs_header(s@, at as int),
{
    VfsHeader { size: read_u32_le(s, at), objects_count: read_u32_le(s, at + 12) }
}

/// Sizes recorded in a file record.
pub struct FileRecord {
    pub original_size: u32,
    pub stored_size: u32,
}

pub open spec fn spec_modern_file_record(s: Seq<u8>, at: int) -> FileRecord {
    FileRecord { original_size: u32_le(s, at + 2), stored_size: u32_le(s, at + 49) }
}

pub open spec fn spec_legacy_file_record(s: Seq<u8>, at: int) -> FileRecord {
    FileRecord { original_size: u32_le(s, at + 2), stored_size: u32_le(s, at + 41) }
}

pub fn read_modern_file_record(s: &[u8], at: usize) -> (r: FileRecord)
    requires
        at + MODERN_FILE_NODE_SIZE <= s.len(),
    ensures
        r == spec_modern_file_record(s@, at as int),
{
    FileRecord { original_size: read_u32_le(s, at + 2), stored_size: read_u32_le(s, at + 49) }
}

pub fn read_legacy_file_record(s: &[u8], at: usize) -> (r: FileRecord)
    requires
        at + LEGACY_FILE_NODE_SIZE <= s.len(),
    ensures
        r == spec_legacy_file_record(s@, at as int),
{
    FileRecord { original_size: read_u32_le(s, at + 2), stored_size: read_u32_le(s, at + 41) }
}

} // verus!
