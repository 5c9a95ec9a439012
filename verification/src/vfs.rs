//! Walking the virtual file system of a packed executable.

use vstd::prelude::*;

pub mod compressed;
use indexmap::IndexMap;
use crate::bytes::u32_le;
use crate::evb::{
    default_folder_bytes, evb_magic, is_default_folder_at, percent_utf16, read_legacy_file_record,
    read_modern_file_record, read_vfs_header, spec_legacy_file_record, spec_modern_file_record,
    spec_vfs_header, FileNode, FileNodeView, VfsNode, VfsNodeView, DEFAULT_FOLDER_LEN,
    EVB_PACK_HEADER_SIZE, LEGACY_FILE_NODE_SIZE, MODERN_FILE_NODE_SIZE, VFS_HEADER_SIZE,
    VFS_NODE_TYPE_FILE, VFS_NODE_TYPE_FOLDER, VFS_PADDING,
};
use crate::outside::{
    decode_utf16le, has_key, key_index, map_insert, map_lookup, path_map_entries, path_map_get,
    path_map_insert, path_map_new, utf16le_decode,
};

verus! {

/// What went wrong while reading the underlying bytes as a stream.
#[derive(Debug, Clone, Copy, PartialEq, Eq, Structural)]
pub enum IoError {
    /// A read ran past the end of the data.
    UnexpectedEof,
    /// A seek would have moved the position past `u64::MAX`.
    InvalidSeek,
}

/// Which size check failed.
#[derive(Debug, Clone, Copy, PartialEq, Eq, Structural)]
pub enum SizeMismatch {
    TotalChunkSize,
    DecompressedSize,
}

#[derive(Debug, Clone, Copy, PartialEq, Eq, Structural)]
pub enum UnpackerError {
    /// A fixed-size record ran past the end of the data.
    Serialize,
    NullTerminatorNotFound,
    Io(IoError),
    UnknownNodeType,
    MagicNotFound,
    RootFolderNotSupported,
    InvalidVfs,
    InvalidCharacter,
    RelativePath,
    MultipleRootFolders,
    SizeMismatch(SizeMismatch),
}

pub type Entries = Seq<(Seq<char>, VfsNodeView)>;

// ---------------------------------------------------------------------------------------
// Searches

/// Position of the first `EVB\0` that starts at or after `i`.
pub open spec fn magic_from(s: Seq<u8>, i: int) -> Option<int>
    decreases s.len() - i,
{
    if i < 0 || i + 4 > s.len() {
        None
    } else if s.subrange(i, i + 4) == evb_magic() {
        Some(i)
    } else {
        magic_from(s, i + 1)
    }
}

/// Index `k` of the first two-byte unit `s[start + 2k], s[start + 2k + 1]` that is `0, 0`,
/// searching from unit `k` on.
pub open spec fn zero_unit_from(s: Seq<u8>, start: int, k: int) -> Option<int>
    decreases s.len() - (start + 2 * k),
{
    if k < 0 || start < 0 || start + 2 * k + 2 > s.len() {
        None
    } else if s[start + 2 * k] == 0 && s[start + 2 * k + 1] == 0 {
        Some(k)
    } else {
        zero_unit_from(s, start, k + 1)
    }
}

pub proof fn lemma_zero_unit_bounds(s: Seq<u8>, start: int, k: int)
    ensures
        zero_unit_from(s, start, k) matches Some(j) ==> k <= j && start + 2 * j + 2 <= s.len()
            && s[start + 2 * j] == 0 && s[start + 2 * j + 1] == 0,
    decreases s.len() - (start + 2 * k),
{
    if !(k < 0 || start < 0 || start + 2 * k + 2 > s.len()) {
        if !(s[start + 2 * k] == 0 && s[start + 2 * k + 1] == 0) {
            lemma_zero_unit_bounds(s, start, k + 1);
        }
    }
}

proof fn lemma_magic_bounds(s: Seq<u8>, i: int)
    ensures
        magic_from(s, i) matches Some(j) ==> i <= j && j + 4 <= s.len(),
    decreases s.len() - i,
{
    if !(i < 0 || i + 4 > s.len()) && s.subrange(i, i + 4) != evb_magic() {
        lemma_magic_bounds(s, i + 1);
    }
}

/// Finds the position of the first `EVB\0`.
fn find_magic(s: &[u8]) -> (r: Option<usize>)
    ensures
        r matches Some(p) ==> magic_from(s@, 0) == Some(p as int),
        r is None ==> magic_from(s@, 0) is None,
{
    let len = s.len();
    if len < 4 {
        return None;
    }
    let mut i: usize = 0;
    while i <= len - 4
        invariant
            len == s@.len(),
            len >= 4,
            i + 4 <= len + 1,
            magic_from(s@, 0) == magic_from(s@, i as int),
        decreases len - i,
    {
        if s[i] == 0x45 && s[i + 1] == 0x56 && s[i + 2] == 0x42 && s[i + 3] == 0 {
            assert(s@.subrange(i as int, i + 4) =~= evb_magic());
            return Some(i);
        }
        assert(s@.subrange(i as int, i + 4) != evb_magic()) by {
            if s@.subrange(i as int, i + 4) =~= evb_magic() {
                assert(s@.subrange(i as int, i + 4)[0] == s@[i as int]);
                assert(s@.subrange(i as int, i + 4)[1] == s@[i + 1]);
                assert(s@.subrange(i as int, i + 4)[2] == s@[i + 2]);
                assert(s@.subrange(i as int, i + 4)[3] == s@[i + 3]);
            }
        }
        i += 1;
    }
    None
}

/// Finds the first two-byte unit `0, 0` at or after `start`, as a unit index.
fn find_zero_unit(s: &[u8], start: usize) -> (r: Option<usize>)
    requires
        start <= s@.len(),
    ensures
        r matches Some(k) ==> zero_unit_from(s@, start as int, 0) == Some(k as int),
        r is None ==> zero_unit_from(s@, start as int, 0) is None,
{
    let len = s.len();
    let mut k: usize = 0;
    while 2 <= len - start && k <= (len - start - 2) / 2
        invariant
            len == s@.len(),
            start <= len,
            2 * k <= len - start + 1,
            zero_unit_from(s@, start as int, 0) == zero_unit_from(s@, start as int, k as int),
        decreases len - start - 2 * k,
    {
        if s[start + 2 * k] == 0 && s[start + 2 * k + 1] == 0 {
            return Some(k);
        }
        k += 1;
    }
    None
}

// ---------------------------------------------------------------------------------------
// Names

/// What becomes of a decoded node name: the root folder name is dropped, separators, drive
/// colons and relative components are refused.
pub open spec fn spec_process_file_name(name: Seq<char>) -> Result<Seq<char>, UnpackerError> {
    if name == "%DEFAULT FOLDER%"@ {
        Ok(Seq::empty())
    } else if name.contains('\\') || name.contains('/') || name.contains(':') {
        Err(UnpackerError::InvalidCharacter)
    } else if name == ".."@ || name == "."@ {
        Err(UnpackerError::RelativePath)
    } else {
        Ok(name)
    }
}

/// A name that may stand as one component of a path.
pub open spec fn valid_node_name(name: Seq<char>) -> bool {
    &&& !name.contains('\\')
    &&& !name.contains('/')
    &&& !name.contains(':')
    &&& name != ".."@
    &&& name != "."@
}

fn str_eq(a: &str, b: &str) -> (r: bool)
    ensures
        r == (a@ == b@),
{
    let n = a.unicode_len();
    if n != b.unicode_len() {
        return false;
    }
    let mut i: usize = 0;
    while i < n
        invariant
            n == a@.len(),
            n == b@.len(),
            i <= n,
            forall|j: int| 0 <= j < i ==> a@[j] == b@[j],
        decreases n - i,
    {
        if a.get_char(i) != b.get_char(i) {
            return false;
        }
        i += 1;
    }
    assert(a@ =~= b@);
    true
}

fn has_forbidden_char(s: &str) -> (r: bool)
    ensures
        r == (s@.contains('\\') || s@.contains('/') || s@.contains(':')),
{
    let n = s.unicode_len();
    let mut i: usize = 0;
    while i < n
        invariant
            n == s@.len(),
            i <= n,
            forall|j: int| 0 <= j < i ==> s@[j] != '\\' && s@[j] != '/' && s@[j] != ':',
        decreases n - i,
    {
        let c = s.get_char(i);
        if c == '\\' || c == '/' || c == ':' {
            return true;
        }
        i += 1;
    }
    false
}

fn process_file_name(name: String) -> (r: Result<String, UnpackerError>)
    ensures
        match r {
            Ok(n) => spec_process_file_name(name@) == Ok::<Seq<char>, UnpackerError>(n@),
            Err(e) => spec_process_file_name(name@) == Err::<Seq<char>, UnpackerError>(e),
        },
{
    if str_eq(name.as_str(), "%DEFAULT FOLDER%") {
        return Ok(String::new());
    }
    if has_forbidden_char(name.as_str()) {
        return Err(UnpackerError::InvalidCharacter);
    }
    if str_eq(name.as_str(), "..") || str_eq(name.as_str(), ".") {
        return Err(UnpackerError::RelativePath);
    }
    Ok(name)
}

/// `base` joined with `name`: an empty name leaves the path as it is.
pub open spec fn join_path(base: Seq<char>, name: Seq<char>) -> Seq<char> {
    if name.len() == 0 {
        base
    } else if base.len() == 0 {
        name
    } else {
        base + seq!['/'] + name
    }
}

fn join(base: &String, name: &String) -> (r: String)
    ensures
        r@ == join_path(base@, name@),
{
    if name.as_str().is_empty() {
        base.clone()
    } else if base.as_str().is_empty() {
        name.clone()
    } else {
        let mut r = base.clone();
        r.append("/");
        r.append(name.as_str());
        proof {
            reveal_strlit("/");
        }
        r
    }
}

// ---------------------------------------------------------------------------------------
// Looking a path up

/// The end of the `/`-separated part of `p` that begins at `start`: the next `/`, or the end.
pub open spec fn part_end(p: Seq<char>, start: int) -> int
    decreases p.len() - start,
{
    if start < 0 || start >= p.len() || p[start] == '/' {
        start
    } else {
        part_end(p, start + 1)
    }
}

pub proof fn lemma_part_end(p: Seq<char>, start: int)
    requires
        0 <= start <= p.len(),
    ensures
        start <= part_end(p, start) <= p.len(),
        part_end(p, start) < p.len() ==> p[part_end(p, start)] == '/',
        forall|j: int| start <= j < part_end(p, start) ==> p[j] != '/',
    decreases p.len() - start,
{
    if start < p.len() && p[start] != '/' {
        lemma_part_end(p, start + 1);
    }
}

/// The parts of `p` from `start` on, folded into the path `key`: an empty part, or a `.`
/// after the first, adds nothing; a `.` as the first part makes the path one that begins at
/// the current directory (`None`).
pub open spec fn key_from(p: Seq<char>, start: int, key: Seq<char>) -> Option<Seq<char>>
    decreases p.len() - start, 0int,
    when 0 <= start <= p.len()
{
    let end = part_end(p, start);
    let part = p.subrange(start, end);
    let next = if part.len() == 0 || (part == "."@ && start > 0) {
        Some(key)
    } else if part == "."@ {
        None
    } else {
        Some(join_path(key, part))
    };
    match next {
        None => None,
        Some(k) => if end >= p.len() {
            Some(k)
        } else {
            proof {
                lemma_part_end(p, start);
            }
            key_from(p, end + 1, k)
        },
    }
}

/// The node path that a lookup of `p` compares with the stored paths, component by
/// component: its parts without the empty ones and the inner `.`, joined by `/`. `None`
/// for a path that starts at the root or at the current directory: no stored path does.
pub open spec fn path_key(p: Seq<char>) -> Option<Seq<char>> {
    if p.len() > 0 && p[0] == '/' {
        None
    } else {
        key_from(p, 0, Seq::empty())
    }
}

proof fn lemma_part_end_skip(p: Seq<char>, start: int, i: int)
    requires
        0 <= start <= i <= p.len(),
        forall|j: int| start <= j < i ==> p[j] != '/',
    ensures
        part_end(p, start) == part_end(p, i),
    decreases i - start,
{
    if start < i {
        lemma_part_end_skip(p, start + 1, i);
    }
}

/// A path that a lookup finds as it is written.
pub open spec fn canonical_path(p: Seq<char>) -> bool {
    path_key(p) == Some(p)
}

proof fn lemma_part_end_concat(base: Seq<char>, name: Seq<char>, start: int)
    requires
        0 <= start <= base.len(),
    ensures
        part_end(base + seq!['/'] + name, start) == part_end(base, start),
    decreases base.len() - start,
{
    let p = base + seq!['/'] + name;
    assert(p[base.len() as int] == '/');
    if start < base.len() {
        assert(p[start] == base[start]);
        if base[start] != '/' {
            lemma_part_end_concat(base, name, start + 1);
        }
    }
}

proof fn lemma_key_from_concat(base: Seq<char>, name: Seq<char>, start: int, key: Seq<char>)
    requires
        0 <= start <= base.len(),
    ensures
        match key_from(base, start, key) {
            Some(k) => key_from(base + seq!['/'] + name, start, key) == key_from(
                base + seq!['/'] + name,
                base.len() + 1int,
                k,
            ),
            None => key_from(base + seq!['/'] + name, start, key) is None,
        },
    decreases base.len() - start,
{
    let p = base + seq!['/'] + name;
    lemma_part_end_concat(base, name, start);
    lemma_part_end(base, start);
    let end = part_end(base, start);
    assert(p.subrange(start, end) =~= base.subrange(start, end));
    if end < base.len() {
        let part = base.subrange(start, end);
        let next = if part.len() == 0 || (part == "."@ && start > 0) {
            Some(key)
        } else if part == "."@ {
            None
        } else {
            Some(join_path(key, part))
        };
        if let Some(k) = next {
            lemma_key_from_concat(base, name, end + 1, k);
        }
    }
}

/// Joining a valid name to a path that a lookup finds as it is gives such a path again.
pub proof fn lemma_join_canonical(base: Seq<char>, name: Seq<char>)
    requires
        canonical_path(base),
        name.len() == 0 || valid_node_name(name),
    ensures
        canonical_path(join_path(base, name)),
{
    if name.len() > 0 {
        assert(forall|j: int| 0 <= j < name.len() ==> name[j] != '/') by {
            assert forall|j: int| 0 <= j < name.len() implies name[j] != '/' by {
                if name[j] == '/' {
                    assert(name.contains('/'));
                }
            }
        }
        if base.len() == 0 {
            lemma_part_end_skip(name, 0, name.len() as int);
            assert(name.subrange(0, name.len() as int) =~= name);
        } else {
            let p = base + seq!['/'] + name;
            assert(p[0] == base[0]);
            lemma_key_from_concat(base, name, 0, Seq::empty());
            let start: int = base.len() + 1int;
            assert forall|j: int| start <= j < p.len() implies p[j] != '/' by {
                assert(p[j] == name[j - start]);
            }
            lemma_part_end_skip(p, start, p.len() as int);
            assert(p.subrange(start, p.len() as int) =~= name);
            assert(join_path(base, name) == p);
        }
    }
}

/// Every path of well-formed entries is found, by a lookup of that very path, at its node.
pub proof fn lemma_listed_paths_found(e: Entries, i: int)
    requires
        entries_wf(e),
        0 <= i < e.len(),
    ensures
        path_key(e[i].0) == Some(e[i].0),
        map_lookup(e, e[i].0) == Some(e[i].1),
{
    let k = e[i].0;
    assert(has_key(e, k));
    let j = key_index(e, k);
    if j != i {
        if j < i {
            assert(e[j].0 != e[i].0);
        } else {
            assert(e[i].0 != e[j].0);
        }
    }
}

fn path_key_of(path: &str) -> (r: Option<String>)
    ensures
        match r {
            Some(k) => path_key(path@) == Some(k@),
            None => path_key(path@) is None,
        },
{
    let n = path.unicode_len();
    if n > 0 && path.get_char(0) == '/' {
        return None;
    }
    let mut key = String::new();
    let mut start: usize = 0;
    let mut i: usize = 0;
    proof {
        assert(key@ =~= Seq::<char>::empty());
    }
    while i < n
        invariant
            n == path@.len(),
            start <= i <= n,
            forall|j: int| start <= j < i ==> path@[j] != '/',
            key_from(path@, start as int, key@) == path_key(path@),
            !(n > 0 && path@[0] == '/'),
        decreases n - i,
    {
        if path.get_char(i) == '/' {
            proof {
                lemma_part_end_skip(path@, start as int, i as int);
                lemma_part_end(path@, i as int);
            }
            let part = path.substring_char(start, i);
            let ghost old_key = key@;
            assert(part_end(path@, start as int) == i);
            if part.unicode_len() == 0 || (str_eq(part, ".") && start > 0) {
            } else if str_eq(part, ".") {
                return None;
            } else if key.as_str().is_empty() {
                key = part.to_owned();
                assert(key@ =~= join_path(old_key, part@));
            } else {
                key.append("/");
                key.append(part);
                proof {
                    reveal_strlit("/");
                    assert(key@ =~= join_path(old_key, part@));
                }
            }
            assert(key_from(path@, start as int, old_key) == key_from(path@, i + 1, key@));
            start = i + 1;
        }
        i += 1;
    }
    proof {
        lemma_part_end_skip(path@, start as int, n as int);
        lemma_part_end(path@, n as int);
    }
    let part = path.substring_char(start, n);
    let ghost old_key = key@;
    assert(part_end(path@, start as int) == n);
    if part.unicode_len() == 0 || (str_eq(part, ".") && start > 0) {
    } else if str_eq(part, ".") {
        return None;
    } else if key.as_str().is_empty() {
        key = part.to_owned();
        assert(key@ =~= join_path(old_key, part@));
    } else {
        key.append("/");
        key.append(part);
        proof {
            reveal_strlit("/");
            assert(key@ =~= join_path(old_key, part@));
        }
    }
    Some(key)
}

// ---------------------------------------------------------------------------------------
// Nodes

/// A node header with its name and type, and the stream position after the type byte.
pub struct NodeRead {
    pub node: VfsNodeView,
    pub next: int,
    /// In the legacy layout: what a folder node skips after its type byte.
    pub legacy_skip: int,
}

/// Reads the node that starts at `pos`: header, UTF-16LE name up to its `0, 0` terminator,
/// node type byte. `None` stands for an input on which the
/// size arithmetic overflows.
pub open spec fn spec_read_node(data: Seq<u8>, pos: int, is_legacy: bool) -> Option<
    Result<NodeRead, UnpackerError>,
> {
    if pos < 0 || pos + VFS_HEADER_SIZE > data.len() {
        Some(Err(UnpackerError::Serialize))
    } else {
        let header = spec_vfs_header(data, pos);
        let start = pos + VFS_HEADER_SIZE;
        match zero_unit_from(data, start, 0) {
            None => Some(Err(UnpackerError::NullTerminatorNotFound)),
            Some(k) => {
                let name_len = 2 * k;
                let type_pos = start + name_len + 2;
                if type_pos >= data.len() {
                    Some(Err(UnpackerError::Io(IoError::UnexpectedEof)))
                } else if data[type_pos] != VFS_NODE_TYPE_FILE && data[type_pos]
                    != VFS_NODE_TYPE_FOLDER {
                    Some(Err(UnpackerError::UnknownNodeType))
                } else if is_legacy && header.size + VFS_PADDING < VFS_HEADER_SIZE + name_len + 2
                    + 1 {
                    None
                } else {
                    let legacy_skip = if is_legacy {
                        header.size + VFS_PADDING - VFS_HEADER_SIZE - (name_len + 2) - 1
                    } else {
                        0
                    };
                    match spec_process_file_name(
                        utf16le_decode(data.subrange(start, start + name_len)),
                    ) {
                        Err(e) => Some(Err(e)),
                        Ok(name) => Some(
                            Ok(
                                NodeRead {
                                    node: VfsNodeView {
                                        name,
                                        size: header.size,
                                        objects_count: header.objects_count,
                                        is_folder: data[type_pos] == VFS_NODE_TYPE_FOLDER,
                                        file: None,
                                    },
                                    next: type_pos + 1,
                                    legacy_skip,
                                },
                            ),
                        ),
                    }
                }
            },
        }
    }
}

/// Where a node leaves the stream and, for a file, where its data lie.
pub struct NodePlacement {
    pub file: Option<FileNodeView>,
    pub next: int,
    /// Modern layout: absolute offset of the next file's data.
    pub data_offset: int,
}

/// After a node's type byte at `pos - 1`: skips a folder's remaining bytes, or reads a
/// file record. Modern files are stored back to back from `data_offset` on; legacy files
/// follow their record. `None` stands for an overflow of the `u64`
/// offset arithmetic.
pub open spec fn spec_place_node(
    data: Seq<u8>,
    pos: int,
    is_folder: bool,
    is_legacy: bool,
    legacy_skip: int,
    data_offset: int,
) -> Option<Result<NodePlacement, UnpackerError>> {
    if !is_legacy {
        if is_folder {
            if pos + 25 > u64::MAX {
                Some(Err(UnpackerError::Io(IoError::InvalidSeek)))
            } else {
                Some(Ok(NodePlacement { file: None, next: pos + 25, data_offset }))
            }
        } else if pos + MODERN_FILE_NODE_SIZE > data.len() {
            Some(Err(UnpackerError::Serialize))
        } else {
            let r = spec_modern_file_record(data, pos);
            if data_offset + r.stored_size > u64::MAX {
                None
            } else {
                Some(
                    Ok(
                        NodePlacement {
                            file: Some(
                                FileNodeView {
                                    original_size: r.original_size,
                                    stored_size: r.stored_size,
                                    offset: data_offset as u64,
                                },
                            ),
                            next: pos + MODERN_FILE_NODE_SIZE,
                            data_offset: data_offset + r.stored_size,
                        },
                    ),
                )
            }
        }
    } else {
        if is_folder {
            if pos + legacy_skip > u64::MAX {
                Some(Err(UnpackerError::Io(IoError::InvalidSeek)))
            } else {
                Some(Ok(NodePlacement { file: None, next: pos + legacy_skip, data_offset }))
            }
        } else if pos + LEGACY_FILE_NODE_SIZE > data.len() {
            Some(Err(UnpackerError::Serialize))
        } else {
            let r = spec_legacy_file_record(data, pos);
            let at = pos + LEGACY_FILE_NODE_SIZE;
            if at + r.stored_size > u64::MAX {
                Some(Err(UnpackerError::Io(IoError::InvalidSeek)))
            } else {
                Some(
                    Ok(
                        NodePlacement {
                            file: Some(
                                FileNodeView {
                                    original_size: r.original_size,
                                    stored_size: r.stored_size,
                                    offset: at as u64,
                                },
                            ),
                            next: at + r.stored_size,
                            data_offset,
                        },
                    ),
                )
            }
        }
    }
}

/// In the modern layout a file's stored bytes begin at the running data offset, and the next
/// file's begin right after them: the data offset grows by the stored size that the file
/// record gives (at 49 bytes into it), whatever the original size (at 2 bytes into it) is.
pub proof fn lemma_modern_files_back_to_back(data: Seq<u8>, pos: int, skip: int, data_offset: int)
    requires
        0 <= pos,
        0 <= data_offset,
    ensures
        spec_place_node(data, pos, false, false, skip, data_offset) matches Some(Ok(p)) ==> {
            &&& p.file matches Some(f)
            &&& f.offset == data_offset
            &&& f.stored_size == u32_le(data, pos + 49)
            &&& f.original_size == u32_le(data, pos + 2)
            &&& p.data_offset == f.offset + f.stored_size
            &&& p.next == pos + 53
        },
{
}

/// In the legacy layout a file's stored bytes follow its 49-byte record, and the next node
/// begins right after them: at the end of the record plus the stored size that the record
/// gives (at 41 bytes into it), whatever the original size (at 2 bytes into it) is.
pub proof fn lemma_legacy_data_follows_record(data: Seq<u8>, pos: int, skip: int, data_offset: int)
    requires
        0 <= pos,
        0 <= data_offset,
    ensures
        spec_place_node(data, pos, false, true, skip, data_offset) matches Some(Ok(p)) ==> {
            &&& p.file matches Some(f)
            &&& f.offset == pos + 49
            &&& f.stored_size == u32_le(data, pos + 41)
            &&& f.original_size == u32_le(data, pos + 2)
            &&& p.next == f.offset + f.stored_size
            &&& p.data_offset == data_offset
        },
{
}

/// The exec result of reading a node, seen as its spec counterpart.
pub open spec fn read_view(r: Option<Result<(VfsNode, u64, u64), UnpackerError>>) -> Option<
    Result<NodeRead, UnpackerError>,
> {
    match r {
        None => None,
        Some(Err(e)) => Some(Err(e)),
        Some(Ok((n, next, skip))) => Some(
            Ok(NodeRead { node: n@, next: next as int, legacy_skip: skip as int }),
        ),
    }
}

fn read_node(data: &[u8], pos: u64, is_legacy: bool) -> (r: Option<
    Result<(VfsNode, u64, u64), UnpackerError>,
>)
    requires
        data@.len() <= isize::MAX,
    ensures
        read_view(r) == spec_read_node(data@, pos as int, is_legacy),
{
    let len = data.len();
    if pos > len as u64 || (len as u64) - pos < VFS_HEADER_SIZE as u64 {
        return Some(Err(UnpackerError::Serialize));
    }
    let at = pos as usize;
    let header = read_vfs_header(data, at);
    let start = at + VFS_HEADER_SIZE;
    let k = match find_zero_unit(data, start) {
        None => return Some(Err(UnpackerError::NullTerminatorNotFound)),
        Some(k) => k,
    };
    proof {
        lemma_zero_unit_bounds(data@, start as int, 0);
    }
    let name_len = 2 * k;
    let type_pos = start + name_len + 2;
    if type_pos >= len {
        return Some(Err(UnpackerError::Io(IoError::UnexpectedEof)));
    }
    let kind = data[type_pos];
    if kind != VFS_NODE_TYPE_FILE && kind != VFS_NODE_TYPE_FOLDER {
        return Some(Err(UnpackerError::UnknownNodeType));
    }
    let mut legacy_skip: u64 = 0;
    if is_legacy {
        let total = header.size as u64 + VFS_PADDING as u64;
        let used = VFS_HEADER_SIZE as u64 + name_len as u64 + 2 + 1;
        if total < used {
            return None;
        }
        legacy_skip = total - used;
    }
    let name_bytes = vstd::slice::slice_subrange(data, start, start + name_len);
    let decoded = decode_utf16le(name_bytes);
    let name = match process_file_name(decoded) {
        Err(e) => return Some(Err(e)),
        Ok(n) => n,
    };
    let node = VfsNode {
        name,
        size: header.size,
        objects_count: header.objects_count,
        is_folder: kind == VFS_NODE_TYPE_FOLDER,
        file: None,
    };
    Some(Ok((node, (type_pos + 1) as u64, legacy_skip)))
}

/// The exec result of placing a node, seen as its spec counterpart.
pub open spec fn place_view(r: Option<Result<(Option<FileNode>, u64, u64), UnpackerError>>) -> Option<
    Result<NodePlacement, UnpackerError>,
> {
    match r {
        None => None,
        Some(Err(e)) => Some(Err(e)),
        Some(Ok((f, next, off))) => Some(
            Ok(
                NodePlacement {
                    file: match f {
                        Some(f) => Some(f@),
                        None => None,
                    },
                    next: next as int,
                    data_offset: off as int,
                },
            ),
        ),
    }
}

fn place_node(
    data: &[u8],
    pos: u64,
    is_folder: bool,
    is_legacy: bool,
    legacy_skip: u64,
    data_offset: u64,
) -> (r: Option<Result<(Option<FileNode>, u64, u64), UnpackerError>>)
    ensures
        place_view(r) == spec_place_node(
            data@,
            pos as int,
            is_folder,
            is_legacy,
            legacy_skip as int,
            data_offset as int,
        ),
{
    let len = data.len() as u64;
    if !is_legacy {
        if is_folder {
            if pos > u64::MAX - 25 {
                return Some(Err(UnpackerError::Io(IoError::InvalidSeek)));
            }
            return Some(Ok((None, pos + 25, data_offset)));
        }
        if pos > len || len - pos < MODERN_FILE_NODE_SIZE as u64 {
            return Some(Err(UnpackerError::Serialize));
        }
        let r = read_modern_file_record(data, pos as usize);
        if data_offset > u64::MAX - r.stored_size as u64 {
            return None;
        }
        let f = FileNode::new(r.original_size, r.stored_size, data_offset);
        Some(
            Ok((Some(f), pos + MODERN_FILE_NODE_SIZE as u64, data_offset + r.stored_size as u64)),
        )
    } else {
        if is_folder {
            if pos > u64::MAX - legacy_skip {
                return Some(Err(UnpackerError::Io(IoError::InvalidSeek)));
            }
            return Some(Ok((None, pos + legacy_skip, data_offset)));
        }
        if pos > len || len - pos < LEGACY_FILE_NODE_SIZE as u64 {
            return Some(Err(UnpackerError::Serialize));
        }
        let r = read_legacy_file_record(data, pos as usize);
        let at = pos + LEGACY_FILE_NODE_SIZE as u64;
        if at > u64::MAX - r.stored_size as u64 {
            return Some(Err(UnpackerError::Io(IoError::InvalidSeek)));
        }
        let f = FileNode::new(r.original_size, r.stored_size, at);
        Some(Ok((Some(f), at + r.stored_size as u64, data_offset)))
    }
}

// ---------------------------------------------------------------------------------------
// Layout detection

/// Which VFS layout follows the main header, and where reading resumes.
pub struct PreAnalysis {
    pub is_legacy: bool,
    /// Modern layout: absolute offset of the first file's data.
    pub data_offset: int,
    /// Distance from the main header to the root folder node.
    pub next_header_offset: int,
}

/// Detects the layout from where the root folder's name `%DEFAULT FOLDER%` stands.
/// `None` stands for an input on which a probe reaches past the data.
pub open spec fn spec_pre_analysis(data: Seq<u8>, main: int) -> Option<
    Result<PreAnalysis, UnpackerError>,
> {
    if main + VFS_HEADER_SIZE > data.len() {
        None
    } else {
        let header = spec_vfs_header(data, main);
        if header.objects_count != 1 {
            Some(Err(UnpackerError::MultipleRootFolders))
        } else {
            let next_header_offset = header.size + VFS_PADDING;
            let legacy_start = main + next_header_offset + VFS_HEADER_SIZE;
            let modern_start = main + (VFS_HEADER_SIZE - 1) + VFS_HEADER_SIZE;
            if legacy_start + DEFAULT_FOLDER_LEN > data.len() {
                None
            } else if data.subrange(legacy_start, legacy_start + DEFAULT_FOLDER_LEN)
                == default_folder_bytes() {
                Some(Ok(PreAnalysis { is_legacy: true, data_offset: 0, next_header_offset }))
            } else if modern_start + DEFAULT_FOLDER_LEN > data.len() {
                None
            } else if data.subrange(modern_start, modern_start + DEFAULT_FOLDER_LEN)
                == default_folder_bytes() {
                Some(
                    Ok(
                        PreAnalysis {
                            is_legacy: false,
                            data_offset: main + next_header_offset,
                            next_header_offset: VFS_HEADER_SIZE - 1,
                        },
                    ),
                )
            } else if data.subrange(legacy_start, legacy_start + 2) == percent_utf16()
                || data.subrange(modern_start, modern_start + 2) == percent_utf16() {
                Some(Err(UnpackerError::RootFolderNotSupported))
            } else {
                Some(Err(UnpackerError::InvalidVfs))
            }
        }
    }
}

fn is_percent_at(s: &[u8], at: usize) -> (r: bool)
    requires
        at + 2 <= s@.len(),
    ensures
        r == (s@.subrange(at as int, at + 2) == percent_utf16()),
{
    let r = s[at] == 0x25 && s[at + 1] == 0;
    proof {
        let sub = s@.subrange(at as int, at + 2);
        assert(sub[0] == s@[at as int] && sub[1] == s@[at + 1]);
        if r {
            assert(sub =~= percent_utf16());
        }
    }
    r
}

fn pre_analysis(data: &[u8], main: usize) -> (r: Option<Result<(bool, u64, usize), UnpackerError>>)
    ensures
        match r {
            None => spec_pre_analysis(data@, main as int) is None,
            Some(Err(e)) => spec_pre_analysis(data@, main as int) == Some(
                Err::<PreAnalysis, UnpackerError>(e),
            ),
            Some(Ok((l, d, n))) => spec_pre_analysis(data@, main as int) == Some(
                Ok::<PreAnalysis, UnpackerError>(
                    PreAnalysis { is_legacy: l, data_offset: d as int, next_header_offset: n as int },
                ),
            ),
        },
{
    let len = data.len();
    if main > len || len - main < VFS_HEADER_SIZE {
        return None;
    }
    let header = read_vfs_header(data, main);
    if header.objects_count != 1 {
        return Some(Err(UnpackerError::MultipleRootFolders));
    }
    let wide_offset = header.size as u64 + VFS_PADDING as u64;
    if wide_offset > (len - main) as u64 || (len - main) as u64 - wide_offset < (VFS_HEADER_SIZE
        + DEFAULT_FOLDER_LEN) as u64 {
        return None;
    }
    let next_header_offset = wide_offset as usize;
    let legacy_start = main + next_header_offset + VFS_HEADER_SIZE;
    if is_default_folder_at(data, legacy_start) {
        return Some(Ok((true, 0, next_header_offset)));
    }
    let data_offset = (main + next_header_offset) as u64;
    let modern_start = main + (VFS_HEADER_SIZE - 1) + VFS_HEADER_SIZE;
    if len - main < (VFS_HEADER_SIZE - 1) + VFS_HEADER_SIZE + DEFAULT_FOLDER_LEN {
        return None;
    }
    if is_default_folder_at(data, modern_start) {
        return Some(Ok((false, data_offset, VFS_HEADER_SIZE - 1)));
    }
    if is_percent_at(data, legacy_start) || is_percent_at(data, modern_start) {
        return Some(Err(UnpackerError::RootFolderNotSupported));
    }
    Some(Err(UnpackerError::InvalidVfs))
}

// ---------------------------------------------------------------------------------------
// The walk

/// State of the depth-first walk over the node list.
pub struct WalkState {
    pub pos: int,
    pub data_offset: int,
    /// Folders still being filled: their path and how many of their nodes remain.
    pub stack: Seq<(Seq<char>, int)>,
    pub entries: Entries,
}

pub open spec fn walk_measure(data: Seq<u8>, pos: int) -> nat {
    if 0 <= pos <= data.len() {
        (data.len() - pos + 1) as nat
    } else {
        0
    }
}

pub proof fn lemma_node_advances(data: Seq<u8>, pos: int, is_legacy: bool, data_offset: int)
    ensures
        spec_read_node(data, pos, is_legacy) matches Some(Ok(r)) ==> {
            &&& 0 <= pos
            &&& pos + VFS_HEADER_SIZE <= data.len()
            &&& r.next >= pos + VFS_HEADER_SIZE + 3
            &&& r.legacy_skip >= 0
            &&& (spec_place_node(
                data,
                r.next,
                r.node.is_folder,
                is_legacy,
                r.legacy_skip,
                data_offset,
            ) matches Some(Ok(p)) ==> p.next >= r.next)
        },
{
    lemma_zero_unit_bounds(data, pos + VFS_HEADER_SIZE, 0);
}

/// Walks the node list depth first: each folder is followed by its `objects_count` nodes.
/// Every node is recorded under its path; `None` stands for an input on which the
/// offset or size arithmetic overflows.
pub open spec fn spec_walk(data: Seq<u8>, is_legacy: bool, st: WalkState) -> Option<
    Result<Entries, UnpackerError>,
>
    decreases walk_measure(data, st.pos), st.stack.len(),
{
    if st.stack.len() == 0 {
        Some(Ok(st.entries))
    } else {
        let base = st.stack.last().0;
        let remaining = st.stack.last().1;
        if remaining <= 0 {
            spec_walk(
                data,
                is_legacy,
                WalkState {
                    pos: st.pos,
                    data_offset: st.data_offset,
                    stack: st.stack.drop_last(),
                    entries: st.entries,
                },
            )
        } else {
            match spec_read_node(data, st.pos, is_legacy) {
                None => None,
                Some(Err(e)) => Some(Err(e)),
                Some(Ok(r)) => match spec_place_node(
                    data,
                    r.next,
                    r.node.is_folder,
                    is_legacy,
                    r.legacy_skip,
                    st.data_offset,
                ) {
                    None => None,
                    Some(Err(e)) => Some(Err(e)),
                    Some(Ok(p)) => {
                        proof {
                            lemma_node_advances(data, st.pos, is_legacy, st.data_offset);
                        }
                        let path = join_path(base, r.node.name);
                        let node = VfsNodeView {
                            name: r.node.name,
                            size: r.node.size,
                            objects_count: r.node.objects_count,
                            is_folder: r.node.is_folder,
                            file: p.file,
                        };
                        let stack1 = st.stack.drop_last().push((base, remaining - 1));
                        let stack2 = if node.is_folder {
                            stack1.push((path, node.objects_count as int))
                        } else {
                            stack1
                        };
                        spec_walk(
                            data,
                            is_legacy,
                            WalkState {
                                pos: p.next,
                                data_offset: p.data_offset,
                                stack: stack2,
                                entries: map_insert(st.entries, path, node),
                            },
                        )
                    },
                },
            }
        }
    }
}

/// The whole of reading a packed executable: find the magic, detect the layout, walk the
/// nodes from the root folder. `None` stands for an input on which reading aborts.
pub open spec fn spec_unpack(data: Seq<u8>) -> Option<Result<Entries, UnpackerError>> {
    match magic_from(data, 0) {
        None => Some(Err(UnpackerError::MagicNotFound)),
        Some(m) => {
            let main = m + EVB_PACK_HEADER_SIZE;
            match spec_pre_analysis(data, main) {
                None => None,
                Some(Err(e)) => Some(Err(e)),
                Some(Ok(pa)) => spec_walk(
                    data,
                    pa.is_legacy,
                    WalkState {
                        pos: main + pa.next_header_offset,
                        data_offset: pa.data_offset,
                        stack: seq![(Seq::<char>::empty(), 1int)],
                        entries: Seq::empty(),
                    },
                ),
            }
        },
    }
}

pub open spec fn stack_view(v: Seq<(String, u32)>) -> Seq<(Seq<char>, int)> {
    v.map_values(|p: (String, u32)| (p.0@, p.1 as int))
}

fn walk(
    data: &[u8],
    is_legacy: bool,
    start: u64,
    data_offset: u64,
) -> (r: Option<Result<IndexMap<String, VfsNode>, UnpackerError>>)
    requires
        data@.len() <= isize::MAX,
    ensures
        match r {
            None => spec_walk(
                data@,
                is_legacy,
                WalkState {
                    pos: start as int,
                    data_offset: data_offset as int,
                    stack: seq![(Seq::<char>::empty(), 1int)],
                    entries: Seq::empty(),
                },
            ) is None,
            Some(Err(e)) => spec_walk(
                data@,
                is_legacy,
                WalkState {
                    pos: start as int,
                    data_offset: data_offset as int,
                    stack: seq![(Seq::<char>::empty(), 1int)],
                    entries: Seq::empty(),
                },
            ) == Some(Err::<Entries, UnpackerError>(e)),
            Some(Ok(m)) => spec_walk(
                data@,
                is_legacy,
                WalkState {
                    pos: start as int,
                    data_offset: data_offset as int,
                    stack: seq![(Seq::<char>::empty(), 1int)],
                    entries: Seq::empty(),
                },
            ) == Some(Ok::<Entries, UnpackerError>(path_map_entries(m))),
        },
{
    let ghost init = WalkState {
        pos: start as int,
        data_offset: data_offset as int,
        stack: seq![(Seq::<char>::empty(), 1int)],
        entries: Seq::empty(),
    };
    let mut stack: Vec<(String, u32)> = Vec::new();
    stack.push((String::new(), 1));
    let mut map = path_map_new();
    let mut pos = start;
    let mut offset = data_offset;
    assert(stack_view(stack@) =~= init.stack);
    while stack.len() > 0
        invariant
            data@.len() <= isize::MAX,
            init == (WalkState {
                pos: start as int,
                data_offset: data_offset as int,
                stack: seq![(Seq::<char>::empty(), 1int)],
                entries: Seq::<(Seq<char>, VfsNodeView)>::empty(),
            }),
            spec_walk(data@, is_legacy, init) == spec_walk(
                data@,
                is_legacy,
                WalkState {
                    pos: pos as int,
                    data_offset: offset as int,
                    stack: stack_view(stack@),
                    entries: path_map_entries(map),
                },
            ),
        decreases walk_measure(data@, pos as int), stack.len(),
    {
        let ghost cur = WalkState {
            pos: pos as int,
            data_offset: offset as int,
            stack: stack_view(stack@),
            entries: path_map_entries(map),
        };
        let (base, remaining) = stack.pop().unwrap();
        proof {
            assert(stack_view(stack@) =~= cur.stack.drop_last());
            assert(cur.stack.last() == (base@, remaining as int));
        }
        if remaining == 0 {
            continue;
        }
        let (mut node, next, legacy_skip) = match read_node(data, pos, is_legacy) {
            None => return None,
            Some(Err(e)) => return Some(Err(e)),
            Some(Ok(t)) => t,
        };
        let (file, after, new_offset) = match place_node(
            data,
            next,
            node.is_folder,
            is_legacy,
            legacy_skip,
            offset,
        ) {
            None => return None,
            Some(Err(e)) => return Some(Err(e)),
            Some(Ok(t)) => t,
        };
        proof {
            lemma_node_advances(data@, pos as int, is_legacy, offset as int);
        }
        let full = join(&base, &node.name);
        stack.push((base, remaining - 1));
        node.file = file;
        if node.is_folder {
            stack.push((full.clone(), node.objects_count));
        }
        path_map_insert(&mut map, full, node);
        pos = after;
        offset = new_offset;
        proof {
            let ghost s1 = cur.stack.drop_last().push((base@, remaining - 1));
            if node.is_folder {
                assert(stack_view(stack@) =~= s1.push((full@, node.objects_count as int)));
            } else {
                assert(stack_view(stack@) =~= s1);
            }
        }
    }
    Some(Ok(map))
}

// ---------------------------------------------------------------------------------------
// What every walk keeps

/// No two entries share a path.
pub open spec fn unique_keys(e: Entries) -> bool {
    forall|i: int, j: int| 0 <= i < j < e.len() ==> e[i].0 != e[j].0
}

/// A node holds a file record exactly when it is a file, and its name is empty (the root
/// folder) or a single valid path component.
pub open spec fn well_formed_node(n: VfsNodeView) -> bool {
    &&& (n.file is Some <==> !n.is_folder)
    &&& (n.name.len() == 0 || valid_node_name(n.name))
}

/// Paths unique and found by a lookup of themselves; nodes well formed.
pub open spec fn entries_wf(e: Entries) -> bool {
    &&& unique_keys(e)
    &&& forall|i: int| 0 <= i < e.len() ==> well_formed_node(#[trigger] e[i].1)
    &&& forall|i: int| 0 <= i < e.len() ==> canonical_path(#[trigger] e[i].0)
}

/// A processed name is empty or a valid path component.
pub proof fn lemma_processed_name_valid(name: Seq<char>)
    ensures
        spec_process_file_name(name) matches Ok(n) ==> n.len() == 0 || valid_node_name(n),
{
}

/// Inserting a well-formed node keeps the entries well formed, keys unique included.
pub proof fn lemma_insert_keeps_wf(e: Entries, k: Seq<char>, v: VfsNodeView)
    requires
        entries_wf(e),
        well_formed_node(v),
        canonical_path(k),
    ensures
        entries_wf(map_insert(e, k, v)),
{
    let r = map_insert(e, k, v);
    if has_key(e, k) {
        let i = key_index(e, k);
        assert forall|a: int, b: int| 0 <= a < b < r.len() implies r[a].0 != r[b].0 by {
            assert(r[a].0 == e[a].0 && r[b].0 == e[b].0);
        }
        assert forall|a: int| 0 <= a < r.len() implies well_formed_node(#[trigger] r[a].1) by {
            if a != i {
                assert(r[a] == e[a]);
            }
        }
    } else {
        assert forall|a: int, b: int| 0 <= a < b < r.len() implies r[a].0 != r[b].0 by {
            if b == e.len() {
                assert(r[a] == e[a]);
                if e[a].0 == k {
                    assert(has_key(e, k));
                }
            }
        }
        assert forall|a: int| 0 <= a < r.len() implies well_formed_node(#[trigger] r[a].1) by {
            if a < e.len() {
                assert(r[a] == e[a]);
            }
        }
    }
}

/// Every walk that starts from well-formed entries ends with well-formed entries.
pub proof fn lemma_walk_keeps_wf(data: Seq<u8>, is_legacy: bool, st: WalkState)
    requires
        entries_wf(st.entries),
        forall|j: int| 0 <= j < st.stack.len() ==> canonical_path(#[trigger] st.stack[j].0),
    ensures
        spec_walk(data, is_legacy, st) matches Some(Ok(e)) ==> entries_wf(e),
    decreases walk_measure(data, st.pos), st.stack.len(),
{
    if st.stack.len() == 0 {
    } else {
        let base = st.stack.last().0;
        let remaining = st.stack.last().1;
        if remaining <= 0 {
            lemma_walk_keeps_wf(
                data,
                is_legacy,
                WalkState {
                    pos: st.pos,
                    data_offset: st.data_offset,
                    stack: st.stack.drop_last(),
                    entries: st.entries,
                },
            );
        } else {
            match spec_read_node(data, st.pos, is_legacy) {
                None => {},
                Some(Err(e)) => {},
                Some(Ok(r)) => match spec_place_node(
                    data,
                    r.next,
                    r.node.is_folder,
                    is_legacy,
                    r.legacy_skip,
                    st.data_offset,
                ) {
                    None => {},
                    Some(Err(e)) => {},
                    Some(Ok(p)) => {
                        lemma_node_advances(data, st.pos, is_legacy, st.data_offset);
                        let start = st.pos + VFS_HEADER_SIZE;
                        let k = zero_unit_from(data, start, 0)->0;
                        lemma_processed_name_valid(
                            utf16le_decode(data.subrange(start, start + 2 * k)),
                        );
                        let path = join_path(base, r.node.name);
                        let node = VfsNodeView {
                            name: r.node.name,
                            size: r.node.size,
                            objects_count: r.node.objects_count,
                            is_folder: r.node.is_folder,
                            file: p.file,
                        };
                        assert(canonical_path(st.stack[st.stack.len() - 1].0));
                        lemma_join_canonical(base, r.node.name);
                        lemma_insert_keeps_wf(st.entries, path, node);
                        let stack1 = st.stack.drop_last().push((base, remaining - 1));
                        let stack2 = if node.is_folder {
                            stack1.push((path, node.objects_count as int))
                        } else {
                            stack1
                        };
                        assert forall|j: int| 0 <= j < stack2.len() implies canonical_path(
                            #[trigger] stack2[j].0,
                        ) by {
                            if j < st.stack.len() - 1 {
                                assert(stack2[j] == st.stack[j]);
                            }
                        }
                        lemma_walk_keeps_wf(
                            data,
                            is_legacy,
                            WalkState {
                                pos: p.next,
                                data_offset: p.data_offset,
                                stack: stack2,
                                entries: map_insert(st.entries, path, node),
                            },
                        );
                    },
                },
            }
        }
    }
}

/// Reading a packed executable yields paths that are unique and that a lookup finds as they
/// are written, nodes that hold a file record exactly when they are files, and names that are
/// empty or a single path component.
pub proof fn lemma_unpack_entries_wf(data: Seq<u8>)
    ensures
        spec_unpack(data) matches Some(Ok(e)) ==> entries_wf(e),
{
    match magic_from(data, 0) {
        None => {},
        Some(m) => {
            let main = m + EVB_PACK_HEADER_SIZE;
            match spec_pre_analysis(data, main) {
                Some(Ok(pa)) => {
                    assert(canonical_path(Seq::<char>::empty()));
                    lemma_walk_keeps_wf(
                        data,
                        pa.is_legacy,
                        WalkState {
                            pos: main + pa.next_header_offset,
                            data_offset: pa.data_offset,
                            stack: seq![(Seq::<char>::empty(), 1int)],
                            entries: Seq::empty(),
                        },
                    );
                },
                _ => {},
            }
        },
    }
}

/// `k` is `name` joined to the path of a node that `e` holds, or to the root.
pub open spec fn under_listed_parent(e: Entries, k: Seq<char>, name: Seq<char>) -> bool {
    exists|parent: Seq<char>|
        #[trigger] join_path(parent, name) == k && (parent.len() == 0 || has_key(e, parent))
}

/// Every named node of `e` is stored under its name joined to a path that `e` holds (or to
/// the root).
pub open spec fn paths_follow_parents(e: Entries) -> bool {
    forall|i: int|
        0 <= i < e.len() && e[i].1.name.len() > 0 ==> under_listed_parent(e, #[trigger] e[i].0, e[i].1.name)
}

proof fn lemma_insert_keeps_key(e: Entries, k: Seq<char>, v: VfsNodeView, p: Seq<char>)
    requires
        has_key(e, p),
    ensures
        has_key(map_insert(e, k, v), p),
{
    let r = map_insert(e, k, v);
    let i = choose|i: int| 0 <= i < e.len() && #[trigger] e[i].0 == p;
    assert(r[i].0 == p);
}

proof fn lemma_insert_has_key(e: Entries, k: Seq<char>, v: VfsNodeView)
    ensures
        has_key(map_insert(e, k, v), k),
{
    let r = map_insert(e, k, v);
    if has_key(e, k) {
        let i = key_index(e, k);
        assert(r[i].0 == k);
    } else {
        assert(r[e.len() as int].0 == k);
    }
}

proof fn lemma_insert_keeps_parents(e: Entries, base: Seq<char>, v: VfsNodeView)
    requires
        paths_follow_parents(e),
        base.len() == 0 || has_key(e, base),
    ensures
        paths_follow_parents(map_insert(e, join_path(base, v.name), v)),
{
    let k = join_path(base, v.name);
    let r = map_insert(e, k, v);
    assert forall|i: int|
        0 <= i < r.len() && r[i].1.name.len() > 0 implies under_listed_parent(r, #[trigger] r[i].0, r[i].1.name) by {
        if i < e.len() && r[i] == e[i] {
            assert(under_listed_parent(e, e[i].0, e[i].1.name));
            let parent = choose|parent: Seq<char>|
                #[trigger] join_path(parent, e[i].1.name) == e[i].0 && (parent.len() == 0 || has_key(
                    e,
                    parent,
                ));
            if parent.len() > 0 {
                lemma_insert_keeps_key(e, k, v, parent);
            }
            assert(join_path(parent, r[i].1.name) == r[i].0);
        } else {
            assert(r[i].0 == k && r[i].1 == v);
            if base.len() > 0 {
                lemma_insert_keeps_key(e, k, v, base);
            }
            assert(join_path(base, r[i].1.name) == r[i].0);
        }
    }
}

/// The walk stores every named node under its name joined to the path of the folder that
/// holds it, at every depth, as long as it starts from such entries and from folders whose
/// paths the entries hold.
pub proof fn lemma_walk_paths_follow_parents(data: Seq<u8>, is_legacy: bool, st: WalkState)
    requires
        paths_follow_parents(st.entries),
        forall|j: int|
            0 <= j < st.stack.len() ==> (#[trigger] st.stack[j].0).len() == 0 || has_key(
                st.entries,
                st.stack[j].0,
            ),
    ensures
        spec_walk(data, is_legacy, st) matches Some(Ok(e)) ==> paths_follow_parents(e),
    decreases walk_measure(data, st.pos), st.stack.len(),
{
    if st.stack.len() > 0 {
        let base = st.stack.last().0;
        let remaining = st.stack.last().1;
        if remaining <= 0 {
            lemma_walk_paths_follow_parents(
                data,
                is_legacy,
                WalkState {
                    pos: st.pos,
                    data_offset: st.data_offset,
                    stack: st.stack.drop_last(),
                    entries: st.entries,
                },
            );
        } else {
            match spec_read_node(data, st.pos, is_legacy) {
                Some(Ok(r)) => match spec_place_node(
                    data,
                    r.next,
                    r.node.is_folder,
                    is_legacy,
                    r.legacy_skip,
                    st.data_offset,
                ) {
                    Some(Ok(p)) => {
                        lemma_node_advances(data, st.pos, is_legacy, st.data_offset);
                        let path = join_path(base, r.node.name);
                        let node = VfsNodeView {
                            name: r.node.name,
                            size: r.node.size,
                            objects_count: r.node.objects_count,
                            is_folder: r.node.is_folder,
                            file: p.file,
                        };
                        assert(base == st.stack[st.stack.len() - 1].0);
                        lemma_insert_keeps_parents(st.entries, base, node);
                        let entries = map_insert(st.entries, path, node);
                        lemma_insert_has_key(st.entries, path, node);
                        let stack1 = st.stack.drop_last().push((base, remaining - 1));
                        let stack2 = if node.is_folder {
                            stack1.push((path, node.objects_count as int))
                        } else {
                            stack1
                        };
                        assert forall|j: int| 0 <= j < stack2.len() implies (
                        #[trigger] stack2[j].0).len() == 0 || has_key(entries, stack2[j].0) by {
                            if j < st.stack.len() {
                                assert(stack2[j].0 == st.stack[j].0);
                                if st.stack[j].0.len() > 0 {
                                    lemma_insert_keeps_key(st.entries, path, node, st.stack[j].0);
                                }
                            }
                        }
                        lemma_walk_paths_follow_parents(
                            data,
                            is_legacy,
                            WalkState {
                                pos: p.next,
                                data_offset: p.data_offset,
                                stack: stack2,
                                entries: entries,
                            },
                        );
                    },
                    _ => {},
                },
                _ => {},
            }
        }
    }
}

/// Reading a packed executable stores every named node under its name joined to the path of
/// the folder that holds it: the root's children under their names, a folder `F` stored under
/// `P` has its children stored under `P/name`, at every depth.
pub proof fn lemma_unpack_paths_follow_parents(data: Seq<u8>)
    ensures
        spec_unpack(data) matches Some(Ok(e)) ==> paths_follow_parents(e),
{
    if let Some(m) = magic_from(data, 0) {
        let main = m + EVB_PACK_HEADER_SIZE;
        if let Some(Ok(pa)) = spec_pre_analysis(data, main) {
            lemma_walk_paths_follow_parents(
                data,
                pa.is_legacy,
                WalkState {
                    pos: main + pa.next_header_offset,
                    data_offset: pa.data_offset,
                    stack: seq![(Seq::<char>::empty(), 1int)],
                    entries: Seq::empty(),
                },
            );
        }
    }
}

// ---------------------------------------------------------------------------------------
// The unpacker

/// The file tree of a packed executable, read from its bytes.
pub struct Unpacker<'r> {
    slice: &'r [u8],
    entries: IndexMap<String, VfsNode>,
}

impl<'r> Unpacker<'r> {
    #[verifier::type_invariant]
    spec fn slice_fits(&self) -> bool {
        self.slice@.len() <= isize::MAX
    }

    /// The packed executable.
    pub closed spec fn data(&self) -> Seq<u8> {
        self.slice@
    }

    /// Every node under its path, in the order the nodes were read.
    pub closed spec fn entries(&self) -> Entries {
        path_map_entries(self.entries)
    }

    /// Reads the file tree of `data`, or says that the input is one on which the reading
    /// would abort (`None`): an out-of-bounds layout probe or an arithmetic overflow.
    pub fn try_new(data: &'r [u8]) -> (r: Option<Result<Unpacker<'r>, UnpackerError>>)
        requires
            data@.len() <= isize::MAX,
        ensures
            match r {
                None => spec_unpack(data@) is None,
                Some(Err(e)) => spec_unpack(data@) == Some(Err::<Entries, UnpackerError>(e)),
                Some(Ok(u)) => {
                    &&& u.data() == data@
                    &&& spec_unpack(data@) == Some(Ok::<Entries, UnpackerError>(u.entries()))
                    &&& entries_wf(u.entries())
                },
            },
    {
        proof {
            lemma_unpack_entries_wf(data@);
        }
        let magic_pos = match find_magic(data) {
            None => return Some(Err(UnpackerError::MagicNotFound)),
            Some(p) => p,
        };
        proof {
            lemma_magic_bounds(data@, 0);
        }
        let main_header_pos = magic_pos + EVB_PACK_HEADER_SIZE;
        let (is_legacy, data_offset, next_header_offset) = match pre_analysis(
            data,
            main_header_pos,
        ) {
            None => return None,
            Some(Err(e)) => return Some(Err(e)),
            Some(Ok(t)) => t,
        };
        let start = (main_header_pos + next_header_offset) as u64;
        match walk(data, is_legacy, start, data_offset) {
            None => None,
            Some(Err(e)) => Some(Err(e)),
            Some(Ok(entries)) => Some(Ok(Unpacker { slice: data, entries })),
        }
    }

    /// Reads the file tree of `data`. The inputs on which the reading aborts are excluded;
    /// [`Unpacker::try_new`] tells them apart.
    pub fn new(data: &'r [u8]) -> (r: Result<Unpacker<'r>, UnpackerError>)
        requires
            data@.len() <= isize::MAX,
            spec_unpack(data@) is Some,
        ensures
            match r {
                Err(e) => spec_unpack(data@) == Some(Err::<Entries, UnpackerError>(e)),
                Ok(u) => {
                    &&& u.data() == data@
                    &&& spec_unpack(data@) == Some(Ok::<Entries, UnpackerError>(u.entries()))
                    &&& entries_wf(u.entries())
                },
            },
    {
        Self::try_new(data).unwrap()
    }

    /// The packed executable.
    pub fn packed_data(&self) -> (r: &'r [u8])
        ensures
            r@ == self.data(),
    {
        self.slice
    }

    /// Every node under its path (the names from the root folder down, joined by `/` on
    /// every platform), in the order the nodes were read.
    pub fn files(&self) -> (r: &IndexMap<String, VfsNode>)
        ensures
            path_map_entries(*r) == self.entries(),
    {
        &self.entries
    }

    /// The node stored under the path that `path` names, compared component by component,
    /// if any.
    pub fn get_node(&self, path: &str) -> (r: Option<&VfsNode>)
        ensures
            match path_key(path@) {
                None => r is None,
                Some(k) => match r {
                    Some(n) => map_lookup(self.entries(), k) == Some(n@),
                    None => map_lookup(self.entries(), k) is None,
                },
            },
    {
        match path_key_of(path) {
            None => None,
            Some(k) => path_map_get(&self.entries, k.as_str()),
        }
    }

    /// The stored bytes of a file node; `None` for a folder.
    pub fn get_raw_file_data(&self, node: &VfsNode) -> (r: Option<&'r [u8]>)
        requires
            !node.is_folder ==> node.file is Some && node.file->0@.offset
                + node.file->0@.stored_size <= self.data().len(),
        ensures
            node.is_folder ==> r is None,
            !node.is_folder ==> r is Some && r->0@ == self.data().subrange(
                node.file->0@.offset as int,
                node.file->0@.offset + node.file->0@.stored_size,
            ),
    {
        if node.is_folder {
            return None;
        }
        let file_node = match &node.file {
            Some(f) => f,
            None => return None,
        };
        let len = self.slice.len();
        let wide_offset = file_node.offset();
        let size = file_node.stored_size() as usize;
        assert(wide_offset + size <= len);
        let offset = wide_offset as usize;
        Some(vstd::slice::slice_subrange(self.slice, offset, offset + size))
    }
}

} // verus!
