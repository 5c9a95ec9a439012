//! Trusted declarations for the outside crates the library calls.
//! Each contract below is taken from the outside crate's source, not proved.

use vstd::prelude::*;
use indexmap::IndexMap;
use crate::evb::{VfsNode, VfsNodeView};
use crate::bytes::u32_le;
use crate::pe::layout::{
    number_of_sections, pe_sound, section_raw_pointer, section_raw_size, section_virtual_address,
    section_virtual_size, size_of_headers,
};

verus! {

/// The text that `encoding_rs::UTF_16LE.decode` produces for `bytes`: it sniffs a byte
/// order mark (which may switch the decoder to UTF-8 or UTF-16BE), drops it, and replaces
/// malformed sequences with U+FFFD. The result is a function of the bytes alone.
pub uninterp spec fn utf16le_decode(bytes: Seq<u8>) -> Seq<char>;

/// Calls `encoding_rs::Encoding::decode` on `UTF_16LE` and takes the decoded text.
/// The contract claims only that the text is the named decoding of `bytes`. The decoder
/// panics when its output size computation overflows `usize`; inputs of at most
/// `isize::MAX` bytes stay clear of that.
#[verifier::external_body]
pub fn decode_utf16le(bytes: &[u8]) -> (s: String)
    requires
        bytes@.len() <= isize::MAX,
    ensures
        s@ == utf16le_decode(bytes@),
{
    let (text, _, _) = encoding_rs::UTF_16LE.decode(bytes);
    text.into_owned()
}

#[verifier::external_type_specification]
#[verifier::external_body]
#[verifier::reject_recursive_types(K)]
#[verifier::reject_recursive_types(V)]
#[verifier::reject_recursive_types(S)]
pub struct ExIndexMap<K, V, S>(IndexMap<K, V, S>);

/// The key/value pairs of a path map, in the map's order, keys by their text.
pub uninterp spec fn path_map_entries(m: IndexMap<String, VfsNode>) -> Seq<(Seq<char>, VfsNodeView)>;

/// Whether some pair of `e` has key `k`.
pub open spec fn has_key(e: Seq<(Seq<char>, VfsNodeView)>, k: Seq<char>) -> bool {
    exists|i: int| 0 <= i < e.len() && #[trigger] e[i].0 == k
}

/// An index of `e` whose key is `k`.
pub open spec fn key_index(e: Seq<(Seq<char>, VfsNodeView)>, k: Seq<char>) -> int {
    choose|i: int| 0 <= i < e.len() && #[trigger] e[i].0 == k
}

/// `e` after an insertion of `k` → `v` into an insertion-ordered map: an existing key keeps
/// its place and takes the new value, a new key goes last.
pub open spec fn map_insert(
    e: Seq<(Seq<char>, VfsNodeView)>,
    k: Seq<char>,
    v: VfsNodeView,
) -> Seq<(Seq<char>, VfsNodeView)> {
    if has_key(e, k) {
        let i = key_index(e, k);
        e.update(i, (e[i].0, v))
    } else {
        e.push((k, v))
    }
}

/// The value stored under `k`, if any.
pub open spec fn map_lookup(e: Seq<(Seq<char>, VfsNodeView)>, k: Seq<char>) -> Option<VfsNodeView> {
    if has_key(e, k) {
        Some(e[key_index(e, k)].1)
    } else {
        None
    }
}

/// Calls `IndexMap::new`; the new map holds nothing.
#[verifier::external_body]
pub fn path_map_new() -> (m: IndexMap<String, VfsNode>)
    ensures
        path_map_entries(m) == Seq::<(Seq<char>, VfsNodeView)>::empty(),
{
    IndexMap::new()
}

/// Calls `IndexMap::insert`. As its documentation says, an equivalent key already present
/// keeps its place and key and takes the new value; otherwise the pair goes last. `String`
/// keys are equivalent exactly when their texts are equal.
#[verifier::external_body]
pub fn path_map_insert(m: &mut IndexMap<String, VfsNode>, key: String, value: VfsNode)
    ensures
        path_map_entries(*final(m)) == map_insert(path_map_entries(*old(m)), key@, value@),
{
    m.insert(key, value);
}

/// Calls `IndexMap::get` with a `&str` key; the result is the value stored under the key
/// with the same text, if any.
#[verifier::external_body]
pub fn path_map_get<'a>(m: &'a IndexMap<String, VfsNode>, key: &str) -> (r: Option<&'a VfsNode>)
    ensures
        match r {
            Some(n) => map_lookup(path_map_entries(*m), key@) == Some(n@),
            None => map_lookup(path_map_entries(*m), key@) is None,
        },
{
    m.get(key)
}

#[verifier::external_type_specification]
#[verifier::external_body]
pub struct ExPeliteError(pelite::Error);

/// Calls `pelite::PeFile::from_bytes`, which tries the PE32+ parser and then the PE32
/// parser; `Ok(true)` for PE32+, `Ok(false)` for PE32. On success pelite has checked the
/// header bounds that `pe_sound` lists (`validate_headers`). Whether it succeeds also
/// depends on the alignment of the buffer's address, so nothing is claimed of failures.
#[verifier::external_body]
pub fn pe_validate(image: &[u8]) -> (r: Result<bool, pelite::Error>)
    ensures
        r matches Ok(x64) ==> pe_sound(image@, x64),
{
    match pelite::PeFile::from_bytes(image) {
        Ok(pelite::Wrap::T64(_)) => Ok(true),
        Ok(pelite::Wrap::T32(_)) => Ok(false),
        Err(e) => Err(e),
    }
}

/// The file offset that pelite's `rva_to_file_offset` gives for `rva` in `image`: an address
/// below `SizeOfHeaders` is its own offset; otherwise the first section whose virtual range
/// (from `VirtualAddress` up to its wrapping sum with the larger of `VirtualSize` and
/// `SizeOfRawData`) holds it decides: `None` where the end of its raw data overflows a `u32`
/// or the address lies `SizeOfRawData` or more past the section's start, else the offset into
/// its raw data. `None` where no section holds it.
pub open spec fn pe_rva_file_offset(image: Seq<u8>, rva: u32) -> Option<usize> {
    if rva < size_of_headers(image) {
        Some(rva as usize)
    } else {
        rva_in_sections(image, rva, 0)
    }
}

/// The part of [`pe_rva_file_offset`] that searches the sections from `i` on.
pub open spec fn rva_in_sections(image: Seq<u8>, rva: u32, i: int) -> Option<usize>
    decreases number_of_sections(image) - i,
{
    if i < 0 || i >= number_of_sections(image) {
        None
    } else {
        let va = section_virtual_address(image, i);
        let vs = section_virtual_size(image, i);
        let raw_size = section_raw_size(image, i);
        let raw = section_raw_pointer(image, i);
        let extent = if vs > raw_size {
            vs
        } else {
            raw_size
        };
        if va <= rva && (rva as int) < (va as int + extent as int) % 0x1_0000_0000 {
            if raw as int + raw_size as int > u32::MAX {
                None
            } else if rva - va < raw_size {
                Some((rva - va + raw) as usize)
            } else {
                None
            }
        } else {
            rva_in_sections(image, rva, i + 1)
        }
    }
}

/// Calls `pelite::PeFile::from_bytes` (the outer `Err`: its error) and then
/// `Pe::rva_to_file_offset` (the inner result). Acceptance also depends on the alignment of
/// the buffer's address, so nothing is claimed of the outer `Err`; `rva_to_file_offset` reads
/// the headers alone, so the inner result is the offset above, an `Err` where there is none.
#[verifier::external_body]
pub fn pe_rva_to_file_offset(image: &[u8], rva: u32) -> (r: Result<Result<usize, pelite::Error>, pelite::Error>)
    ensures
        r matches Ok(inner) ==> match inner {
            Ok(off) => pe_rva_file_offset(image@, rva) == Some(off),
            Err(_) => pe_rva_file_offset(image@, rva) is None,
        },
{
    match pelite::PeFile::from_bytes(image) {
        Ok(pelite::Wrap::T64(pe)) => Ok(pelite::pe64::Pe::rva_to_file_offset(pe, rva)),
        Ok(pelite::Wrap::T32(pe)) => Ok(pelite::pe32::Pe::rva_to_file_offset(pe, rva)),
        Err(e) => Err(e),
    }
}

/// The raw bytes that pelite's file-aligned reads (`range_file`) give for `rva`, as offsets
/// `(start, end)` into `image`: the first section from `i` on whose virtual range holds `rva`
/// decides; `None` where its raw data (from `PointerToRawData` up to its wrapping sum with
/// `SizeOfRawData`) is not a range inside the image, or fewer than `min` of its bytes remain
/// from `rva` on. `None` where no section holds `rva`.
pub open spec fn pe_file_range(image: Seq<u8>, rva: u32, min: int, i: int) -> Option<(int, int)>
    decreases number_of_sections(image) - i,
{
    if i < 0 || i >= number_of_sections(image) {
        None
    } else {
        let va = section_virtual_address(image, i);
        let vs = section_virtual_size(image, i);
        let raw_size = section_raw_size(image, i);
        let lo = section_raw_pointer(image, i) as int;
        let extent = if vs > raw_size {
            vs
        } else {
            raw_size
        };
        if va <= rva && (rva as int) < (va as int + extent as int) % 0x1_0000_0000 {
            let hi = (lo + raw_size as int) % 0x1_0000_0000;
            let off = rva - va;
            if lo > hi || hi > image.len() || off > hi - lo || hi - lo - off < min {
                None
            } else {
                Some((lo + off, hi))
            }
        } else {
            pe_file_range(image, rva, min, i + 1)
        }
    }
}

/// The `Name` field of the import descriptor that pelite's `derva` reads at `rva` in `image`,
/// once pelite has accepted the image (whose address is then 4-aligned): `None` for a null or
/// misaligned address or where fewer than the descriptor's 20 bytes can be read there.
pub open spec fn pe_import_descriptor_name(image: Seq<u8>, rva: u32) -> Option<u32> {
    if rva == 0 || rva % 4 != 0 {
        None
    } else {
        match pe_file_range(image, rva, 20, 0) {
            Some((start, _)) => Some(u32_le(image, start + 12)),
            None => None,
        }
    }
}

/// Calls `pelite::PeFile::from_bytes` (the outer `Err`: its error) and then
/// `derva::<IMAGE_IMPORT_DESCRIPTOR>`, and takes the descriptor's `Name` (the inner result).
/// Acceptance also depends on the alignment of the buffer's address, so nothing is claimed of
/// the outer `Err`. An accepted buffer starts at a 4-aligned address, so the checks of `derva`
/// depend on the bytes and `rva` alone: the inner result is the name above, an `Err` where
/// there is none.
#[verifier::external_body]
pub fn pe_import_name_rva(image: &[u8], rva: u32) -> (r: Result<Result<u32, pelite::Error>, pelite::Error>)
    ensures
        r matches Ok(inner) ==> match inner {
            Ok(n) => pe_import_descriptor_name(image@, rva) == Some(n),
            Err(_) => pe_import_descriptor_name(image@, rva) is None,
        },
{
    let pe = match pelite::PeFile::from_bytes(image) {
        Ok(pe) => pe,
        Err(e) => return Err(e),
    };
    Ok(pe.derva::<pelite::image::IMAGE_IMPORT_DESCRIPTOR>(rva).map(|d| d.Name))
}

/// The first nul byte of `image` from `k` up to `end`.
pub open spec fn first_nul(image: Seq<u8>, k: int, end: int) -> Option<int>
    decreases end - k,
{
    if k < 0 || k >= end {
        None
    } else if image[k] == 0 {
        Some(k)
    } else {
        first_nul(image, k + 1, end)
    }
}

/// The bytes of the nul-terminated string that pelite's `derva_c_str` reads at `rva` in
/// `image`, without the nul: `None` for a null address, where no raw bytes can be read there,
/// or where no nul follows before the end of the section's raw data.
pub open spec fn pe_c_str(image: Seq<u8>, rva: u32) -> Option<Seq<u8>> {
    if rva == 0 {
        None
    } else {
        match pe_file_range(image, rva, 0, 0) {
            Some((start, end)) => match first_nul(image, start, end) {
                Some(z) => Some(image.subrange(start, z)),
                None => None,
            },
            None => None,
        }
    }
}

/// Calls `pelite::PeFile::from_bytes` (the outer `Err`: its error) and then `derva_c_str`, and
/// copies the string's bytes (the inner result). Nothing is claimed of the outer `Err`, which
/// also depends on the buffer's address. `derva_c_str` asks no alignment, so its result
/// depends on the bytes and `rva` alone: the inner result is the string above, an `Err` where
/// there is none.
#[verifier::external_body]
pub fn pe_read_c_str(image: &[u8], rva: u32) -> (r: Result<Result<Vec<u8>, pelite::Error>, pelite::Error>)
    ensures
        r matches Ok(inner) ==> match inner {
            Ok(v) => pe_c_str(image@, rva) == Some(v@),
            Err(_) => pe_c_str(image@, rva) is None,
        },
{
    let pe = match pelite::PeFile::from_bytes(image) {
        Ok(pe) => pe,
        Err(e) => return Err(e),
    };
    Ok(pe.derva_c_str(rva).map(|name| name.to_vec()))
}

} // verus!
