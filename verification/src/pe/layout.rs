//! Where the PE header fields stand in an image: the DOS header's `e_lfanew`, the NT
//! headers, the data directory and the section table (each field little endian).

use vstd::prelude::*;
use crate::bytes::{read_u16_le, read_u32_le, u16_le, u32_le};

verus! {

/// Size of a section header.
pub const SECTION_HEADER_SIZE: usize = 40;

/// Offset of the NT headers (`e_lfanew`).
pub open spec fn nt_offset(s: Seq<u8>) -> int {
    u32_le(s, 0x3c) as int
}

/// Offset of the optional header.
pub open spec fn opt_offset(s: Seq<u8>) -> int {
    nt_offset(s) + 24
}

pub open spec fn number_of_sections(s: Seq<u8>) -> int {
    u16_le(s, nt_offset(s) + 6) as int
}

pub open spec fn size_of_optional_header(s: Seq<u8>) -> int {
    u16_le(s, nt_offset(s) + 20) as int
}

pub open spec fn optional_magic(s: Seq<u8>) -> u16 {
    u16_le(s, opt_offset(s))
}

pub open spec fn size_of_headers(s: Seq<u8>) -> u32 {
    u32_le(s, opt_offset(s) + 60)
}

/// Size of the NT headers up to the data directory.
pub open spec fn nt_size(x64: bool) -> int {
    if x64 {
        136
    } else {
        120
    }
}

/// Offset of the data directory.
pub open spec fn data_dir_offset(s: Seq<u8>, x64: bool) -> int {
    opt_offset(s) + if x64 {
        112int
    } else {
        96int
    }
}

/// Number of data directory entries: `NumberOfRvaAndSizes`, at most 16.
pub open spec fn data_dir_count(s: Seq<u8>, x64: bool) -> int {
    let n = u32_le(
        s,
        opt_offset(s) + if x64 {
            108int
        } else {
            92int
        },
    ) as int;
    if n < 16 {
        n
    } else {
        16
    }
}

pub open spec fn data_dir_va(s: Seq<u8>, x64: bool, k: int) -> u32 {
    u32_le(s, data_dir_offset(s, x64) + 8 * k)
}

pub open spec fn data_dir_size(s: Seq<u8>, x64: bool, k: int) -> u32 {
    u32_le(s, data_dir_offset(s, x64) + 8 * k + 4)
}

/// Offset of the section table.
pub open spec fn section_table(s: Seq<u8>) -> int {
    opt_offset(s) + size_of_optional_header(s)
}

pub open spec fn section_offset(s: Seq<u8>, i: int) -> int {
    section_table(s) + 40 * i
}

pub open spec fn section_name(s: Seq<u8>, i: int) -> Seq<u8> {
    s.subrange(section_offset(s, i), section_offset(s, i) + 8)
}

pub open spec fn section_virtual_size(s: Seq<u8>, i: int) -> u32 {
    u32_le(s, section_offset(s, i) + 8)
}

pub open spec fn section_virtual_address(s: Seq<u8>, i: int) -> u32 {
    u32_le(s, section_offset(s, i) + 12)
}

pub open spec fn section_raw_size(s: Seq<u8>, i: int) -> u32 {
    u32_le(s, section_offset(s, i) + 16)
}

pub open spec fn section_raw_pointer(s: Seq<u8>, i: int) -> u32 {
    u32_le(s, section_offset(s, i) + 20)
}

/// The header bounds that a successful `pelite::PeFile::from_bytes` has checked.
pub open spec fn pe_sound(s: Seq<u8>, x64: bool) -> bool {
    &&& s.len() >= 64
    &&& nt_offset(s) <= 0x0100_0000
    &&& nt_offset(s) + nt_size(x64) <= s.len()
    &&& optional_magic(s) == if x64 {
        0x20bu16
    } else {
        0x10bu16
    }
    &&& size_of_headers(s) <= s.len()
    &&& nt_offset(s) + nt_size(x64) + 8 * data_dir_count(s, x64) <= s.len()
    &&& number_of_sections(s) <= 96
    &&& section_table(s) + 40 * number_of_sections(s) <= s.len()
}

/// The header structures lie within `s`: the DOS header, the NT headers with their data
/// directory, and the section table.
pub open spec fn header_tables_fit(s: Seq<u8>, x64: bool) -> bool {
    &&& s.len() >= 64
    &&& data_dir_offset(s, x64) + 8 * data_dir_count(s, x64) <= s.len()
    &&& section_table(s) + 40 * number_of_sections(s) <= s.len()
}

/// Whether the header tables fit in `s`, with at least ten data directory entries and one to
/// 128 sections: the header structures that restoring writes through.
pub fn restorable_tables(s: &[u8], x64: bool) -> (r: bool)
    ensures
        r == (header_tables_fit(s@, x64) && data_dir_count(s@, x64) >= 10 && number_of_sections(s@)
            > 0 && number_of_sections(s@) <= 128),
{
    let len = s.len();
    if len < 64 {
        return false;
    }
    let nt = read_u32_le(s, 0x3c) as u64;
    let dd = nt + 24 + if x64 {
        112
    } else {
        96
    };
    if dd > len as u64 {
        return false;
    }
    let dd = dd as usize;
    let nt = nt as usize;
    let raw_count = read_u32_le(s, dd - 4);
    let count: u64 = if raw_count < 16 {
        raw_count as u64
    } else {
        16
    };
    if dd as u64 + 8 * count > len as u64 {
        return false;
    }
    let n = read_u16_le(s, nt + 6) as u64;
    let soh = read_u16_le(s, nt + 20) as u64;
    if nt as u64 + 24 + soh + 40 * n > len as u64 {
        return false;
    }
    count >= 10 && n > 0 && n <= 128
}

/// Offsets of the header fields in an image whose header tables fit in it.
pub struct Layout {
    pub nt: usize,
    pub number_of_sections: usize,
    pub section_table: usize,
    pub data_dir: usize,
    pub data_dir_count: usize,
}

pub open spec fn layout_of(l: Layout, s: Seq<u8>, x64: bool) -> bool {
    &&& l.nt == nt_offset(s)
    &&& l.number_of_sections == number_of_sections(s)
    &&& l.section_table == section_table(s)
    &&& l.data_dir == data_dir_offset(s, x64)
    &&& l.data_dir_count == data_dir_count(s, x64)
}

pub fn read_layout(s: &[u8], x64: bool) -> (l: Layout)
    requires
        header_tables_fit(s@, x64),
    ensures
        layout_of(l, s@, x64),
{
    let len = s.len();
    let nt = read_u32_le(s, 0x3c) as usize;
    assert(nt + 120 <= len);
    let number_of_sections = read_u16_le(s, nt + 6) as usize;
    let opt = nt + 24;
    let soh = read_u16_le(s, nt + 20) as usize;
    let count_at = if x64 {
        opt + 108
    } else {
        opt + 92
    };
    let raw_count = read_u32_le(s, count_at);
    let data_dir_count = if raw_count < 16 {
        raw_count as usize
    } else {
        16
    };
    Layout {
        nt,
        number_of_sections,
        section_table: opt + soh,
        data_dir: if x64 {
            opt + 112
        } else {
            opt + 96
        },
        data_dir_count,
    }
}

} // verus!
