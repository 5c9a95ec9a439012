//! Restoring the PE image of an executable packed by Enigma Virtual Box.

use vstd::prelude::*;

pub mod layout;

use crate::bytes::{
    copy_within, copy_within_slice, lemma_copy_within_len, lemma_u16_roundtrip, lemma_u32_frame,
    lemma_u32_roundtrip,
    read_u16_le, read_u32_le, u16_le, u32_le, with_u16_le, with_u32_le, write_u16_le, write_u32_le,
};
use crate::outside::{
    pe_rva_file_offset, pe_rva_to_file_offset, rva_in_sections, pe_c_str, pe_import_descriptor_name, pe_import_name_rva, pe_read_c_str, pe_validate,
};
use layout::{
    number_of_sections, pe_sound, read_layout, section_name, section_offset, section_raw_pointer,
    section_raw_size, section_virtual_address, section_virtual_size, Layout, layout_of,
};

verus! {

pub const ENIGMA1_HEADER_SIZE: usize = 16;
pub const TLS_DATA_64: usize = 32;
pub const TLS_DATA_32: usize = 16;
pub const UNK_1_SIZE: usize = 8;
pub const UNK_2_SIZE: usize = 8;
pub const UNK_3_SIZE: usize = 4;

/// The data that the packer keeps in its `.enigma1` section: the first twelve bytes of the
/// original TLS data, and the original import and relocation directories.
pub struct Enigma1Header {
    tls_data: [u8; 12],
    import_address: u32,
    import_size: u32,
    reloc_address: u32,
    reloc_size: u32,
}

pub struct Enigma1HeaderView {
    pub tls_data: Seq<u8>,
    pub import_address: u32,
    pub import_size: u32,
    pub reloc_address: u32,
    pub reloc_size: u32,
}

impl View for Enigma1Header {
    type V = Enigma1HeaderView;

    closed spec fn view(&self) -> Enigma1HeaderView {
        Enigma1HeaderView {
            tls_data: self.tls_data@,
            import_address: self.import_address,
            import_size: self.import_size,
            reloc_address: self.reloc_address,
            reloc_size: self.reloc_size,
        }
    }
}

/// Packer versions, which place the header at different offsets in `.enigma1`.
#[derive(Debug, Clone, Copy, PartialEq, Eq, Structural)]
pub enum PeVariant {
    V10_70,
    V9_70,
    V7_80,
}

impl PeVariant {
    pub open spec fn spec_header_start_offset(self, is_x64: bool) -> int {
        if is_x64 {
            match self {
                PeVariant::V10_70 => TLS_DATA_64 + 7 * 8 + UNK_1_SIZE + 3 * 8,
                PeVariant::V9_70 => TLS_DATA_64 + 7 * 8 + 4 + UNK_1_SIZE + 8,
                PeVariant::V7_80 => TLS_DATA_64 + 7 * 8 + UNK_1_SIZE + 8,
            }
        } else {
            match self {
                PeVariant::V10_70 => TLS_DATA_32 + 6 * 8 + UNK_1_SIZE + UNK_2_SIZE + UNK_3_SIZE,
                PeVariant::V9_70 => TLS_DATA_32 + 6 * 8 + UNK_1_SIZE + UNK_2_SIZE,
                PeVariant::V7_80 => TLS_DATA_32 + 6 * 8 + UNK_1_SIZE + UNK_3_SIZE,
            }
        }
    }

    fn get_header_start_offset_64(&self) -> (r: usize)
        ensures
            r == self.spec_header_start_offset(true),
    {
        match self {
            PeVariant::V10_70 => TLS_DATA_64 + 7 * 8 + UNK_1_SIZE + 3 * 8,
            PeVariant::V9_70 => TLS_DATA_64 + 7 * 8 + 4 + UNK_1_SIZE + 8,
            PeVariant::V7_80 => TLS_DATA_64 + 7 * 8 + UNK_1_SIZE + 8,
        }
    }

    fn get_header_start_offset_32(&self) -> (r: usize)
        ensures
            r == self.spec_header_start_offset(false),
    {
        match self {
            PeVariant::V10_70 => TLS_DATA_32 + 6 * 8 + UNK_1_SIZE + UNK_2_SIZE + UNK_3_SIZE,
            PeVariant::V9_70 => TLS_DATA_32 + 6 * 8 + UNK_1_SIZE + UNK_2_SIZE,
            PeVariant::V7_80 => TLS_DATA_32 + 6 * 8 + UNK_1_SIZE + UNK_3_SIZE,
        }
    }

    /// Offset of the header in the `.enigma1` section.
    pub fn header_start_offset(&self, is_x64: bool) -> (r: usize)
        ensures
            r == self.spec_header_start_offset(is_x64),
    {
        if is_x64 {
            self.get_header_start_offset_64()
        } else {
            self.get_header_start_offset_32()
        }
    }
}

/// Of the three layouts, V10_70 places the header furthest into the section, on both
/// architectures; every offset leaves room for the twelve bytes of TLS data before it.
pub proof fn lemma_v10_70_is_furthest(v: PeVariant, is_x64: bool)
    ensures
        12 <= v.spec_header_start_offset(is_x64) <= PeVariant::V10_70.spec_header_start_offset(
            is_x64,
        ),
{
}

pub struct EmptyHeader;

#[derive(Debug)]
pub enum RestorePeError {
    Enigma1NotFound,
    /// A fixed-size record could not be read.
    Serialize,
    Pe(pelite::Error),
}

/// An image being restored, with what is known of it so far.
pub struct RestorePeContext<'r, H> {
    pub slice: &'r mut [u8],
    pub is_x64: bool,
    pub header: H,
}

impl<'r> RestorePeContext<'r, EmptyHeader> {
    pub fn new(input: &'r mut [u8]) -> (r: Self)
        ensures
            r.slice@ == old(input)@,
            final(r.slice)@ == final(input)@,
            !r.is_x64,
    {
        RestorePeContext { slice: input, is_x64: false, header: EmptyHeader }
    }
}

// ---------------------------------------------------------------------------------------
// The `.enigma1` header

/// `.enigma1`, the name of the section that holds the header.
pub open spec fn enigma1_name() -> Seq<u8> {
    seq![0x2eu8, 0x65u8, 0x6eu8, 0x69u8, 0x67u8, 0x6du8, 0x61u8, 0x31u8]
}

/// `.enigma`, the prefix of the names of the packer's sections.
pub open spec fn enigma_prefix() -> Seq<u8> {
    seq![0x2eu8, 0x65u8, 0x6eu8, 0x69u8, 0x67u8, 0x6du8, 0x61u8]
}

pub open spec fn is_enigma_section_name(s: Seq<u8>, i: int) -> bool {
    section_name(s, i).subrange(0, 7) == enigma_prefix()
}

/// Index of the first section named `.enigma1`, searching from section `i` on.
pub open spec fn enigma1_from(s: Seq<u8>, i: int) -> Option<int>
    decreases number_of_sections(s) - i,
{
    if i < 0 || i >= number_of_sections(s) {
        None
    } else if section_name(s, i) == enigma1_name() {
        Some(i)
    } else {
        enigma1_from(s, i + 1)
    }
}

pub proof fn lemma_enigma1_bounds(s: Seq<u8>, i: int)
    ensures
        enigma1_from(s, i) matches Some(j) ==> i <= j < number_of_sections(s),
    decreases number_of_sections(s) - i,
{
    if !(i < 0 || i >= number_of_sections(s)) && section_name(s, i) != enigma1_name() {
        lemma_enigma1_bounds(s, i + 1);
    }
}

/// The header as the variant `v` places it: `Some(None)` when there is no `.enigma1`
/// section; `None` when the header would lie past the end of the image.
pub open spec fn spec_enigma_header(s: Seq<u8>, is_x64: bool, v: PeVariant) -> Option<
    Option<Enigma1HeaderView>,
> {
    match enigma1_from(s, 0) {
        None => Some(None),
        Some(i) => {
            let raw = section_raw_pointer(s, i) as int;
            let at = raw + v.spec_header_start_offset(is_x64);
            if at + ENIGMA1_HEADER_SIZE > s.len() {
                None
            } else {
                Some(
                    Some(
                        Enigma1HeaderView {
                            tls_data: s.subrange(raw, raw + 12),
                            import_address: u32_le(s, at),
                            import_size: u32_le(s, at + 4),
                            reloc_address: u32_le(s, at + 8),
                            reloc_size: u32_le(s, at + 12),
                        },
                    ),
                )
            }
        },
    }
}

fn name_matches(s: &[u8], at: usize, name: &[u8; 8], n: usize) -> (r: bool)
    requires
        n <= 8,
        at + n <= s.len(),
    ensures
        r == (s@.subrange(at as int, at + n) == name@.subrange(0, n as int)),
{
    let mut k: usize = 0;
    while k < n
        invariant
            n <= 8,
            at + n <= s.len(),
            k <= n,
            forall|j: int| 0 <= j < k ==> s@[at + j] == name@[j],
        decreases n - k,
    {
        if s[at + k] != name[k] {
            assert(s@.subrange(at as int, at + n)[k as int] != name@.subrange(0, n as int)[k as int]);
            return false;
        }
        k += 1;
    }
    assert(s@.subrange(at as int, at + n) =~= name@.subrange(0, n as int));
    true
}

fn enigma_name_bytes() -> (r: [u8; 8])
    ensures
        r@ == enigma1_name(),
        r@.subrange(0, 7) == enigma_prefix(),
{
    let r = [0x2eu8, 0x65, 0x6e, 0x69, 0x67, 0x6d, 0x61, 0x31];
    assert(r@ =~= enigma1_name());
    assert(r@.subrange(0, 7) =~= enigma_prefix());
    r
}

/// Whether section `i` is one of the packer's sections (name starting with `.enigma`).
fn is_enigma_section_at(s: &[u8], l: &Layout, i: usize) -> (r: bool)
    requires
        l.section_table == layout::section_table(s@),
        i < l.number_of_sections,
        l.section_table + 40 * l.number_of_sections <= s.len(),
    ensures
        r == is_enigma_section_name(s@, i as int),
{
    let at = l.section_table + 40 * i;
    let name = enigma_name_bytes();
    let r = name_matches(s, at, &name, 7);
    assert(section_name(s@, i as int).subrange(0, 7) =~= s@.subrange(at as int, at + 7));
    r
}

fn find_enigma1(s: &[u8], l: &Layout) -> (r: Option<usize>)
    requires
        l.section_table == layout::section_table(s@),
        l.number_of_sections == number_of_sections(s@),
        l.section_table + 40 * l.number_of_sections <= s.len(),
    ensures
        r matches Some(i) ==> enigma1_from(s@, 0) == Some(i as int),
        r is None ==> enigma1_from(s@, 0) is None,
{
    let name = enigma_name_bytes();
    let mut i: usize = 0;
    while i < l.number_of_sections
        invariant
            l.section_table == layout::section_table(s@),
            l.number_of_sections == number_of_sections(s@),
            l.section_table + 40 * l.number_of_sections <= s.len(),
            name@ == enigma1_name(),
            i <= l.number_of_sections,
            enigma1_from(s@, 0) == enigma1_from(s@, i as int),
        decreases l.number_of_sections - i,
    {
        let at = l.section_table + 40 * i;
        assert(name@.subrange(0, 8) =~= name@);
        if name_matches(s, at, &name, 8) {
            return Some(i);
        }
        i += 1;
    }
    None
}

fn parse_enigma_header(s: &[u8], is_x64: bool, variant: PeVariant) -> (r: Result<
    Enigma1Header,
    RestorePeError,
>)
    requires
        pe_sound(s@, is_x64),
        spec_enigma_header(s@, is_x64, variant) is Some,
    ensures
        match r {
            Ok(h) => spec_enigma_header(s@, is_x64, variant) == Some(Some(h@)),
            Err(RestorePeError::Enigma1NotFound) => spec_enigma_header(s@, is_x64, variant)
                == Some(None::<Enigma1HeaderView>),
            Err(_) => false,
        },
{
    let l = read_layout(s, is_x64);
    let i = match find_enigma1(s, &l) {
        None => return Err(RestorePeError::Enigma1NotFound),
        Some(i) => i,
    };
    proof {
        lemma_enigma1_bounds(s@, 0);
    }
    let len = s.len();
    let raw = read_u32_le(s, l.section_table + 40 * i + 20) as usize;
    let at = raw + variant.header_start_offset(is_x64);
    let tls_data = [s[raw], s[raw + 1], s[raw + 2], s[raw + 3], s[raw + 4], s[raw + 5], s[raw + 6],
        s[raw + 7], s[raw + 8], s[raw + 9], s[raw + 10], s[raw + 11]];
    let h = Enigma1Header {
        tls_data,
        import_address: read_u32_le(s, at),
        import_size: read_u32_le(s, at + 4),
        reloc_address: read_u32_le(s, at + 8),
        reloc_size: read_u32_le(s, at + 12),
    };
    assert(tls_data@ =~= s@.subrange(raw as int, raw + 12));
    Ok(h)
}

pub open spec fn ascii_lower(b: u8) -> u8 {
    if 0x41 <= b <= 0x5a {
        (b + 0x20) as u8
    } else {
        b
    }
}

/// A name longer than four bytes that ends in `.dll`, in any case.
pub open spec fn spec_is_dll_name(name: Seq<u8>) -> bool {
    &&& name.len() > 4
    &&& ascii_lower(name[name.len() - 4]) == 0x2e
    &&& ascii_lower(name[name.len() - 3]) == 0x64
    &&& ascii_lower(name[name.len() - 2]) == 0x6c
    &&& ascii_lower(name[name.len() - 1]) == 0x6c
}

fn lower(b: u8) -> (r: u8)
    ensures
        r == ascii_lower(b),
{
    if 0x41 <= b && b <= 0x5a {
        b + 0x20
    } else {
        b
    }
}

/// Whether an imported module name is that of a DLL: longer than four bytes and ending in
/// `.dll`, compared without regard to ASCII case.
pub fn is_dll_name(name: &[u8]) -> (r: bool)
    ensures
        r == spec_is_dll_name(name@),
{
    let n = name.len();
    if n <= 4 {
        return false;
    }
    lower(name[n - 4]) == 0x2e && lower(name[n - 3]) == 0x64 && lower(name[n - 2]) == 0x6c
        && lower(name[n - 1]) == 0x6c
}

/// The inputs on which reading the header of variant `v` stays in bounds, whichever
/// architecture the headers declare.
pub open spec fn header_in_bounds(s: Seq<u8>, v: PeVariant) -> bool {
    forall|x: bool| pe_sound(s, x) ==> (#[trigger] spec_enigma_header(s, x, v)) is Some
}

/// What makes variant `v` the right one: its header names an import descriptor whose module
/// is a DLL.
pub open spec fn variant_fits(s: Seq<u8>, h: Enigma1HeaderView) -> bool {
    &&& pe_import_descriptor_name(s, h.import_address) matches Some(n)
    &&& pe_c_str(s, n) matches Some(name)
    &&& spec_is_dll_name(name)
}

/// Whether variant `v` places a header in `s` that names a DLL import.
pub open spec fn fits_at(s: Seq<u8>, x64: bool, v: PeVariant) -> bool {
    spec_enigma_header(s, x64, v) matches Some(Some(h)) && variant_fits(s, h)
}

/// The first of V10_70, V9_70 and V7_80, in this order, whose header names a DLL import.
pub open spec fn first_fit(s: Seq<u8>, x64: bool) -> Option<PeVariant> {
    if fits_at(s, x64, PeVariant::V10_70) {
        Some(PeVariant::V10_70)
    } else if fits_at(s, x64, PeVariant::V9_70) {
        Some(PeVariant::V9_70)
    } else if fits_at(s, x64, PeVariant::V7_80) {
        Some(PeVariant::V7_80)
    } else {
        None
    }
}

/// The automatic detection only ever settles on one of the three supported layouts, whose
/// header it then is: the first of them that names a DLL import, the earlier ones naming none.
/// The architecture that the headers declare is a single one.
pub proof fn lemma_auto_detection_is_a_fixed_variant(s: Seq<u8>, x1: bool, x2: bool)
    ensures
        pe_sound(s, x1) && pe_sound(s, x2) ==> x1 == x2,
        first_fit(s, x1) matches Some(v) ==> {
            &&& (v == PeVariant::V10_70 || v == PeVariant::V9_70 || v == PeVariant::V7_80)
            &&& spec_enigma_header(s, x1, v) matches Some(Some(h)) && variant_fits(s, h)
            &&& v != PeVariant::V10_70 ==> !fits_at(s, x1, PeVariant::V10_70)
            &&& v == PeVariant::V7_80 ==> !fits_at(s, x1, PeVariant::V9_70)
        },
{
}

proof fn lemma_furthest_in_bounds(s: Seq<u8>, x: bool, v: PeVariant)
    requires
        spec_enigma_header(s, x, PeVariant::V10_70) is Some,
    ensures
        spec_enigma_header(s, x, v) is Some,
{
    lemma_v10_70_is_furthest(v, x);
}

/// Reads the header of variant `v` and checks that it names a DLL import: `Ok(Some(..))` with
/// the header exactly when it does, `Ok(None)` exactly when it does not; `Err` when pelite
/// does not accept the image on reading it again.
fn try_variant(s: &[u8], is_x64: bool, v: PeVariant) -> (r: Result<
    Option<Enigma1Header>,
    pelite::Error,
>)
    requires
        pe_sound(s@, is_x64),
        spec_enigma_header(s@, is_x64, v) is Some,
    ensures
        match r {
            Ok(Some(h)) => spec_enigma_header(s@, is_x64, v) == Some(Some(h@)) && variant_fits(
                s@,
                h@,
            ),
            Ok(None) => !fits_at(s@, is_x64, v),
            Err(_) => true,
        },
{
    let header = match parse_enigma_header(s, is_x64, v) {
        Ok(h) => h,
        Err(_) => return Ok(None),
    };
    let name_rva = match pe_import_name_rva(s, header.import_address) {
        Ok(Ok(n)) => n,
        Ok(Err(_)) => return Ok(None),
        Err(e) => return Err(e),
    };
    let name = match pe_read_c_str(s, name_rva) {
        Ok(Ok(n)) => n,
        Ok(Err(_)) => return Ok(None),
        Err(e) => return Err(e),
    };
    if is_dll_name(name.as_slice()) {
        Ok(Some(header))
    } else {
        Ok(None)
    }
}

/// Whether reading the header of variant `v` stays inside the image (an image without a
/// `.enigma1` section reads no header).
fn header_within(s: &[u8], is_x64: bool, v: PeVariant) -> (r: bool)
    requires
        pe_sound(s@, is_x64),
    ensures
        r == spec_enigma_header(s@, is_x64, v) is Some,
{
    let l = read_layout(s, is_x64);
    match find_enigma1(s, &l) {
        None => true,
        Some(i) => {
            proof {
                lemma_enigma1_bounds(s@, 0);
            }
            let raw = read_u32_le(s, l.section_table + 40 * i + 20) as u64;
            let end = raw + v.header_start_offset(is_x64) as u64 + ENIGMA1_HEADER_SIZE as u64;
            end <= s.len() as u64
        },
    }
}

impl<'r> RestorePeContext<'r, EmptyHeader> {
    /// Validates the image and reads the header where the packer version `variant` puts it;
    /// `None` for an image whose header would lie past its end, on which the reading aborts.
    pub fn try_with_variant(self, variant: PeVariant) -> (r: Option<
        Result<RestorePeContext<'r, Enigma1Header>, RestorePeError>,
    >)
        ensures
            match r {
                None => {
                    &&& final(self.slice)@ == old(self.slice)@
                    &&& exists|x: bool|
                        pe_sound(old(self.slice)@, x) && (#[trigger] spec_enigma_header(
                            old(self.slice)@,
                            x,
                            variant,
                        )) is None
                },
                Some(Ok(ctx)) => {
                    &&& ctx.slice@ == old(self.slice)@
                    &&& final(ctx.slice)@ == final(self.slice)@
                    &&& pe_sound(ctx.slice@, ctx.is_x64)
                    &&& spec_enigma_header(ctx.slice@, ctx.is_x64, variant) == Some(
                        Some(ctx.header@),
                    )
                },
                Some(Err(RestorePeError::Enigma1NotFound)) => {
                    &&& final(self.slice)@ == old(self.slice)@
                    &&& exists|x: bool| pe_sound(old(self.slice)@, x)
                    &&& enigma1_from(old(self.slice)@, 0) is None
                },
                Some(Err(RestorePeError::Pe(_))) => final(self.slice)@ == old(self.slice)@,
                Some(Err(RestorePeError::Serialize)) => false,
            },
    {
        let is_x64 = match pe_validate(self.slice) {
            Ok(x) => x,
            Err(e) => return Some(Err(RestorePeError::Pe(e))),
        };
        if !header_within(self.slice, is_x64, variant) {
            return None;
        }
        let header = match parse_enigma_header(self.slice, is_x64, variant) {
            Ok(h) => h,
            Err(e) => return Some(Err(e)),
        };
        Some(Ok(RestorePeContext { slice: self.slice, is_x64, header }))
    }

    /// Validates the image and reads the header where the packer version `variant` puts it.
    /// The images whose header would lie past their end are excluded;
    /// [`RestorePeContext::try_with_variant`] tells them apart.
    pub fn with_variant(self, variant: PeVariant) -> (r: Result<
        RestorePeContext<'r, Enigma1Header>,
        RestorePeError,
    >)
        requires
            header_in_bounds(old(self.slice)@, variant),
        ensures
            match r {
                Ok(ctx) => {
                    &&& ctx.slice@ == old(self.slice)@
                    &&& final(ctx.slice)@ == final(self.slice)@
                    &&& pe_sound(ctx.slice@, ctx.is_x64)
                    &&& spec_enigma_header(ctx.slice@, ctx.is_x64, variant) == Some(
                        Some(ctx.header@),
                    )
                },
                Err(RestorePeError::Enigma1NotFound) => {
                    &&& final(self.slice)@ == old(self.slice)@
                    &&& exists|x: bool| pe_sound(old(self.slice)@, x)
                    &&& enigma1_from(old(self.slice)@, 0) is None
                },
                Err(RestorePeError::Pe(_)) => final(self.slice)@ == old(self.slice)@,
                Err(RestorePeError::Serialize) => false,
            },
    {
        self.try_with_variant(variant).unwrap()
    }

    /// Validates the image and tries the packer versions V10_70, V9_70 and V7_80 in turn,
    /// keeping the first whose header names a DLL import: `Some(Ok(Some(..)))` with it,
    /// `Some(Ok(None))` when none does, `Some(Err(..))` with pelite's error when pelite does not
    /// accept the image (its acceptance also depends on the buffer's address). `None` for an
    /// image whose V10_70 header would lie past its end, on which the search aborts.
    pub fn try_with_variant_auto(self) -> (r: Option<
        Result<Option<RestorePeContext<'r, Enigma1Header>>, pelite::Error>,
    >)
        ensures
            match r {
                None => {
                    &&& final(self.slice)@ == old(self.slice)@
                    &&& exists|x: bool|
                        pe_sound(old(self.slice)@, x) && (#[trigger] spec_enigma_header(
                            old(self.slice)@,
                            x,
                            PeVariant::V10_70,
                        )) is None
                },
                Some(Ok(Some(ctx))) => {
                    &&& ctx.slice@ == old(self.slice)@
                    &&& final(ctx.slice)@ == final(self.slice)@
                    &&& pe_sound(ctx.slice@, ctx.is_x64)
                    &&& first_fit(ctx.slice@, ctx.is_x64) matches Some(v)
                        && spec_enigma_header(ctx.slice@, ctx.is_x64, v) == Some(Some(ctx.header@))
                    &&& variant_fits(ctx.slice@, ctx.header@)
                },
                Some(Ok(None)) => {
                    &&& final(self.slice)@ == old(self.slice)@
                    &&& exists|x: bool| pe_sound(old(self.slice)@, x)
                    &&& forall|x: bool|
                        pe_sound(old(self.slice)@, x) ==> (#[trigger] first_fit(old(self.slice)@, x))
                            is None
                },
                Some(Err(_)) => final(self.slice)@ == old(self.slice)@,
            },
    {
        let is_x64 = match pe_validate(self.slice) {
            Ok(x) => x,
            Err(e) => return Some(Err(e)),
        };
        if !header_within(self.slice, is_x64, PeVariant::V10_70) {
            return None;
        }
        proof {
            lemma_furthest_in_bounds(self.slice@, is_x64, PeVariant::V9_70);
            lemma_furthest_in_bounds(self.slice@, is_x64, PeVariant::V7_80);
            lemma_auto_detection_is_a_fixed_variant(self.slice@, is_x64, !is_x64);
        }
        match try_variant(self.slice, is_x64, PeVariant::V10_70) {
            Ok(Some(header)) => return Some(Ok(Some(RestorePeContext { slice: self.slice, is_x64, header }))),
            Ok(None) => {},
            Err(e) => return Some(Err(e)),
        }
        match try_variant(self.slice, is_x64, PeVariant::V9_70) {
            Ok(Some(header)) => return Some(Ok(Some(RestorePeContext { slice: self.slice, is_x64, header }))),
            Ok(None) => {},
            Err(e) => return Some(Err(e)),
        }
        match try_variant(self.slice, is_x64, PeVariant::V7_80) {
            Ok(Some(header)) => Some(Ok(Some(RestorePeContext { slice: self.slice, is_x64, header }))),
            Ok(None) => Some(Ok(None)),
            Err(e) => Some(Err(e)),
        }
    }

    /// Validates the image and tries the packer versions V10_70, V9_70 and V7_80 in turn,
    /// keeping the first whose header names a DLL import; `None` when none does or when pelite
    /// does not accept the image. The images whose V10_70 header would lie past their end are
    /// excluded; [`RestorePeContext::try_with_variant_auto`] tells them apart, and tells
    /// pelite's refusal from the absence of a fitting variant.
    pub fn with_variant_auto(self) -> (r: Option<RestorePeContext<'r, Enigma1Header>>)
        requires
            header_in_bounds(old(self.slice)@, PeVariant::V10_70),
        ensures
            match r {
                Some(ctx) => {
                    &&& ctx.slice@ == old(self.slice)@
                    &&& final(ctx.slice)@ == final(self.slice)@
                    &&& pe_sound(ctx.slice@, ctx.is_x64)
                    &&& first_fit(ctx.slice@, ctx.is_x64) matches Some(v)
                        && spec_enigma_header(ctx.slice@, ctx.is_x64, v) == Some(Some(ctx.header@))
                    &&& variant_fits(ctx.slice@, ctx.header@)
                },
                None => final(self.slice)@ == old(self.slice)@,
            },
    {
        match self.try_with_variant_auto().unwrap() {
            Ok(found) => found,
            Err(_) => None,
        }
    }
}

// ---------------------------------------------------------------------------------------
// The packer's sections

/// A set of section indices, one bit per section.
#[derive(Debug, Clone, Copy)]
struct EnigmaMask(u128);

pub open spec fn mask_has(m: u128, i: int) -> bool {
    0 <= i < 128 && (m >> (i as u128)) & 1 == 1
}

proof fn lemma_mask_set(m: u128, i: u128, j: u128)
    requires
        i < 128,
        j < 128,
    ensures
        ((m | (1u128 << i)) >> j) & 1 == 1 <==> ((m >> j) & 1 == 1 || i == j),
{
    assert(((m | (1u128 << i)) >> j) & 1 == 1 <==> ((m >> j) & 1 == 1 || i == j)) by (bit_vector)
        requires
            i < 128,
            j < 128,
    ;
}

proof fn lemma_mask_empty(j: u128)
    requires
        j < 128,
    ensures
        (0u128 >> j) & 1 != 1,
{
    assert((0u128 >> j) & 1 != 1) by (bit_vector);
}

impl EnigmaMask {
    spec fn has(self, i: int) -> bool {
        mask_has(self.0, i)
    }

    fn is_enigma_section(&self, section_index: usize) -> (r: bool)
        requires
            section_index < 128,
        ensures
            r == self.has(section_index as int),
    {
        (self.0 >> section_index as u128) & 1 == 1
    }
}

/// The sections from `i` on fold into the least start and the greatest end of the packer's
/// sections' raw data.
pub open spec fn enigma_extent(s: Seq<u8>, i: int, least_start: int, greatest_end: int) -> (int, int)
    decreases number_of_sections(s) - i,
{
    if i < 0 || i >= number_of_sections(s) {
        (least_start, greatest_end)
    } else if is_enigma_section_name(s, i) {
        let start = section_raw_pointer(s, i) as int;
        let end = start + layout::section_raw_size(s, i) as int;
        enigma_extent(
            s,
            i + 1,
            if start < least_start {
                start
            } else {
                least_start
            },
            if end > greatest_end {
                end
            } else {
                greatest_end
            },
        )
    } else {
        enigma_extent(s, i + 1, least_start, greatest_end)
    }
}

/// Marks the packer's sections and measures where their raw data start and end.
fn enigma_sections(s: &[u8], l: &Layout) -> (r: (EnigmaMask, usize, u64))
    requires
        l.section_table == layout::section_table(s@),
        l.number_of_sections == number_of_sections(s@),
        l.number_of_sections <= 96,
        l.section_table + 40 * l.number_of_sections <= s.len(),
    ensures
        forall|i: int| 0 <= i < l.number_of_sections ==> (r.0.has(i) <==> is_enigma_section_name(s@, i)),
        forall|i: int| 0 <= i < 128 ==> (r.0.has(i) <==> marked(s@, i)),
        enigma_extent(s@, 0, s@.len() as int, 0) == (r.1 as int, r.2 as int),
        r.1 <= s@.len(),
{
    let mut mask: u128 = 0;
    let mut least_start = s.len();
    let mut greatest_end: u64 = 0;
    let mut i: usize = 0;
    proof {
        assert forall|j: int| 0 <= j < 128 implies !mask_has(0u128, j) by {
            lemma_mask_empty(j as u128);
        }
    }
    while i < l.number_of_sections
        invariant
            l.section_table == layout::section_table(s@),
            l.number_of_sections == number_of_sections(s@),
            l.number_of_sections <= 96,
            l.section_table + 40 * l.number_of_sections <= s.len(),
            i <= l.number_of_sections,
            forall|j: int| 0 <= j < i ==> (mask_has(mask, j) <==> is_enigma_section_name(s@, j)),
            forall|j: int| i <= j < 128 ==> !mask_has(mask, j),
            greatest_end <= 0x2_0000_0000,
            least_start <= s@.len(),
            enigma_extent(s@, 0, s@.len() as int, 0) == enigma_extent(
                s@,
                i as int,
                least_start as int,
                greatest_end as int,
            ),
        decreases l.number_of_sections - i,
    {
        if is_enigma_section_at(s, l, i) {
            let ghost old_mask = mask;
            mask = mask | (1u128 << i as u128);
            proof {
                assert forall|j: int| 0 <= j < 128 implies (mask_has(mask, j) <==> (mask_has(
                    old_mask,
                    j,
                ) || j == i)) by {
                    lemma_mask_set(old_mask, i as u128, j as u128);
                }
            }
            let start = read_u32_le(s, l.section_table + 40 * i + 20);
            let end = start as u64 + read_u32_le(s, l.section_table + 40 * i + 16) as u64;
            if (start as usize) < least_start {
                least_start = start as usize;
            }
            if end > greatest_end {
                greatest_end = end;
            }
        }
        i += 1;
    }
    (EnigmaMask(mask), least_start, greatest_end)
}

// ---------------------------------------------------------------------------------------
// Searches in the sections' raw data

/// Whether `s[from..from + size]` is all zero.
pub open spec fn all_zero(s: Seq<u8>, from: int, size: int) -> bool {
    forall|j: int| 0 <= j < size ==> #[trigger] s[from + j] == 0
}

/// The first position `k` (from `k` on) of a window of `size` zero bytes in the `len` bytes at
/// `start`.
pub open spec fn zero_window(s: Seq<u8>, start: int, len: int, size: int, k: int) -> Option<int>
    decreases len - k,
{
    if size <= 0 || k < 0 || k + size > len {
        None
    } else if all_zero(s, start + k, size) {
        Some(k)
    } else {
        zero_window(s, start, len, size, k + 1)
    }
}

/// The first position `k` (from `k` on) where the `len` bytes at `start` hold `pat`.
pub open spec fn pattern_window(s: Seq<u8>, start: int, len: int, pat: Seq<u8>, k: int) -> Option<
    int,
>
    decreases len - k,
{
    if pat.len() == 0 || k < 0 || k + pat.len() > len {
        None
    } else if s.subrange(start + k, start + k + pat.len()) == pat {
        Some(k)
    } else {
        pattern_window(s, start, len, pat, k + 1)
    }
}

pub proof fn lemma_zero_window_bounds(s: Seq<u8>, start: int, len: int, size: int, k: int)
    ensures
        zero_window(s, start, len, size, k) matches Some(j) ==> k <= j && j + size <= len,
    decreases len - k,
{
    if !(size <= 0 || k < 0 || k + size > len) && !all_zero(s, start + k, size) {
        lemma_zero_window_bounds(s, start, len, size, k + 1);
    }
}

pub proof fn lemma_pattern_window_bounds(s: Seq<u8>, start: int, len: int, pat: Seq<u8>, k: int)
    ensures
        pattern_window(s, start, len, pat, k) matches Some(j) ==> k <= j && j + pat.len() <= len,
    decreases len - k,
{
    if !(pat.len() == 0 || k < 0 || k + pat.len() > len) && s.subrange(
        start + k,
        start + k + pat.len(),
    ) != pat {
        lemma_pattern_window_bounds(s, start, len, pat, k + 1);
    }
}

fn is_zero_run(s: &[u8], from: usize, size: usize) -> (r: bool)
    requires
        from + size <= s.len(),
    ensures
        r == all_zero(s@, from as int, size as int),
{
    let mut j: usize = 0;
    while j < size
        invariant
            from + size <= s.len(),
            j <= size,
            forall|t: int| 0 <= t < j ==> #[trigger] s@[from + t] == 0,
        decreases size - j,
    {
        if s[from + j] != 0 {
            assert(s@[from + j] != 0);
            return false;
        }
        j += 1;
    }
    true
}

fn matches_at(s: &[u8], from: usize, pat: &[u8; 12]) -> (r: bool)
    requires
        from + 12 <= s.len(),
    ensures
        r == (s@.subrange(from as int, from + 12) == pat@),
{
    let mut j: usize = 0;
    while j < 12
        invariant
            from + 12 <= s.len(),
            pat@.len() == 12,
            j <= 12,
            forall|t: int| 0 <= t < j ==> #[trigger] s@[from + t] == pat@[t],
        decreases 12 - j,
    {
        if s[from + j] != pat[j] {
            assert(s@.subrange(from as int, from + 12)[j as int] != pat@[j as int]);
            return false;
        }
        j += 1;
    }
    assert forall|t: int| 0 <= t < 12 implies #[trigger] s@.subrange(from as int, from + 12)[t]
        == pat@[t] by {
        assert(s@[from + t] == pat@[t]);
    }
    assert(s@.subrange(from as int, from + 12) =~= pat@);
    true
}

fn find_zero_window(s: &[u8], start: usize, len: usize, size: usize) -> (r: Option<usize>)
    requires
        start + len <= s.len(),
        size > 0,
    ensures
        r matches Some(k) ==> zero_window(s@, start as int, len as int, size as int, 0) == Some(
            k as int,
        ),
        r is None ==> zero_window(s@, start as int, len as int, size as int, 0) is None,
{
    if size > len {
        return None;
    }
    let mut k: usize = 0;
    while k <= len - size
        invariant
            start + len <= s.len(),
            0 < size <= len,
            k <= len - size + 1,
            zero_window(s@, start as int, len as int, size as int, 0) == zero_window(
                s@,
                start as int,
                len as int,
                size as int,
                k as int,
            ),
        decreases len - size + 1 - k,
    {
        let zero = is_zero_run(s, start + k, size);
        if zero {
            return Some(k);
        }
        k += 1;
    }
    None
}

fn find_pattern_window(s: &[u8], start: usize, len: usize, pat: &[u8; 12]) -> (r: Option<usize>)
    requires
        start + len <= s.len(),
    ensures
        r matches Some(k) ==> pattern_window(s@, start as int, len as int, pat@, 0) == Some(
            k as int,
        ),
        r is None ==> pattern_window(s@, start as int, len as int, pat@, 0) is None,
{
    if 12 > len {
        return None;
    }
    let mut k: usize = 0;
    while k <= len - 12
        invariant
            start + len <= s.len(),
            12 <= len,
            pat@.len() == 12,
            k <= len - 12 + 1,
            pattern_window(s@, start as int, len as int, pat@, 0) == pattern_window(
                s@,
                start as int,
                len as int,
                pat@,
                k as int,
            ),
        decreases len - 12 + 1 - k,
    {
        let same = matches_at(s, start + k, pat);
        if same {
            return Some(k);
        }
        k += 1;
    }
    None
}

/// The first section, from `i` on, whose virtual range (`VirtualAddress` up to its wrapping sum
/// with `VirtualSize`) holds `a`.
pub open spec fn containing_section(s: Seq<u8>, a: u32, i: int) -> Option<int>
    decreases number_of_sections(s) - i,
{
    if i < 0 || i >= number_of_sections(s) {
        None
    } else if section_virtual_address(s, i) <= a && (a as int) < (section_virtual_address(s, i)
        as int + section_virtual_size(s, i) as int) % 0x1_0000_0000 {
        Some(i)
    } else {
        containing_section(s, a, i + 1)
    }
}

pub proof fn lemma_containing_section_bounds(s: Seq<u8>, a: u32, i: int)
    ensures
        containing_section(s, a, i) matches Some(j) ==> i <= j < number_of_sections(s),
    decreases number_of_sections(s) - i,
{
    if !(i < 0 || i >= number_of_sections(s)) && !(section_virtual_address(s, i) <= a && (a as int)
        < (section_virtual_address(s, i) as int + section_virtual_size(s, i) as int)
        % 0x1_0000_0000) {
        lemma_containing_section_bounds(s, a, i + 1);
    }
}

fn find_containing_section(s: &[u8], l: &Layout, a: u32) -> (r: Option<usize>)
    requires
        l.section_table == layout::section_table(s@),
        l.number_of_sections == number_of_sections(s@),
        l.section_table + 40 * l.number_of_sections <= s.len(),
    ensures
        r matches Some(i) ==> containing_section(s@, a, 0) == Some(i as int),
        r is None ==> containing_section(s@, a, 0) is None,
{
    let mut i: usize = 0;
    while i < l.number_of_sections
        invariant
            l.section_table == layout::section_table(s@),
            l.number_of_sections == number_of_sections(s@),
            l.section_table + 40 * l.number_of_sections <= s.len(),
            i <= l.number_of_sections,
            containing_section(s@, a, 0) == containing_section(s@, a, i as int),
        decreases l.number_of_sections - i,
    {
        let at = l.section_table + 40 * i;
        let va = read_u32_le(s, at + 12);
        let vs = read_u32_le(s, at + 8);
        let end = ((va as u64 + vs as u64) % 0x1_0000_0000) as u32;
        if va <= a && a < end {
            return Some(i);
        }
        i += 1;
    }
    None
}

/// The first section from `i` on that is not the packer's and whose raw data hold `size` zero
/// bytes in a row: the virtual address of the first such run, and the section.
/// `None` stands for raw data out of bounds or an address past `u32::MAX`.
pub open spec fn zero_hole_from(s: Seq<u8>, size: int, i: int) -> Option<Option<(u32, int)>>
    decreases number_of_sections(s) - i,
{
    if i < 0 || i >= number_of_sections(s) {
        Some(None)
    } else if is_enigma_section_name(s, i) {
        zero_hole_from(s, size, i + 1)
    } else {
        let p = section_raw_pointer(s, i) as int;
        let r = section_raw_size(s, i) as int;
        if p + r > s.len() {
            None
        } else {
            match zero_window(s, p, r, size, 0) {
                Some(k) => if section_virtual_address(s, i) + k > u32::MAX {
                    None
                } else {
                    Some(Some(((section_virtual_address(s, i) + k) as u32, i)))
                },
                None => zero_hole_from(s, size, i + 1),
            }
        }
    }
}

/// The first section from `i` on that is not the packer's and whose raw data hold `pat`: the
/// virtual address where it does. `None` stands for raw data out of bounds or an address past
/// `u32::MAX`.
pub open spec fn pattern_from(s: Seq<u8>, pat: Seq<u8>, i: int) -> Option<Option<u32>>
    decreases number_of_sections(s) - i,
{
    if i < 0 || i >= number_of_sections(s) {
        Some(None)
    } else if is_enigma_section_name(s, i) {
        pattern_from(s, pat, i + 1)
    } else {
        let p = section_raw_pointer(s, i) as int;
        let r = section_raw_size(s, i) as int;
        if p + r > s.len() {
            None
        } else {
            match pattern_window(s, p, r, pat, 0) {
                Some(k) => if section_virtual_address(s, i) + k > u32::MAX {
                    None
                } else {
                    Some(Some((section_virtual_address(s, i) + k) as u32))
                },
                None => pattern_from(s, pat, i + 1),
            }
        }
    }
}

/// The first exception entry, from `c` on, whose function starts in one of the packer's
/// sections.
pub open spec fn first_packed_entry(s: Seq<u8>, start: int, stride: int, count: int, c: int) -> Option<
    int,
>
    decreases count - c,
{
    if c < 0 || c >= count {
        None
    } else {
        match containing_section(s, u32_le(s, start + c * stride), 0) {
            Some(h) => if is_enigma_section_name(s, h) {
                Some(c)
            } else {
                first_packed_entry(s, start, stride, count, c + 1)
            },
            None => first_packed_entry(s, start, stride, count, c + 1),
        }
    }
}

pub proof fn lemma_first_packed_entry_bounds(s: Seq<u8>, start: int, stride: int, count: int, c: int)
    ensures
        first_packed_entry(s, start, stride, count, c) matches Some(j) ==> c <= j < count,
    decreases count - c,
{
    if !(c < 0 || c >= count) {
        lemma_first_packed_entry_bounds(s, start, stride, count, c + 1);
    }
}

pub proof fn lemma_zero_hole_bounds(s: Seq<u8>, size: int, i: int)
    ensures
        zero_hole_from(s, size, i) matches Some(Some((rva, j))) ==> i <= j < number_of_sections(s)
            && !is_enigma_section_name(s, j) && section_virtual_address(s, j) <= rva,
    decreases number_of_sections(s) - i,
{
    if !(i < 0 || i >= number_of_sections(s)) {
        if is_enigma_section_name(s, i) {
            lemma_zero_hole_bounds(s, size, i + 1);
        } else {
            let p = section_raw_pointer(s, i) as int;
            let r = section_raw_size(s, i) as int;
            lemma_zero_window_bounds(s, p, r, size, 0);
            if p + r <= s.len() && zero_window(s, p, r, size, 0) is None {
                lemma_zero_hole_bounds(s, size, i + 1);
            }
        }
    }
}

/// Where the exception table is kept: its file offset and the size kept, and, when a run of
/// zero bytes can take it, its new address, file offset and section.
pub struct ExceptionPatchView {
    pub start: int,
    pub size: int,
    pub dest: Option<(u32, int, int)>,
}

/// The exception table that stays: the entries before the first whose function lies in the
/// packer's sections. `Some(Err(()))` when pelite maps no file offset to the table;
/// `None` stands for an input on which restoring aborts.
pub open spec fn spec_exception(s: Seq<u8>, x64: bool) -> Option<
    Result<Option<ExceptionPatchView>, ()>,
> {
    if layout::data_dir_count(s, x64) <= 3 {
        None
    } else {
        let va = layout::data_dir_va(s, x64, 3);
        let size = layout::data_dir_size(s, x64, 3) as int;
        let stride: int = if x64 {
            12
        } else {
            20
        };
        if va == 0 || size < stride {
            Some(Ok(None))
        } else {
            match pe_rva_file_offset(s, va) {
                None => Some(Err(())),
                Some(start) => if start + size > s.len() {
                    None
                } else {
                    let count = size / stride;
                    let valid = match first_packed_entry(s, start as int, stride, count, 0) {
                        Some(c) => c,
                        None => count,
                    };
                    let new_size = valid * stride;
                    if new_size == 0 {
                        Some(
                            Ok(Some(ExceptionPatchView { start: start as int, size: 0, dest: None })),
                        )
                    } else {
                        match zero_hole_from(s, new_size, 0) {
                            None => None,
                            Some(None) => Some(
                                Ok(
                                    Some(
                                        ExceptionPatchView {
                                            start: start as int,
                                            size: new_size,
                                            dest: None,
                                        },
                                    ),
                                ),
                            ),
                            Some(Some((rva, index))) => match pe_rva_file_offset(s, rva) {
                                None => None,
                                Some(d) => Some(
                                    Ok(
                                        Some(
                                            ExceptionPatchView {
                                                start: start as int,
                                                size: new_size,
                                                dest: Some((rva, d as int, index)),
                                            },
                                        ),
                                    ),
                                ),
                            },
                        }
                    }
                },
            }
        }
    }
}

/// Layout facts that the analysis functions rely on.
pub open spec fn layout_fits(l: Layout, s: Seq<u8>, x64: bool) -> bool {
    &&& layout_of(l, s, x64)
    &&& l.number_of_sections <= 128
    &&& l.section_table + 40 * l.number_of_sections <= s.len()
    &&& l.data_dir + 8 * l.data_dir_count <= s.len()
}

fn find_zero_hole(s: &[u8], l: &Layout, mask: EnigmaMask, size: usize) -> (r: Option<
    Option<(u32, usize)>,
>)
    requires
        layout_fits(*l, s@, false) || layout_fits(*l, s@, true),
        forall|i: int| 0 <= i < l.number_of_sections ==> (mask.has(i) <==> is_enigma_section_name(s@, i)),
        size > 0,
    ensures
        match r {
            None => zero_hole_from(s@, size as int, 0) is None,
            Some(None) => zero_hole_from(s@, size as int, 0) == Some(None::<(u32, int)>),
            Some(Some((rva, i))) => zero_hole_from(s@, size as int, 0) == Some(
                Some((rva, i as int)),
            ),
        },
{
    let len = s.len();
    let mut i: usize = 0;
    while i < l.number_of_sections
        invariant
            layout_fits(*l, s@, false) || layout_fits(*l, s@, true),
            forall|i: int| 0 <= i < l.number_of_sections ==> (mask.has(i) <==> is_enigma_section_name(s@, i)),
            size > 0,
            len == s@.len(),
            i <= l.number_of_sections,
            zero_hole_from(s@, size as int, 0) == zero_hole_from(s@, size as int, i as int),
        decreases l.number_of_sections - i,
    {
        if !mask.is_enigma_section(i) {
            let at = l.section_table + 40 * i;
            let raw_offset = read_u32_le(s, at + 20) as usize;
            let raw_size = read_u32_le(s, at + 16) as usize;
            if raw_offset > len || raw_size > len - raw_offset {
                return None;
            }
            match find_zero_window(s, raw_offset, raw_size, size) {
                Some(k) => {
                    proof {
                        lemma_zero_window_bounds(s@, raw_offset as int, raw_size as int, size as int, 0);
                    }
                    let va = read_u32_le(s, at + 12);
                    if k as u64 > u32::MAX as u64 - va as u64 {
                        return None;
                    }
                    return Some(Some((va + k as u32, i)));
                },
                None => {},
            }
        }
        i += 1;
    }
    Some(None)
}

fn find_pattern(s: &[u8], l: &Layout, mask: EnigmaMask, pat: &[u8; 12]) -> (r: Option<Option<u32>>)
    requires
        layout_fits(*l, s@, false) || layout_fits(*l, s@, true),
        forall|i: int| 0 <= i < l.number_of_sections ==> (mask.has(i) <==> is_enigma_section_name(s@, i)),
    ensures
        match r {
            None => pattern_from(s@, pat@, 0) is None,
            Some(t) => pattern_from(s@, pat@, 0) == Some(t),
        },
{
    let len = s.len();
    let mut i: usize = 0;
    while i < l.number_of_sections
        invariant
            layout_fits(*l, s@, false) || layout_fits(*l, s@, true),
            forall|i: int| 0 <= i < l.number_of_sections ==> (mask.has(i) <==> is_enigma_section_name(s@, i)),
            len == s@.len(),
            pat@.len() == 12,
            i <= l.number_of_sections,
            pattern_from(s@, pat@, 0) == pattern_from(s@, pat@, i as int),
        decreases l.number_of_sections - i,
    {
        if !mask.is_enigma_section(i) {
            let at = l.section_table + 40 * i;
            let raw_offset = read_u32_le(s, at + 20) as usize;
            let raw_size = read_u32_le(s, at + 16) as usize;
            if raw_offset > len || raw_size > len - raw_offset {
                return None;
            }
            match find_pattern_window(s, raw_offset, raw_size, pat) {
                Some(k) => {
                    proof {
                        lemma_pattern_window_bounds(s@, raw_offset as int, raw_size as int, pat@, 0);
                    }
                    let va = read_u32_le(s, at + 12);
                    if k as u64 > u32::MAX as u64 - va as u64 {
                        return None;
                    }
                    return Some(Some(va + k as u32));
                },
                None => {},
            }
        }
        i += 1;
    }
    Some(None)
}

fn find_first_packed_entry(
    s: &[u8],
    l: &Layout,
    mask: EnigmaMask,
    start: usize,
    stride: usize,
    count: usize,
) -> (r: Option<usize>)
    requires
        layout_fits(*l, s@, false) || layout_fits(*l, s@, true),
        forall|i: int| 0 <= i < l.number_of_sections ==> (mask.has(i) <==> is_enigma_section_name(s@, i)),
        stride >= 4,
        start + count * stride <= s.len(),
    ensures
        r matches Some(c) ==> first_packed_entry(s@, start as int, stride as int, count as int, 0)
            == Some(c as int),
        r is None ==> first_packed_entry(s@, start as int, stride as int, count as int, 0) is None,
{
    let mut c: usize = 0;
    while c < count
        invariant
            layout_fits(*l, s@, false) || layout_fits(*l, s@, true),
            forall|i: int| 0 <= i < l.number_of_sections ==> (mask.has(i) <==> is_enigma_section_name(s@, i)),
            stride >= 4,
            start + count * stride <= s.len(),
            c <= count,
            first_packed_entry(s@, start as int, stride as int, count as int, 0)
                == first_packed_entry(s@, start as int, stride as int, count as int, c as int),
        decreases count - c,
    {
        proof {
            assert(c * stride + stride <= count * stride) by (nonlinear_arith)
                requires
                    c < count,
                    stride > 0,
            ;
        }
        let begin = read_u32_le(s, start + c * stride);
        match find_containing_section(s, l, begin) {
            Some(h) => {
                proof {
                    lemma_containing_section_bounds(s@, begin, 0);
                }
                if mask.is_enigma_section(h) {
                    return Some(c);
                }
            },
            None => {},
        }
        c += 1;
    }
    None
}

struct ExceptionPatch {
    exception_start: usize,
    new_exception_size: usize,
    /// New address, file offset and section of the table, when a place was found.
    dest: Option<(u32, usize, usize)>,
}

spec fn patch_view(p: ExceptionPatch) -> ExceptionPatchView {
    ExceptionPatchView {
        start: p.exception_start as int,
        size: p.new_exception_size as int,
        dest: match p.dest {
            Some((rva, d, i)) => Some((rva, d as int, i as int)),
            None => None,
        },
    }
}

spec fn opt_patch_view(p: Option<ExceptionPatch>) -> Option<ExceptionPatchView> {
    match p {
        Some(p) => Some(patch_view(p)),
        None => None,
    }
}

spec fn patch_fits(p: Option<ExceptionPatch>, len: int, sections: int) -> bool {
    match p {
        Some(p) => {
            &&& p.exception_start + p.new_exception_size <= len
            &&& match p.dest {
                Some((_, _, i)) => i < sections,
                None => true,
            }
        },
        None => true,
    }
}

/// Whether section `i` holds `rva` in its virtual range, and then the file offset it maps
/// `rva` to.
fn section_maps(s: &[u8], x64: bool, l: &Layout, i: usize, rva: u32) -> (r: (bool, Option<usize>))
    requires
        layout_fits(*l, s@, x64),
        i < l.number_of_sections,
    ensures
        r.0 ==> rva_in_sections(s@, rva, i as int) == r.1,
        !r.0 ==> rva_in_sections(s@, rva, i as int) == rva_in_sections(s@, rva, i + 1),
{
    proof {
        assert(40 * i + 40 <= 40 * l.number_of_sections) by (nonlinear_arith)
            requires
                i < l.number_of_sections,
        ;
    }
    let len = s.len();
    assert(l.section_table + 40 * i + 40 <= len);
    let at = l.section_table + 40 * i;
    let virtual_size = read_u32_le(s, at + 8);
    let va = read_u32_le(s, at + 12);
    let raw_size = read_u32_le(s, at + 16);
    let raw = read_u32_le(s, at + 20);
    let extent = if virtual_size > raw_size {
        virtual_size
    } else {
        raw_size
    };
    let wide_end = va as u64 + extent as u64;
    let end: u64 = if wide_end >= 0x1_0000_0000 {
        wide_end - 0x1_0000_0000
    } else {
        wide_end
    };
    assert(end == (va as int + extent as int) % 0x1_0000_0000) by {
        if wide_end >= 0x1_0000_0000 {
            assert((va as int + extent as int) % 0x1_0000_0000 == va as int + extent as int
                - 0x1_0000_0000) by (nonlinear_arith)
                requires
                    0x1_0000_0000 <= (va as int + extent as int) < 0x2_0000_0000,
            ;
        } else {
            assert((va as int + extent as int) % 0x1_0000_0000 == va as int + extent as int)
                by (nonlinear_arith)
                requires
                    0 <= (va as int + extent as int) < 0x1_0000_0000,
            ;
        }
    }
    assert(at == section_offset(s@, i as int));
    assert(va == section_virtual_address(s@, i as int));
    assert(virtual_size == section_virtual_size(s@, i as int));
    assert(raw_size == section_raw_size(s@, i as int));
    assert(raw == section_raw_pointer(s@, i as int));
    if va <= rva && (rva as u64) < end {
        if raw as u64 + raw_size as u64 > u32::MAX as u64 {
            return (true, None);
        }
        if rva - va < raw_size {
            return (true, Some((rva - va + raw) as usize));
        }
        return (true, None);
    }
    (false, None)
}

/// The file offset of `rva`, found as pelite's `rva_to_file_offset` finds it: an address below
/// `SizeOfHeaders` is its own offset, else the first section whose virtual range holds it maps
/// it into its raw data.
fn rva_file_offset(s: &[u8], x64: bool, l: &Layout, rva: u32) -> (r: Option<usize>)
    requires
        layout_fits(*l, s@, x64),
    ensures
        r == pe_rva_file_offset(s@, rva),
{
    let size_of_headers = read_u32_le(s, l.nt + 24 + 60);
    if rva < size_of_headers {
        return Some(rva as usize);
    }
    let mut i: usize = 0;
    while i < l.number_of_sections
        invariant
            layout_fits(*l, s@, x64),
            i <= l.number_of_sections,
            pe_rva_file_offset(s@, rva) == rva_in_sections(s@, rva, i as int),
        decreases l.number_of_sections - i,
    {
        let (found, r) = section_maps(s, x64, l, i, rva);
        if found {
            return r;
        }
        i += 1;
    }
    None
}

fn analyze_exception_table(s: &[u8], x64: bool, l: &Layout, mask: EnigmaMask) -> (r: Result<
    Option<ExceptionPatch>,
    RestorePeError,
>)
    requires
        pe_sound(s@, x64),
        layout_fits(*l, s@, x64),
        forall|i: int| 0 <= i < l.number_of_sections ==> (mask.has(i) <==> is_enigma_section_name(s@, i)),
    ensures
        match r {
            Ok(p) => {
                &&& spec_exception(s@, x64) == Some(
                    Ok::<Option<ExceptionPatchView>, ()>(opt_patch_view(p)),
                )
                &&& patch_fits(p, s@.len() as int, l.number_of_sections as int)
            },
            Err(RestorePeError::Pe(_)) => spec_exception(s@, x64) == Some(
                Err::<Option<ExceptionPatchView>, ()>(()),
            ),
            Err(RestorePeError::Serialize) => spec_exception(s@, x64) is None,
            Err(_) => false,
        },
{
    let len = s.len();
    if l.data_dir_count <= 3 {
        return Err(RestorePeError::Serialize);
    }
    let stride: usize = if x64 {
        12
    } else {
        20
    };
    let va = read_u32_le(s, l.data_dir + 24);
    let size = read_u32_le(s, l.data_dir + 28);
    if va == 0 || size < stride as u32 {
        return Ok(None);
    }
    let start = match rva_file_offset(s, x64, l, va) {
        Some(o) => o,
        None => match pe_rva_to_file_offset(s, va) {
            Ok(Ok(o)) => o,
            Ok(Err(e)) => return Err(RestorePeError::Pe(e)),
            Err(e) => return Err(RestorePeError::Pe(e)),
        },
    };
    if start > len || size as usize > len - start {
        return Err(RestorePeError::Serialize);
    }
    let count = size as usize / stride;
    proof {
        assert(count * stride <= size) by (nonlinear_arith)
            requires
                count == size as int / stride as int,
                stride > 0,
        ;
    }
    let valid = match find_first_packed_entry(s, l, mask, start, stride, count) {
        Some(c) => c,
        None => count,
    };
    proof {
        lemma_first_packed_entry_bounds(s@, start as int, stride as int, count as int, 0);
        assert(valid * stride <= count * stride) by (nonlinear_arith)
            requires
                valid <= count,
        ;
    }
    let new_size = valid * stride;
    if new_size == 0 {
        return Ok(Some(ExceptionPatch { exception_start: start, new_exception_size: 0, dest: None }));
    }
    proof {
        lemma_zero_hole_bounds(s@, new_size as int, 0);
    }
    match find_zero_hole(s, l, mask, new_size) {
        None => Err(RestorePeError::Serialize),
        Some(None) => Ok(
            Some(ExceptionPatch { exception_start: start, new_exception_size: new_size, dest: None }),
        ),
        Some(Some((rva, index))) => match rva_file_offset(s, x64, l, rva) {
            Some(d) => Ok(
                Some(
                    ExceptionPatch {
                        exception_start: start,
                        new_exception_size: new_size,
                        dest: Some((rva, d, index)),
                    },
                ),
            ),
            None => Err(RestorePeError::Serialize),
        },
    }
}

/// What the analysis of a packed image finds: where the packer's raw data begin and end,
/// the exception table to keep, and the address of the original TLS data.
pub struct AnalysisView {
    pub final_end: int,
    pub max_end: int,
    pub exception: Option<ExceptionPatchView>,
    pub tls_rva: Option<u32>,
}

/// The analysis of image `s`, given the header's TLS bytes. `Some(Err(()))` when pelite maps
/// no file offset to the exception table; `None` stands for an input on which restoring
/// aborts.
#[verifier::opaque]
pub open spec fn spec_analysis(s: Seq<u8>, x64: bool, tls: Seq<u8>) -> Option<
    Result<AnalysisView, ()>,
> {
    let extent = enigma_extent(s, 0, s.len() as int, 0);
    match spec_exception(s, x64) {
        None => None,
        Some(Err(())) => Some(Err(())),
        Some(Ok(exception)) => match pattern_from(s, tls, 0) {
            None => None,
            Some(tls_rva) => Some(
                Ok(AnalysisView { final_end: extent.0, max_end: extent.1, exception, tls_rva }),
            ),
        },
    }
}

struct PeAnalysis {
    exception_patch: Option<ExceptionPatch>,
    tls_rva: Option<u32>,
    enigma_mask: EnigmaMask,
    final_physical_end: usize,
    max_enigma_end: u64,
}

fn analyze_pe(s: &[u8], x64: bool, l: &Layout, tls: &[u8; 12]) -> (r: Result<
    PeAnalysis,
    RestorePeError,
>)
    requires
        pe_sound(s@, x64),
        layout_of(*l, s@, x64),
    ensures
        match r {
            Ok(a) => {
                &&& spec_analysis(s@, x64, tls@) == Some(
                    Ok::<AnalysisView, ()>(
                        AnalysisView {
                            final_end: a.final_physical_end as int,
                            max_end: a.max_enigma_end as int,
                            exception: opt_patch_view(a.exception_patch),
                            tls_rva: a.tls_rva,
                        },
                    ),
                )
                &&& forall|i: int|
                    0 <= i < l.number_of_sections ==> (a.enigma_mask.has(i)
                        <==> is_enigma_section_name(s@, i))
                &&& forall|i: int| 0 <= i < 128 ==> (a.enigma_mask.has(i) <==> marked(s@, i))
                &&& patch_fits(a.exception_patch, s@.len() as int, l.number_of_sections as int)
                &&& a.final_physical_end <= s@.len()
            },
            Err(RestorePeError::Pe(_)) => spec_analysis(s@, x64, tls@) == Some(
                Err::<AnalysisView, ()>(()),
            ) && spec_exception(s@, x64) == Some(Err::<Option<ExceptionPatchView>, ()>(())),
            Err(RestorePeError::Serialize) => spec_analysis(s@, x64, tls@) is None,
            Err(_) => false,
        },
{
    reveal(spec_analysis);
    let (enigma_mask, final_physical_end, max_enigma_end) = enigma_sections(s, l);
    let exception_patch = match analyze_exception_table(s, x64, l, enigma_mask) {
        Ok(p) => p,
        Err(e) => return Err(e),
    };
    let tls_rva = match find_pattern(s, l, enigma_mask, tls) {
        Some(t) => t,
        None => return Err(RestorePeError::Serialize),
    };
    Ok(PeAnalysis { exception_patch, tls_rva, enigma_mask, final_physical_end, max_enigma_end })
}

// ---------------------------------------------------------------------------------------
// Restoring

/// Whether the analysis of `s` marked section `i` as one of the packer's.
pub open spec fn marked(s: Seq<u8>, i: int) -> bool {
    0 <= i < number_of_sections(s) && is_enigma_section_name(s, i)
}

/// How many of the sections from `i` on, in the section table of `lay`, are marked in `s`.
pub open spec fn packed_count(lay: Seq<u8>, s: Seq<u8>, i: int) -> int
    decreases number_of_sections(lay) - i,
{
    if i < 0 || i >= number_of_sections(lay) {
        0
    } else {
        (if marked(s, i) {
            1int
        } else {
            0int
        }) + packed_count(lay, s, i + 1)
    }
}

/// The last section from `i` on, in the section table of `lay`, that is not marked in `s`;
/// `last` if there is none.
pub open spec fn last_unpacked(lay: Seq<u8>, s: Seq<u8>, i: int, last: int) -> int
    decreases number_of_sections(lay) - i,
{
    if i < 0 || i >= number_of_sections(lay) {
        last
    } else if marked(s, i) {
        last_unpacked(lay, s, i + 1, last)
    } else {
        last_unpacked(lay, s, i + 1, i)
    }
}

/// `t` with `VirtualSize`, `SizeOfRawData`, `PointerToRawData` and `VirtualAddress` cleared in
/// the section headers from `i` on (as laid out in `lay`) that are marked in `s`.
#[verifier::opaque]
pub open spec fn clear_packed(t: Seq<u8>, lay: Seq<u8>, s: Seq<u8>, i: int) -> Seq<u8>
    decreases number_of_sections(lay) - i,
{
    if i < 0 || i >= number_of_sections(lay) {
        t
    } else {
        let o = section_offset(lay, i);
        let t1 = if marked(s, i) {
            with_u32_le(
                with_u32_le(with_u32_le(with_u32_le(t, o + 8, 0), o + 16, 0), o + 20, 0),
                o + 12,
                0,
            )
        } else {
            t
        };
        clear_packed(t1, lay, s, i + 1)
    }
}

/// The exception directory entry written into `t` (headers as laid out in `lay`), and, for a
/// moved table, the size of raw data of the section that takes it (from its start to the
/// table's end). `None` where restoring aborts: a section index past the table, or an
/// underflow or overflow of that size.
pub open spec fn write_exception_dir(t: Seq<u8>, lay: Seq<u8>, x64: bool, a: AnalysisView) -> Option<
    Seq<u8>,
> {
    let dd = layout::data_dir_offset(lay, x64);
    match a.exception {
        Some(p) => match p.dest {
            Some((rva, _, index)) => {
                let t1 = with_u32_le(with_u32_le(t, dd + 24, rva), dd + 28, p.size as u32);
                let o = section_offset(lay, index);
                let va = u32_le(t1, o + 12);
                if index < 0 || index >= number_of_sections(lay) {
                    None
                } else if rva < va || rva - va + p.size > u32::MAX {
                    None
                } else {
                    Some(with_u32_le(t1, o + 16, (rva - va + p.size) as u32))
                }
            },
            None => Some(with_u32_le(with_u32_le(t, dd + 24, 0), dd + 28, 0)),
        },
        None => Some(with_u32_le(with_u32_le(t, dd + 24, 0), dd + 28, 0)),
    }
}

/// The import, relocation, exception and TLS directory entries written into `t`, in the
/// data directory of `lay`.
#[verifier::opaque]
pub open spec fn write_directories(
    t: Seq<u8>,
    lay: Seq<u8>,
    x64: bool,
    h: Enigma1HeaderView,
    a: AnalysisView,
) -> Option<Seq<u8>> {
    let dd = layout::data_dir_offset(lay, x64);
    let t1 = with_u32_le(with_u32_le(t, dd + 8, h.import_address), dd + 12, h.import_size);
    let t2 = with_u32_le(with_u32_le(t1, dd + 40, h.reloc_address), dd + 44, h.reloc_size);
    match write_exception_dir(t2, lay, x64, a) {
        None => None,
        Some(t3) => Some(
            match a.tls_rva {
                Some(rva) => with_u32_le(
                    with_u32_le(t3, dd + 72, rva),
                    dd + 76,
                    if x64 {
                        40
                    } else {
                        24
                    },
                ),
                None => with_u32_le(with_u32_le(t3, dd + 72, 0), dd + 76, 0),
            },
        ),
    }
}

/// After the marked section headers are cleared: their number taken off
/// `NumberOfSections`, `CheckSum` zero, `SizeOfImage` to the end of the last remaining
/// section (headers as laid out in `lay`).
#[verifier::opaque]
pub open spec fn finish_headers(t: Seq<u8>, lay: Seq<u8>, s: Seq<u8>) -> Option<Seq<u8>> {
    let nt = layout::nt_offset(lay);
    let opt = layout::opt_offset(lay);
    let sections = u16_le(t, nt + 6) - packed_count(lay, s, 0);
    if sections < 0 {
        None
    } else {
        let t6 = with_u16_le(t, nt + 6, sections as u16);
        let t7 = with_u32_le(t6, opt + 64, 0);
        let o = section_offset(lay, last_unpacked(lay, s, 0, 0));
        let image_size = u32_le(t7, o + 12) + u32_le(t7, o + 8);
        if image_size > u32::MAX {
            None
        } else {
            Some(with_u32_le(t7, opt + 56, image_size as u32))
        }
    }
}

/// The header updates after the copies, through the headers as they stand in `t` then:
/// directories, the section headers marked in `s` cleared, then the counts and sizes.
/// `None` where restoring aborts or reaches past `t`: header tables that do not fit,
/// fewer than ten directories, no section, or more sections than the mask has bits.
pub open spec fn write_headers(
    t: Seq<u8>,
    s: Seq<u8>,
    x64: bool,
    h: Enigma1HeaderView,
    a: AnalysisView,
) -> Option<Seq<u8>> {
    if !layout::header_tables_fit(t, x64) || layout::data_dir_count(t, x64) < 10
        || number_of_sections(t) == 0 || number_of_sections(t) > 128 {
        None
    } else {
        match write_directories(t, t, x64, h, a) {
            None => None,
            Some(t4) => finish_headers(clear_packed(t4, t, s, 0), t, s),
        }
    }
}

/// The moved exception table, copied into `t` when a place was found for it.
pub open spec fn copy_exception(t: Seq<u8>, a: AnalysisView) -> Option<Seq<u8>> {
    match a.exception {
        Some(p) => match p.dest {
            Some((_, d, _)) => if d + p.size > t.len() {
                None
            } else {
                Some(copy_within(t, p.start, p.size, d))
            },
            None => Some(t),
        },
        None => Some(t),
    }
}

/// The image after the data moves: the data after the packer's sections (the overlay)
/// copied to where the packer's raw data began, then the kept exception table copied to its
/// new place. `None` where restoring aborts.
pub open spec fn spec_moved(s: Seq<u8>, a: AnalysisView) -> Option<Seq<u8>> {
    let len = s.len() as int;
    if a.max_end > len {
        None
    } else {
        let overlay = len - a.max_end;
        if overlay > 0 && a.final_end + overlay > len {
            None
        } else {
            copy_exception(
                if overlay > 0 {
                    copy_within(s, a.max_end, overlay, a.final_end)
                } else {
                    s
                },
                a,
            )
        }
    }
}

/// The restored image and its length: the data moved, then the headers updated.
/// `None` stands for an input on which restoring aborts or writes past the image.
pub open spec fn spec_apply(s: Seq<u8>, x64: bool, h: Enigma1HeaderView, a: AnalysisView) -> Option<
    (Seq<u8>, int),
> {
    match spec_moved(s, a) {
        None => None,
        Some(t1) => match write_headers(t1, s, x64, h, a) {
            None => None,
            Some(t) => Some((t, a.final_end + (s.len() - a.max_end))),
        },
    }
}

/// The images on which restoring neither panics nor writes past the image.
pub open spec fn restore_defined(s: Seq<u8>, x64: bool, h: Enigma1HeaderView) -> bool {
    match spec_analysis(s, x64, h.tls_data) {
        None => false,
        Some(Err(())) => true,
        Some(Ok(a)) => spec_apply(s, x64, h, a) is Some,
    }
}

/// Clears the section headers (as laid out in `lay`) that the mask marks, counting them and
/// finding the last other section.
fn clear_packed_sections(
    t: &mut [u8],
    l: &Layout,
    mask: EnigmaMask,
    Ghost(lay): Ghost<Seq<u8>>,
    Ghost(s): Ghost<Seq<u8>>,
) -> (r: (u16, usize))
    requires
        layout_fits(*l, lay, false) || layout_fits(*l, lay, true),
        old(t).len() == lay.len(),
        forall|i: int| 0 <= i < 128 ==> (mask.has(i) <==> marked(s, i)),
    ensures
        final(t)@ == clear_packed(old(t)@, lay, s, 0),
        final(t)@.len() == old(t)@.len(),
        r.0 as int == packed_count(lay, s, 0),
        r.1 as int == last_unpacked(lay, s, 0, 0),
        r.1 < l.number_of_sections || r.1 == 0,
{
    reveal(clear_packed);
    let mut removed: u16 = 0;
    let mut last: usize = 0;
    let mut i: usize = 0;
    let ghost t0 = t@;
    while i < l.number_of_sections
        invariant
            layout_fits(*l, lay, false) || layout_fits(*l, lay, true),
            t.len() == lay.len(),
            forall|i: int| 0 <= i < 128 ==> (mask.has(i) <==> marked(s, i)),
            i <= l.number_of_sections,
            removed <= i,
            last < l.number_of_sections || last == 0,
            clear_packed(t0, lay, s, 0) == clear_packed(t@, lay, s, i as int),
            removed + packed_count(lay, s, i as int) == packed_count(lay, s, 0),
            last_unpacked(lay, s, 0, 0) == last_unpacked(lay, s, i as int, last as int),
        decreases l.number_of_sections - i,
    {
        proof {
            reveal(clear_packed);
        }
        if !mask.is_enigma_section(i) {
            last = i;
        } else {
            let o = l.section_table + 40 * i;
            write_u32_le(t, o + 8, 0);
            write_u32_le(t, o + 16, 0);
            write_u32_le(t, o + 20, 0);
            write_u32_le(t, o + 12, 0);
            removed = removed + 1;
        }
        i += 1;
    }
    (removed, last)
}

spec fn analysis_view(a: PeAnalysis) -> AnalysisView {
    AnalysisView {
        final_end: a.final_physical_end as int,
        max_end: a.max_enigma_end as int,
        exception: opt_patch_view(a.exception_patch),
        tls_rva: a.tls_rva,
    }
}

/// Moves the overlay and the kept exception table; returns the overlay's size.
fn move_data(t: &mut [u8], a: &PeAnalysis) -> (overlay: usize)
    requires
        a.max_enigma_end <= old(t)@.len(),
        a.max_enigma_end < old(t)@.len() ==> a.final_physical_end + (old(t)@.len()
            - a.max_enigma_end) <= old(t)@.len(),
        patch_fits(a.exception_patch, old(t)@.len() as int, 128),
        copy_exception(
            if a.max_enigma_end < old(t)@.len() {
                copy_within(
                    old(t)@,
                    a.max_enigma_end as int,
                    old(t)@.len() - a.max_enigma_end,
                    a.final_physical_end as int,
                )
            } else {
                old(t)@
            },
            analysis_view(*a),
        ) is Some,
    ensures
        overlay == old(t)@.len() - a.max_enigma_end,
        final(t)@.len() == old(t)@.len(),
        Some(final(t)@) == copy_exception(
            if overlay > 0 {
                copy_within(old(t)@, a.max_enigma_end as int, overlay as int, a.final_physical_end as int)
            } else {
                old(t)@
            },
            analysis_view(*a),
        ),
{
    let len = t.len();
    let max_end = a.max_enigma_end as usize;
    let overlay = len - max_end;
    if overlay > 0 {
        copy_within_slice(t, max_end, overlay, a.final_physical_end);
    }
    match &a.exception_patch {
        Some(p) => match p.dest {
            Some((_, d, _)) => {
                copy_within_slice(t, p.exception_start, p.new_exception_size, d);
            },
            None => {},
        },
        None => {},
    }
    overlay
}

/// Writes the exception directory entry, and the size of raw data of the section that takes
/// a moved table.
fn write_exception_entry(
    t: &mut [u8],
    l: &Layout,
    x64: bool,
    a: &PeAnalysis,
    Ghost(lay): Ghost<Seq<u8>>,
) -> (done: bool)
    requires
        layout_fits(*l, lay, x64),
        l.data_dir_count >= 10,
        old(t).len() == lay.len(),
    ensures
        done ==> Some(final(t)@) == write_exception_dir(old(t)@, lay, x64, analysis_view(*a)),
        !done ==> write_exception_dir(old(t)@, lay, x64, analysis_view(*a)) is None,
        final(t)@.len() == old(t)@.len(),
{
    let dd = l.data_dir;
    match &a.exception_patch {
        Some(p) => match p.dest {
            Some((rva, _, index)) => {
                write_u32_le(t, dd + 24, rva);
                write_u32_le(t, dd + 28, p.new_exception_size as u32);
                if index >= l.number_of_sections {
                    return false;
                }
                let o = l.section_table + 40 * index;
                let va = read_u32_le(t, o + 12);
                if rva < va || p.new_exception_size as u64 > u32::MAX as u64 - (rva - va) as u64 {
                    return false;
                }
                let size = rva - va + p.new_exception_size as u32;
                write_u32_le(t, o + 16, size);
            },
            None => {
                write_u32_le(t, dd + 24, 0);
                write_u32_le(t, dd + 28, 0);
            },
        },
        None => {
            write_u32_le(t, dd + 24, 0);
            write_u32_le(t, dd + 28, 0);
        },
    }
    true
}

/// Writes the import, relocation, exception and TLS directory entries.
#[verifier::rlimit(40)]
fn restore_directories(
    t: &mut [u8],
    l: &Layout,
    x64: bool,
    h: &Enigma1Header,
    a: &PeAnalysis,
    Ghost(lay): Ghost<Seq<u8>>,
) -> (done: bool)
    requires
        layout_fits(*l, lay, x64),
        l.data_dir_count >= 10,
        old(t).len() == lay.len(),
    ensures
        done ==> Some(final(t)@) == write_directories(old(t)@, lay, x64, h@, analysis_view(*a)),
        !done ==> write_directories(old(t)@, lay, x64, h@, analysis_view(*a)) is None,
        final(t)@.len() == old(t)@.len(),
{
    reveal(write_directories);
    let dd = l.data_dir;
    write_u32_le(t, dd + 8, h.import_address);
    write_u32_le(t, dd + 12, h.import_size);
    write_u32_le(t, dd + 40, h.reloc_address);
    write_u32_le(t, dd + 44, h.reloc_size);
    let ghost t2 = t@;
    if !write_exception_entry(t, l, x64, a, Ghost(lay)) {
        return false;
    }
    assert(write_exception_dir(t2, lay, x64, analysis_view(*a)) == Some(t@));
    match a.tls_rva {
        Some(rva) => {
            let tls_size: u32 = if x64 {
                40
            } else {
                24
            };
            write_u32_le(t, dd + 72, rva);
            write_u32_le(t, dd + 76, tls_size);
        },
        None => {
            write_u32_le(t, dd + 72, 0);
            write_u32_le(t, dd + 76, 0);
        },
    }
    true
}

/// Takes the removed sections off `NumberOfSections`, clears `CheckSum`, and sets
/// `SizeOfImage` to the end of section `last` (headers as laid out in `lay`).
fn finish_counts(
    t: &mut [u8],
    l: &Layout,
    removed: u16,
    last: usize,
    Ghost(lay): Ghost<Seq<u8>>,
    Ghost(s): Ghost<Seq<u8>>,
) -> (done: bool)
    requires
        layout_fits(*l, lay, false) || layout_fits(*l, lay, true),
        old(t).len() == lay.len(),
        removed as int == packed_count(lay, s, 0),
        last as int == last_unpacked(lay, s, 0, 0),
        last < l.number_of_sections,
    ensures
        done ==> Some(final(t)@) == finish_headers(old(t)@, lay, s),
        !done ==> finish_headers(old(t)@, lay, s) is None,
{
    reveal(finish_headers);
    let count_at = l.nt + 6;
    let sections = read_u16_le(t, count_at);
    if sections < removed {
        return false;
    }
    write_u16_le(t, count_at, sections - removed);
    let opt = l.nt + 24;
    write_u32_le(t, opt + 64, 0);
    let o = l.section_table + 40 * last;
    let va = read_u32_le(t, o + 12);
    let vs = read_u32_le(t, o + 8);
    if va as u64 + vs as u64 > u32::MAX as u64 {
        return false;
    }
    write_u32_le(t, opt + 56, va + vs);
    true
}

impl<'r> RestorePeContext<'r, Enigma1Header> {
    /// Restores the original PE image in place and returns its length, as
    /// [`RestorePeContext::restore_pe`] does; `None` for an image on which restoring aborts
    /// (an out-of-bounds read or copy, header tables that no longer fit after the data moves,
    /// an arithmetic overflow), whose bytes are then left as far as restoring got.
    pub fn try_restore_pe(self) -> (r: Option<Result<usize, RestorePeError>>)
        requires
            pe_sound(old(self.slice)@, self.is_x64),
        ensures
            match r {
                None => !restore_defined(old(self.slice)@, self.is_x64, self.header@),
                Some(Ok(n)) => spec_analysis(old(self.slice)@, self.is_x64, self.header@.tls_data) matches Some(
                    Ok(a),
                ) && spec_apply(old(self.slice)@, self.is_x64, self.header@, a) == Some(
                    (final(self.slice)@, n as int),
                ) && n <= old(self.slice)@.len(),
                Some(Err(RestorePeError::Pe(_))) => {
                    &&& final(self.slice)@ == old(self.slice)@
                    &&& spec_analysis(old(self.slice)@, self.is_x64, self.header@.tls_data)
                        == Some(Err::<AnalysisView, ()>(()))
                },
                Some(Err(_)) => false,
            },
            restore_defined(old(self.slice)@, self.is_x64, self.header@) && spec_exception(
                old(self.slice)@,
                self.is_x64,
            ) == Some(Ok::<Option<ExceptionPatchView>, ()>(None)) ==> r matches Some(Ok(_)),
    {
        let x64 = self.is_x64;
        let ghost s = self.slice@;
        let l = read_layout(self.slice, x64);
        let a = match analyze_pe(self.slice, x64, &l, &self.header.tls_data) {
            Ok(a) => a,
            Err(RestorePeError::Serialize) => return None,
            Err(e) => return Some(Err(e)),
        };
        let ghost av = analysis_view(a);
        let len = self.slice.len();
        if a.max_enigma_end > len as u64 {
            return None;
        }
        let overlay = len - a.max_enigma_end as usize;
        if overlay > 0 && a.final_physical_end > len - overlay {
            return None;
        }
        match &a.exception_patch {
            Some(p) => match p.dest {
                Some((_, d, _)) => {
                    if d > len || p.new_exception_size > len - d {
                        proof {
                            lemma_copy_within_len(
                                s,
                                a.max_enigma_end as int,
                                overlay as int,
                                a.final_physical_end as int,
                            );
                        }
                        return None;
                    }
                },
                None => {},
            },
            None => {},
        }
        proof {
            lemma_copy_within_len(s, a.max_enigma_end as int, overlay as int, a.final_physical_end as int);
        }
        let overlay = move_data(self.slice, &a);
        let ghost t1 = self.slice@;
        assert(spec_moved(s, av) == Some(t1));
        if !layout::restorable_tables(self.slice, x64) {
            return None;
        }
        let l1 = read_layout(self.slice, x64);
        if !restore_directories(self.slice, &l1, x64, &self.header, &a, Ghost(t1)) {
            return None;
        }
        let (removed, last) = clear_packed_sections(self.slice, &l1, a.enigma_mask, Ghost(t1), Ghost(s));
        proof {
            lemma_last_unpacked_bounds(t1, s, 0, 0);
        }
        if !finish_counts(self.slice, &l1, removed, last, Ghost(t1), Ghost(s)) {
            return None;
        }
        Some(Ok(a.final_physical_end + overlay))
    }

    /// Restores the original PE image in place and returns its length: the data after the
    /// packer's sections move to where those sections' raw data began, the exception table
    /// moves out of them, and the headers get back the original import, relocation,
    /// exception and TLS directories, with the packer's sections removed. The images on which
    /// restoring aborts are excluded; [`RestorePeContext::try_restore_pe`] tells them apart.
    pub fn restore_pe(self) -> (r: Result<usize, RestorePeError>)
        requires
            pe_sound(old(self.slice)@, self.is_x64),
            restore_defined(old(self.slice)@, self.is_x64, self.header@),
        ensures
            match r {
                Ok(n) => spec_analysis(old(self.slice)@, self.is_x64, self.header@.tls_data) matches Some(
                    Ok(a),
                ) && spec_apply(old(self.slice)@, self.is_x64, self.header@, a) == Some(
                    (final(self.slice)@, n as int),
                ) && n <= old(self.slice)@.len(),
                Err(RestorePeError::Pe(_)) => {
                    &&& final(self.slice)@ == old(self.slice)@
                    &&& spec_analysis(old(self.slice)@, self.is_x64, self.header@.tls_data)
                        == Some(Err::<AnalysisView, ()>(()))
                },
                Err(_) => false,
            },
            spec_exception(old(self.slice)@, self.is_x64) == Some(
                Ok::<Option<ExceptionPatchView>, ()>(None),
            ) ==> r is Ok,
            spec_analysis(old(self.slice)@, self.is_x64, self.header@.tls_data) == Some(
                Err::<AnalysisView, ()>(()),
            ) ==> r is Err,
    {
        self.try_restore_pe().unwrap()
    }
}

// ---------------------------------------------------------------------------------------
// What restoring puts back

proof fn lemma_clear_packed_frame(t: Seq<u8>, lay: Seq<u8>, s: Seq<u8>, i: int)
    requires
        layout::section_table(lay) + 40 * number_of_sections(lay) <= t.len(),
    ensures
        clear_packed(t, lay, s, i).len() == t.len(),
        forall|k: int|
            0 <= k < layout::section_table(lay) ==> #[trigger] clear_packed(t, lay, s, i)[k] == t[k],
    decreases number_of_sections(lay) - i,
{
    reveal(clear_packed);
    if !(i < 0 || i >= number_of_sections(lay)) {
        let o = section_offset(lay, i);
        let t1 = if marked(s, i) {
            with_u32_le(
                with_u32_le(with_u32_le(with_u32_le(t, o + 8, 0), o + 16, 0), o + 20, 0),
                o + 12,
                0,
            )
        } else {
            t
        };
        assert(t1.len() == t.len());
        assert(forall|k: int| 0 <= k < layout::section_table(lay) ==> #[trigger] t1[k] == t[k]);
        lemma_clear_packed_frame(t1, lay, s, i + 1);
    }
}

/// The four directory values that restoring writes first.
pub open spec fn kept_directories(t: Seq<u8>, dd: int, h: Enigma1HeaderView) -> bool {
    &&& u32_le(t, dd + 8) == h.import_address
    &&& u32_le(t, dd + 12) == h.import_size
    &&& u32_le(t, dd + 40) == h.reloc_address
    &&& u32_le(t, dd + 44) == h.reloc_size
}

proof fn lemma_keep_across_write(t: Seq<u8>, dd: int, h: Enigma1HeaderView, off: int, v: u32)
    requires
        kept_directories(t, dd, h),
        0 <= dd,
        dd + 80 <= t.len(),
        0 <= off,
        off + 4 <= t.len(),
        off == dd + 24 || off == dd + 28 || off == dd + 72 || off == dd + 76 || off >= dd + 80,
    ensures
        kept_directories(with_u32_le(t, off, v), dd, h),
        with_u32_le(t, off, v).len() == t.len(),
{
    lemma_u32_frame(t, off, v, dd + 8);
    lemma_u32_frame(t, off, v, dd + 12);
    lemma_u32_frame(t, off, v, dd + 40);
    lemma_u32_frame(t, off, v, dd + 44);
}

/// The data directory of `lay` has the ten entries that restoring writes, and the section
/// table follows it.
pub open spec fn directories_before_sections(lay: Seq<u8>, x64: bool) -> bool {
    &&& layout::header_tables_fit(lay, x64)
    &&& layout::data_dir_count(lay, x64) >= 10
    &&& layout::section_table(lay) >= layout::data_dir_offset(lay, x64) + 8
        * layout::data_dir_count(lay, x64)
}

proof fn lemma_exception_dir_keeps(
    t: Seq<u8>,
    lay: Seq<u8>,
    x64: bool,
    h: Enigma1HeaderView,
    a: AnalysisView,
)
    requires
        directories_before_sections(lay, x64),
        t.len() == lay.len(),
        kept_directories(t, layout::data_dir_offset(lay, x64), h),
    ensures
        write_exception_dir(t, lay, x64, a) matches Some(t3) ==> t3.len() == t.len()
            && kept_directories(t3, layout::data_dir_offset(lay, x64), h),
{
    let dd = layout::data_dir_offset(lay, x64);
    match a.exception {
        Some(p) => match p.dest {
            Some((rva, _, index)) => {
                let t0 = with_u32_le(t, dd + 24, rva);
                lemma_keep_across_write(t, dd, h, dd + 24, rva);
                let t1 = with_u32_le(t0, dd + 28, p.size as u32);
                lemma_keep_across_write(t0, dd, h, dd + 28, p.size as u32);
                let o = section_offset(lay, index);
                let va = u32_le(t1, o + 12);
                if 0 <= index < number_of_sections(lay) && !(rva < va || rva - va + p.size
                    > u32::MAX) {
                    lemma_keep_across_write(t1, dd, h, o + 16, (rva - va + p.size) as u32);
                }
            },
            None => {
                lemma_keep_across_write(t, dd, h, dd + 24, 0);
                lemma_keep_across_write(with_u32_le(t, dd + 24, 0), dd, h, dd + 28, 0);
            },
        },
        None => {
            lemma_keep_across_write(t, dd, h, dd + 24, 0);
            lemma_keep_across_write(with_u32_le(t, dd + 24, 0), dd, h, dd + 28, 0);
        },
    }
}

proof fn lemma_write_directories_facts(
    t: Seq<u8>,
    lay: Seq<u8>,
    x64: bool,
    h: Enigma1HeaderView,
    a: AnalysisView,
)
    requires
        directories_before_sections(lay, x64),
        t.len() == lay.len(),
    ensures
        write_directories(t, lay, x64, h, a) matches Some(t4) ==> t4.len() == t.len()
            && kept_directories(t4, layout::data_dir_offset(lay, x64), h),
{
    reveal(write_directories);
    let dd = layout::data_dir_offset(lay, x64);
    let t1a = with_u32_le(t, dd + 8, h.import_address);
    let t1 = with_u32_le(t1a, dd + 12, h.import_size);
    let t2a = with_u32_le(t1, dd + 40, h.reloc_address);
    let t2 = with_u32_le(t2a, dd + 44, h.reloc_size);
    lemma_u32_roundtrip(t, dd + 8, h.import_address);
    lemma_u32_frame(t1a, dd + 12, h.import_size, dd + 8);
    lemma_u32_roundtrip(t1a, dd + 12, h.import_size);
    lemma_u32_frame(t1, dd + 40, h.reloc_address, dd + 8);
    lemma_u32_frame(t1, dd + 40, h.reloc_address, dd + 12);
    lemma_u32_roundtrip(t1, dd + 40, h.reloc_address);
    lemma_u32_frame(t2a, dd + 44, h.reloc_size, dd + 8);
    lemma_u32_frame(t2a, dd + 44, h.reloc_size, dd + 12);
    lemma_u32_frame(t2a, dd + 44, h.reloc_size, dd + 40);
    lemma_u32_roundtrip(t2a, dd + 44, h.reloc_size);
    assert(kept_directories(t2, dd, h));
    lemma_exception_dir_keeps(t2, lay, x64, h, a);
    if let Some(t3) = write_exception_dir(t2, lay, x64, a) {
        match a.tls_rva {
            Some(rva) => {
                lemma_keep_across_write(t3, dd, h, dd + 72, rva);
                lemma_keep_across_write(
                    with_u32_le(t3, dd + 72, rva),
                    dd,
                    h,
                    dd + 76,
                    if x64 {
                        40
                    } else {
                        24
                    },
                );
            },
            None => {
                lemma_keep_across_write(t3, dd, h, dd + 72, 0);
                lemma_keep_across_write(with_u32_le(t3, dd + 72, 0), dd, h, dd + 76, 0);
            },
        }
    }
}

proof fn lemma_finish_frame(t: Seq<u8>, lay: Seq<u8>, s: Seq<u8>, x64: bool)
    requires
        directories_before_sections(lay, x64),
        t.len() == lay.len(),
        number_of_sections(lay) > 0,
    ensures
        finish_headers(t, lay, s) matches Some(t8) ==> {
            &&& t8.len() == t.len()
            &&& forall|k: int|
                layout::opt_offset(lay) + 96 <= k < t.len() ==> #[trigger] t8[k] == t[k]
            &&& u32_le(t8, layout::opt_offset(lay) + 64) == 0
        },
{
    reveal(finish_headers);
    lemma_last_unpacked_bounds(lay, s, 0, 0);
}

proof fn lemma_last_unpacked_bounds(lay: Seq<u8>, s: Seq<u8>, i: int, last: int)
    requires
        0 <= last,
        last < number_of_sections(lay) || last == 0,
        0 <= i,
    ensures
        0 <= last_unpacked(lay, s, i, last),
        last_unpacked(lay, s, i, last) < number_of_sections(lay) || last_unpacked(lay, s, i, last)
            == last,
    decreases number_of_sections(lay) - i,
{
    if i < number_of_sections(lay) {
        if marked(s, i) {
            lemma_last_unpacked_bounds(lay, s, i + 1, last);
        } else {
            lemma_last_unpacked_bounds(lay, s, i + 1, i);
        }
    }
}

/// Restoring gives the image back the import and relocation directories that the packer
/// kept, and a zero checksum: they stand in the headers as laid out after the data moves,
/// whenever there the section table follows the data directory.
pub proof fn lemma_restore_puts_back_directories(s: Seq<u8>, x64: bool, h: Enigma1HeaderView)
    ensures
        spec_analysis(s, x64, h.tls_data) matches Some(Ok(a)) ==> (spec_moved(s, a) matches Some(
            t1,
        ) ==> (directories_before_sections(t1, x64) ==> (spec_apply(s, x64, h, a) matches Some(
            (t, n),
        ) ==> kept_directories(t, layout::data_dir_offset(t1, x64), h) && u32_le(
            t,
            layout::opt_offset(t1) + 64,
        ) == 0))),
{
    if let Some(Ok(a)) = spec_analysis(s, x64, h.tls_data) {
        if let Some(t1) = spec_moved(s, a) {
            if directories_before_sections(t1, x64) && number_of_sections(t1) > 0 {
                lemma_write_directories_facts(t1, t1, x64, h, a);
                if let Some(t4) = write_directories(t1, t1, x64, h, a) {
                    let dd = layout::data_dir_offset(t1, x64);
                    lemma_clear_packed_frame(t4, t1, s, 0);
                    let t5 = clear_packed(t4, t1, s, 0);
                    assert(kept_directories(t5, dd, h)) by {
                        assert(t5[dd + 8] == t4[dd + 8] && t5[dd + 9] == t4[dd + 9]);
                        assert(t5[dd + 10] == t4[dd + 10] && t5[dd + 11] == t4[dd + 11]);
                        assert(t5[dd + 12] == t4[dd + 12] && t5[dd + 13] == t4[dd + 13]);
                        assert(t5[dd + 14] == t4[dd + 14] && t5[dd + 15] == t4[dd + 15]);
                        assert(t5[dd + 40] == t4[dd + 40] && t5[dd + 41] == t4[dd + 41]);
                        assert(t5[dd + 42] == t4[dd + 42] && t5[dd + 43] == t4[dd + 43]);
                        assert(t5[dd + 44] == t4[dd + 44] && t5[dd + 45] == t4[dd + 45]);
                        assert(t5[dd + 46] == t4[dd + 46] && t5[dd + 47] == t4[dd + 47]);
                    }
                    lemma_finish_frame(t5, t1, s, x64);
                    if let Some(t8) = finish_headers(t5, t1, s) {
                        assert(t8[dd + 8] == t5[dd + 8] && t8[dd + 9] == t5[dd + 9]);
                        assert(t8[dd + 10] == t5[dd + 10] && t8[dd + 11] == t5[dd + 11]);
                        assert(t8[dd + 12] == t5[dd + 12] && t8[dd + 13] == t5[dd + 13]);
                        assert(t8[dd + 14] == t5[dd + 14] && t8[dd + 15] == t5[dd + 15]);
                        assert(t8[dd + 40] == t5[dd + 40] && t8[dd + 41] == t5[dd + 41]);
                        assert(t8[dd + 42] == t5[dd + 42] && t8[dd + 43] == t5[dd + 43]);
                        assert(t8[dd + 44] == t5[dd + 44] && t8[dd + 45] == t5[dd + 45]);
                        assert(t8[dd + 46] == t5[dd + 46] && t8[dd + 47] == t5[dd + 47]);
                    }
                }
            }
        }
    }
}

/// The TLS directory entry that restoring writes: the address where the TLS bytes were found
/// and the size of a TLS directory, or zeros when they were not found.
pub open spec fn tls_entry_written(t: Seq<u8>, dd: int, x64: bool, a: AnalysisView) -> bool {
    match a.tls_rva {
        Some(rva) => u32_le(t, dd + 72) == rva && u32_le(t, dd + 76) == if x64 {
            40u32
        } else {
            24u32
        },
        None => u32_le(t, dd + 72) == 0 && u32_le(t, dd + 76) == 0,
    }
}

proof fn lemma_write_directories_tls(
    t: Seq<u8>,
    lay: Seq<u8>,
    x64: bool,
    h: Enigma1HeaderView,
    a: AnalysisView,
)
    requires
        directories_before_sections(lay, x64),
        t.len() == lay.len(),
    ensures
        write_directories(t, lay, x64, h, a) matches Some(t4) ==> {
            &&& tls_entry_written(t4, layout::data_dir_offset(lay, x64), x64, a)
            &&& forall|k: int| 0 <= k < layout::data_dir_offset(lay, x64) ==> #[trigger] t4[k] == t[k]
        },
{
    reveal(write_directories);
    let dd = layout::data_dir_offset(lay, x64);
    let t1 = with_u32_le(with_u32_le(t, dd + 8, h.import_address), dd + 12, h.import_size);
    let t2 = with_u32_le(with_u32_le(t1, dd + 40, h.reloc_address), dd + 44, h.reloc_size);
    assert(forall|k: int| 0 <= k < dd ==> #[trigger] t2[k] == t[k]);
    if let Some(t3) = write_exception_dir(t2, lay, x64, a) {
        assert(forall|k: int| 0 <= k < dd ==> #[trigger] t3[k] == t2[k]);
        assert(t3.len() == t.len());
        let (v72, v76): (u32, u32) = match a.tls_rva {
            Some(rva) => (
                rva,
                if x64 {
                    40u32
                } else {
                    24u32
                },
            ),
            None => (0u32, 0u32),
        };
        let t3a = with_u32_le(t3, dd + 72, v72);
        let t4 = with_u32_le(t3a, dd + 76, v76);
        lemma_u32_roundtrip(t3, dd + 72, v72);
        lemma_u32_frame(t3a, dd + 76, v76, dd + 72);
        lemma_u32_roundtrip(t3a, dd + 76, v76);
        assert(write_directories(t, lay, x64, h, a) == Some(t4));
        assert(forall|k: int| 0 <= k < dd ==> #[trigger] t4[k] == t3[k]);
    }
}

proof fn lemma_packed_count_nonneg(lay: Seq<u8>, s: Seq<u8>, i: int)
    ensures
        packed_count(lay, s, i) >= 0,
    decreases number_of_sections(lay) - i,
{
    if !(i < 0 || i >= number_of_sections(lay)) {
        lemma_packed_count_nonneg(lay, s, i + 1);
    }
}

proof fn lemma_finish_count(t: Seq<u8>, lay: Seq<u8>, s: Seq<u8>, x64: bool)
    requires
        directories_before_sections(lay, x64),
        t.len() == lay.len(),
    ensures
        finish_headers(t, lay, s) matches Some(t8) ==> u16_le(t8, layout::nt_offset(lay) + 6)
            == u16_le(t, layout::nt_offset(lay) + 6) - packed_count(lay, s, 0),
{
    reveal(finish_headers);
    lemma_packed_count_nonneg(lay, s, 0);
    let nt = layout::nt_offset(lay);
    let sections = u16_le(t, nt + 6) - packed_count(lay, s, 0);
    if sections >= 0 {
        let t6 = with_u16_le(t, nt + 6, sections as u16);
        lemma_u16_roundtrip(t, nt + 6, sections as u16);
        let t7 = with_u32_le(t6, nt + 24 + 64, 0);
        assert(t7[nt + 6] == t6[nt + 6] && t7[nt + 7] == t6[nt + 7]);
        let o = section_offset(lay, last_unpacked(lay, s, 0, 0));
        let image_size = u32_le(t7, o + 12) + u32_le(t7, o + 8);
        if image_size <= u32::MAX {
            let t8 = with_u32_le(t7, nt + 24 + 56, image_size as u32);
            assert(t8[nt + 6] == t7[nt + 6] && t8[nt + 7] == t7[nt + 7]);
            assert(u16_le(t8, nt + 6) == u16_le(t6, nt + 6));
            assert(finish_headers(t, lay, s) == Some(t8));
        }
    }
}

/// Restoring writes the TLS directory entry (the address where the TLS bytes were found and
/// the size of a TLS directory, or zeros), and takes the packer's sections off
/// `NumberOfSections`, in the headers as laid out after the data moves, whenever there the
/// section table follows the data directory.
pub proof fn lemma_restore_sets_tls_and_section_count(s: Seq<u8>, x64: bool, h: Enigma1HeaderView)
    ensures
        spec_analysis(s, x64, h.tls_data) matches Some(Ok(a)) ==> (spec_moved(s, a) matches Some(
            t1,
        ) ==> (directories_before_sections(t1, x64) ==> (spec_apply(s, x64, h, a) matches Some(
            (t, n),
        ) ==> tls_entry_written(t, layout::data_dir_offset(t1, x64), x64, a) && u16_le(
            t,
            layout::nt_offset(t1) + 6,
        ) == number_of_sections(t1) - packed_count(t1, s, 0)))),
{
    if let Some(Ok(a)) = spec_analysis(s, x64, h.tls_data) {
        if let Some(t1) = spec_moved(s, a) {
            if directories_before_sections(t1, x64) && number_of_sections(t1) > 0 {
                lemma_write_directories_facts(t1, t1, x64, h, a);
                lemma_write_directories_tls(t1, t1, x64, h, a);
                if let Some(t4) = write_directories(t1, t1, x64, h, a) {
                    let dd = layout::data_dir_offset(t1, x64);
                    let nt = layout::nt_offset(t1);
                    lemma_clear_packed_frame(t4, t1, s, 0);
                    let t5 = clear_packed(t4, t1, s, 0);
                    assert(t5[dd + 72] == t4[dd + 72] && t5[dd + 73] == t4[dd + 73]);
                    assert(t5[dd + 74] == t4[dd + 74] && t5[dd + 75] == t4[dd + 75]);
                    assert(t5[dd + 76] == t4[dd + 76] && t5[dd + 77] == t4[dd + 77]);
                    assert(t5[dd + 78] == t4[dd + 78] && t5[dd + 79] == t4[dd + 79]);
                    assert(t5[nt + 6] == t1[nt + 6] && t5[nt + 7] == t1[nt + 7]);
                    assert(u16_le(t5, nt + 6) == number_of_sections(t1));
                    lemma_finish_frame(t5, t1, s, x64);
                    lemma_finish_count(t5, t1, s, x64);
                    if let Some(t8) = finish_headers(t5, t1, s) {
                        assert(t8[dd + 72] == t5[dd + 72] && t8[dd + 73] == t5[dd + 73]);
                        assert(t8[dd + 74] == t5[dd + 74] && t8[dd + 75] == t5[dd + 75]);
                        assert(t8[dd + 76] == t5[dd + 76] && t8[dd + 77] == t5[dd + 77]);
                        assert(t8[dd + 78] == t5[dd + 78] && t8[dd + 79] == t5[dd + 79]);
                    }
                }
            }
        }
    }
}

/// `VirtualSize`, `VirtualAddress`, `SizeOfRawData` and `PointerToRawData` of section `j`
/// (as laid out in `lay`) are zero in `t`.
pub open spec fn section_cleared(t: Seq<u8>, lay: Seq<u8>, j: int) -> bool {
    let o = section_offset(lay, j);
    &&& u32_le(t, o + 8) == 0
    &&& u32_le(t, o + 12) == 0
    &&& u32_le(t, o + 16) == 0
    &&& u32_le(t, o + 20) == 0
}

/// The same four fields of section `j` agree in `t` and `t2`.
pub open spec fn section_fields_same(t: Seq<u8>, t2: Seq<u8>, lay: Seq<u8>, j: int) -> bool {
    let o = section_offset(lay, j);
    &&& u32_le(t, o + 8) == u32_le(t2, o + 8)
    &&& u32_le(t, o + 12) == u32_le(t2, o + 12)
    &&& u32_le(t, o + 16) == u32_le(t2, o + 16)
    &&& u32_le(t, o + 20) == u32_le(t2, o + 20)
}

proof fn lemma_write_other_record(t: Seq<u8>, lay: Seq<u8>, i: int, j: int, f: int, v: u32)
    requires
        0 <= i < number_of_sections(lay),
        0 <= j < number_of_sections(lay),
        i != j,
        f == 8 || f == 12 || f == 16 || f == 20,
        layout::section_table(lay) >= 0,
        layout::section_table(lay) + 40 * number_of_sections(lay) <= t.len(),
    ensures
        section_fields_same(with_u32_le(t, section_offset(lay, i) + f, v), t, lay, j),
        with_u32_le(t, section_offset(lay, i) + f, v).len() == t.len(),
{
    let o = section_offset(lay, j);
    let w = section_offset(lay, i) + f;
    lemma_u32_frame(t, w, v, o + 8);
    lemma_u32_frame(t, w, v, o + 12);
    lemma_u32_frame(t, w, v, o + 16);
    lemma_u32_frame(t, w, v, o + 20);
}

proof fn lemma_clear_packed_sections(t: Seq<u8>, lay: Seq<u8>, s: Seq<u8>, i: int)
    requires
        0 <= i,
        layout::section_table(lay) >= 0,
        layout::section_table(lay) + 40 * number_of_sections(lay) <= t.len(),
    ensures
        clear_packed(t, lay, s, i).len() == t.len(),
        forall|j: int|
            i <= j < number_of_sections(lay) && marked(s, j) ==> #[trigger] section_cleared(
                clear_packed(t, lay, s, i),
                lay,
                j,
            ),
        forall|j: int|
            0 <= j < number_of_sections(lay) && !(i <= j && marked(s, j)) ==> #[trigger] section_fields_same(
                clear_packed(t, lay, s, i),
                t,
                lay,
                j,
            ),
    decreases number_of_sections(lay) - i,
{
    reveal(clear_packed);
    if i < number_of_sections(lay) {
        let o = section_offset(lay, i);
        let t1 = if marked(s, i) {
            with_u32_le(
                with_u32_le(with_u32_le(with_u32_le(t, o + 8, 0), o + 16, 0), o + 20, 0),
                o + 12,
                0,
            )
        } else {
            t
        };
        if marked(s, i) {
            let ta = with_u32_le(t, o + 8, 0);
            let tb = with_u32_le(ta, o + 16, 0);
            let tc = with_u32_le(tb, o + 20, 0);
            assert forall|j: int| 0 <= j < number_of_sections(lay) && j != i implies section_fields_same(
                t1,
                t,
                lay,
                j,
            ) by {
                lemma_write_other_record(t, lay, i, j, 8, 0);
                lemma_write_other_record(ta, lay, i, j, 16, 0);
                lemma_write_other_record(tb, lay, i, j, 20, 0);
                lemma_write_other_record(tc, lay, i, j, 12, 0);
            }
            lemma_u32_roundtrip(t, o + 8, 0);
            lemma_u32_frame(ta, o + 16, 0, o + 8);
            lemma_u32_roundtrip(ta, o + 16, 0);
            lemma_u32_frame(tb, o + 20, 0, o + 8);
            lemma_u32_frame(tb, o + 20, 0, o + 16);
            lemma_u32_roundtrip(tb, o + 20, 0);
            lemma_u32_frame(tc, o + 12, 0, o + 8);
            lemma_u32_frame(tc, o + 12, 0, o + 16);
            lemma_u32_frame(tc, o + 12, 0, o + 20);
            lemma_u32_roundtrip(tc, o + 12, 0);
            assert(section_cleared(t1, lay, i));
        }
        assert(t1.len() == t.len());
        lemma_clear_packed_sections(t1, lay, s, i + 1);
        assert(clear_packed(t, lay, s, i) == clear_packed(t1, lay, s, i + 1));
        assert forall|j: int|
            0 <= j < number_of_sections(lay) && !(i <= j && marked(s, j)) implies #[trigger] section_fields_same(
            clear_packed(t, lay, s, i),
            t,
            lay,
            j,
        ) by {
            assert(section_fields_same(clear_packed(t1, lay, s, i + 1), t1, lay, j));
            if marked(s, i) {
                assert(j != i);
                assert(section_fields_same(t1, t, lay, j));
            }
        }
        assert forall|j: int|
            i <= j < number_of_sections(lay) && marked(s, j) implies #[trigger] section_cleared(
            clear_packed(t, lay, s, i),
            lay,
            j,
        ) by {
            if j == i {
                assert(section_fields_same(clear_packed(t1, lay, s, i + 1), t1, lay, j));
            } else {
                assert(section_cleared(clear_packed(t1, lay, s, i + 1), lay, j));
            }
        }
    }
}

proof fn lemma_u32_same_bytes(t: Seq<u8>, t2: Seq<u8>, off: int)
    requires
        t2[off] == t[off],
        t2[off + 1] == t[off + 1],
        t2[off + 2] == t[off + 2],
        t2[off + 3] == t[off + 3],
    ensures
        u32_le(t2, off) == u32_le(t, off),
{
}

/// Restoring clears `VirtualSize`, `VirtualAddress`, `SizeOfRawData` and `PointerToRawData` of
/// every one of the packer's sections in the section table as laid out after the data moves,
/// whenever there the section table follows the data directory.
pub proof fn lemma_restore_clears_packed_sections(s: Seq<u8>, x64: bool, h: Enigma1HeaderView)
    ensures
        spec_analysis(s, x64, h.tls_data) matches Some(Ok(a)) ==> (spec_moved(s, a) matches Some(
            t1,
        ) ==> (directories_before_sections(t1, x64) ==> (spec_apply(s, x64, h, a) matches Some(
            (t, n),
        ) ==> forall|j: int|
            0 <= j < number_of_sections(t1) && marked(s, j) ==> #[trigger] section_cleared(
                t,
                t1,
                j,
            )))),
{
    if let Some(Ok(a)) = spec_analysis(s, x64, h.tls_data) {
        if let Some(t1) = spec_moved(s, a) {
            if directories_before_sections(t1, x64) && number_of_sections(t1) > 0 {
                lemma_write_directories_facts(t1, t1, x64, h, a);
                if let Some(t4) = write_directories(t1, t1, x64, h, a) {
                    lemma_clear_packed_sections(t4, t1, s, 0);
                    let t5 = clear_packed(t4, t1, s, 0);
                    lemma_finish_frame(t5, t1, s, x64);
                    if let Some(t8) = finish_headers(t5, t1, s) {
                        assert forall|j: int|
                            0 <= j < number_of_sections(t1) && marked(s, j) implies #[trigger] section_cleared(
                            t8,
                            t1,
                            j,
                        ) by {
                            let o = section_offset(t1, j);
                            assert(section_cleared(t5, t1, j));
                            assert(t8[o + 8] == t5[o + 8] && t8[o + 9] == t5[o + 9]);
                            assert(t8[o + 10] == t5[o + 10] && t8[o + 11] == t5[o + 11]);
                            assert(t8[o + 12] == t5[o + 12] && t8[o + 13] == t5[o + 13]);
                            assert(t8[o + 14] == t5[o + 14] && t8[o + 15] == t5[o + 15]);
                            assert(t8[o + 16] == t5[o + 16] && t8[o + 17] == t5[o + 17]);
                            assert(t8[o + 18] == t5[o + 18] && t8[o + 19] == t5[o + 19]);
                            assert(t8[o + 20] == t5[o + 20] && t8[o + 21] == t5[o + 21]);
                            assert(t8[o + 22] == t5[o + 22] && t8[o + 23] == t5[o + 23]);
                            lemma_u32_same_bytes(t5, t8, o + 8);
                            lemma_u32_same_bytes(t5, t8, o + 12);
                            lemma_u32_same_bytes(t5, t8, o + 16);
                            lemma_u32_same_bytes(t5, t8, o + 20);
                        }
                    }
                }
            }
        }
    }
}

/// `VirtualSize` and `VirtualAddress` of section `j` agree in `t` and `t2`.
pub open spec fn section_extent_same(t: Seq<u8>, t2: Seq<u8>, lay: Seq<u8>, j: int) -> bool {
    let o = section_offset(lay, j);
    &&& u32_le(t, o + 8) == u32_le(t2, o + 8)
    &&& u32_le(t, o + 12) == u32_le(t2, o + 12)
}

proof fn lemma_extent_across_write(t: Seq<u8>, lay: Seq<u8>, x64: bool, j: int, off: int, v: u32)
    requires
        directories_before_sections(lay, x64),
        t.len() == lay.len(),
        0 <= j < number_of_sections(lay),
        0 <= off,
        off + 4 <= t.len(),
        off + 4 <= layout::section_table(lay) || exists|i: int|
            0 <= i < number_of_sections(lay) && off == section_offset(lay, i) + 16,
    ensures
        section_extent_same(with_u32_le(t, off, v), t, lay, j),
        with_u32_le(t, off, v).len() == t.len(),
{
    let o = section_offset(lay, j);
    lemma_u32_frame(t, off, v, o + 8);
    lemma_u32_frame(t, off, v, o + 12);
}

proof fn lemma_write_directories_extents(
    t: Seq<u8>,
    lay: Seq<u8>,
    x64: bool,
    h: Enigma1HeaderView,
    a: AnalysisView,
    j: int,
)
    requires
        directories_before_sections(lay, x64),
        t.len() == lay.len(),
        0 <= j < number_of_sections(lay),
    ensures
        write_directories(t, lay, x64, h, a) matches Some(t4) ==> section_extent_same(t4, t, lay, j),
{
    reveal(write_directories);
    let dd = layout::data_dir_offset(lay, x64);
    let ta = with_u32_le(t, dd + 8, h.import_address);
    lemma_extent_across_write(t, lay, x64, j, dd + 8, h.import_address);
    let tb = with_u32_le(ta, dd + 12, h.import_size);
    lemma_extent_across_write(ta, lay, x64, j, dd + 12, h.import_size);
    let tc = with_u32_le(tb, dd + 40, h.reloc_address);
    lemma_extent_across_write(tb, lay, x64, j, dd + 40, h.reloc_address);
    let t2 = with_u32_le(tc, dd + 44, h.reloc_size);
    lemma_extent_across_write(tc, lay, x64, j, dd + 44, h.reloc_size);
    let t3o = write_exception_dir(t2, lay, x64, a);
    match a.exception {
        Some(p) => match p.dest {
            Some((rva, _, index)) => {
                let u0 = with_u32_le(t2, dd + 24, rva);
                lemma_extent_across_write(t2, lay, x64, j, dd + 24, rva);
                let u1 = with_u32_le(u0, dd + 28, p.size as u32);
                lemma_extent_across_write(u0, lay, x64, j, dd + 28, p.size as u32);
                let o = section_offset(lay, index);
                let va = u32_le(u1, o + 12);
                if 0 <= index < number_of_sections(lay) && !(rva < va || rva - va + p.size > u32::MAX) {
                    lemma_extent_across_write(u1, lay, x64, j, o + 16, (rva - va + p.size) as u32);
                }
            },
            None => {
                lemma_extent_across_write(t2, lay, x64, j, dd + 24, 0);
                lemma_extent_across_write(with_u32_le(t2, dd + 24, 0), lay, x64, j, dd + 28, 0);
            },
        },
        None => {
            lemma_extent_across_write(t2, lay, x64, j, dd + 24, 0);
            lemma_extent_across_write(with_u32_le(t2, dd + 24, 0), lay, x64, j, dd + 28, 0);
        },
    }
    if let Some(t3) = t3o {
        assert(section_extent_same(t3, t, lay, j));
        assert(t3.len() == t.len());
        let (v72, v76): (u32, u32) = match a.tls_rva {
            Some(rva) => (
                rva,
                if x64 {
                    40u32
                } else {
                    24u32
                },
            ),
            None => (0u32, 0u32),
        };
        lemma_extent_across_write(t3, lay, x64, j, dd + 72, v72);
        lemma_extent_across_write(with_u32_le(t3, dd + 72, v72), lay, x64, j, dd + 76, v76);
    }
}

/// Restoring sets `SizeOfImage` to the end (`VirtualAddress` plus `VirtualSize`) of the last
/// section that is not the packer's, in the section table as laid out after the data moves,
/// whenever there the section table follows the data directory.
pub proof fn lemma_restore_sets_image_size(s: Seq<u8>, x64: bool, h: Enigma1HeaderView)
    ensures
        spec_analysis(s, x64, h.tls_data) matches Some(Ok(a)) ==> (spec_moved(s, a) matches Some(
            t1,
        ) ==> (directories_before_sections(t1, x64) && !marked(s, last_unpacked(t1, s, 0, 0))
            ==> (spec_apply(s, x64, h, a) matches Some((t, n)) ==> u32_le(
            t,
            layout::opt_offset(t1) + 56,
        ) == section_virtual_address(t1, last_unpacked(t1, s, 0, 0)) + section_virtual_size(
            t1,
            last_unpacked(t1, s, 0, 0),
        )))),
{
    if let Some(Ok(a)) = spec_analysis(s, x64, h.tls_data) {
        if let Some(t1) = spec_moved(s, a) {
            let last = last_unpacked(t1, s, 0, 0);
            if directories_before_sections(t1, x64) && !marked(s, last) && number_of_sections(t1)
                > 0 {
                lemma_last_unpacked_bounds(t1, s, 0, 0);
                lemma_write_directories_facts(t1, t1, x64, h, a);
                lemma_write_directories_extents(t1, t1, x64, h, a, last);
                if let Some(t4) = write_directories(t1, t1, x64, h, a) {
                    lemma_clear_packed_sections(t4, t1, s, 0);
                    let t5 = clear_packed(t4, t1, s, 0);
                    assert(section_fields_same(t5, t4, t1, last));
                    reveal(finish_headers);
                    let nt = layout::nt_offset(t1);
                    let opt = layout::opt_offset(t1);
                    let o = section_offset(t1, last);
                    let sections = u16_le(t5, nt + 6) - packed_count(t1, s, 0);
                    if sections >= 0 {
                        let t6 = with_u16_le(t5, nt + 6, sections as u16);
                        let t7 = with_u32_le(t6, opt + 64, 0);
                        assert(t7[o + 8] == t5[o + 8] && t7[o + 9] == t5[o + 9]);
                        assert(t7[o + 10] == t5[o + 10] && t7[o + 11] == t5[o + 11]);
                        assert(t7[o + 12] == t5[o + 12] && t7[o + 13] == t5[o + 13]);
                        assert(t7[o + 14] == t5[o + 14] && t7[o + 15] == t5[o + 15]);
                        lemma_u32_same_bytes(t5, t7, o + 8);
                        lemma_u32_same_bytes(t5, t7, o + 12);
                        let image_size = u32_le(t7, o + 12) + u32_le(t7, o + 8);
                        if image_size <= u32::MAX {
                            lemma_u32_roundtrip(t7, opt + 56, image_size as u32);
                            assert(finish_headers(t5, t1, s) == Some(
                                with_u32_le(t7, opt + 56, image_size as u32),
                            ));
                        }
                    }
                }
            }
        }
    }
}

/// The data moves put the bytes after the packer's sections (the overlay) where the packer's
/// raw data began, unless the kept exception table is then copied over that place.
pub proof fn lemma_moves_place_overlay(s: Seq<u8>, a: AnalysisView)
    requires
        0 <= a.final_end,
        0 <= a.max_end,
    ensures
        spec_moved(s, a) matches Some(t1) ==> (a.max_end < s.len() && (a.exception matches Some(p)
            && p.dest matches Some((_, d, _)) ==> d + p.size <= a.final_end || a.final_end + (s.len()
            - a.max_end) <= d) ==> t1.subrange(
            a.final_end,
            a.final_end + (s.len() - a.max_end),
        ) == s.subrange(a.max_end, s.len() as int)),
{
    reveal(copy_within);
    if let Some(t1) = spec_moved(s, a) {
        let len = s.len() as int;
        let overlay = len - a.max_end;
        let t0 = if overlay > 0 {
            copy_within(s, a.max_end, overlay, a.final_end)
        } else {
            s
        };
        let keeps = (a.exception matches Some(p) && p.dest matches Some((_, d, _)) ==> d + p.size
            <= a.final_end || a.final_end + overlay <= d);
        if keeps && overlay > 0 {
            lemma_copy_within_len(s, a.max_end, overlay, a.final_end);
            assert(t0.len() == len);
            match a.exception {
                Some(p) => match p.dest {
                    Some((_, d, _)) => {
                        lemma_copy_within_len(t0, p.start, p.size, d);
                    },
                    None => {},
                },
                None => {},
            }
            assert(t1.len() == len);
            assert forall|k: int| 0 <= k < overlay implies #[trigger] t1[a.final_end + k] == s[a.max_end
                + k] by {
                assert(t0[a.final_end + k] == s[a.max_end + k]);
                match a.exception {
                    Some(p) => match p.dest {
                        Some((_, d, _)) => {
                            assert(t1 == copy_within(t0, p.start, p.size, d));
                        },
                        None => {},
                    },
                    None => {},
                }
            }
            assert(t1.subrange(a.final_end, a.final_end + overlay) =~= s.subrange(a.max_end, len));
        }
    }
}

// ---------------------------------------------------------------------------------------
// Which sections are the packer's, and which exception entries stay

/// The 8-byte name of section `i` begins with the seven bytes `.enigma`.
pub open spec fn name_starts_with_enigma(s: Seq<u8>, i: int) -> bool {
    let o = section_offset(s, i);
    &&& s[o] == 0x2e
    &&& s[o + 1] == 0x65
    &&& s[o + 2] == 0x6e
    &&& s[o + 3] == 0x69
    &&& s[o + 4] == 0x67
    &&& s[o + 5] == 0x6d
    &&& s[o + 6] == 0x61
}

proof fn lemma_extent_covers(s: Seq<u8>, i: int, least: int, greatest: int)
    requires
        0 <= i,
    ensures
        enigma_extent(s, i, least, greatest).0 <= least,
        enigma_extent(s, i, least, greatest).1 >= greatest,
        forall|j: int|
            i <= j < number_of_sections(s) && is_enigma_section_name(s, j) ==> enigma_extent(
                s,
                i,
                least,
                greatest,
            ).0 <= section_raw_pointer(s, j) && section_raw_pointer(s, j) + section_raw_size(s, j)
                <= enigma_extent(s, i, least, greatest).1,
    decreases number_of_sections(s) - i,
{
    if i < number_of_sections(s) {
        if is_enigma_section_name(s, i) {
            let start = section_raw_pointer(s, i) as int;
            let end = start + section_raw_size(s, i) as int;
            lemma_extent_covers(
                s,
                i + 1,
                if start < least {
                    start
                } else {
                    least
                },
                if end > greatest {
                    end
                } else {
                    greatest
                },
            );
        } else {
            lemma_extent_covers(s, i + 1, least, greatest);
        }
    }
}

/// A section is the packer's exactly when its name begins with `.enigma` (so `.enigma1` and
/// `.enigma2` both are), and the analysis removes the raw data of every such section: they lie
/// between where the kept data end and where the overlay begins.
pub proof fn lemma_packer_sections_by_name(s: Seq<u8>, x64: bool, tls: Seq<u8>)
    requires
        layout::section_table(s) + 40 * number_of_sections(s) <= s.len(),
    ensures
        forall|j: int|
            0 <= j < number_of_sections(s) ==> (marked(s, j) <==> #[trigger] name_starts_with_enigma(
                s,
                j,
            )),
        spec_analysis(s, x64, tls) matches Some(Ok(a)) ==> forall|j: int|
            0 <= j < number_of_sections(s) && #[trigger] name_starts_with_enigma(s, j) ==> a.final_end
                <= section_raw_pointer(s, j) && section_raw_pointer(s, j) + section_raw_size(s, j)
                <= a.max_end,
{
    assert forall|j: int| 0 <= j < number_of_sections(s) implies (marked(s, j) <==> #[trigger] name_starts_with_enigma(
        s,
        j,
    )) by {
        let o = section_offset(s, j);
        let name = section_name(s, j);
        assert(0 <= o && o + 8 <= s.len()) by (nonlinear_arith)
            requires
                o == layout::section_table(s) + 40 * j,
                0 <= j < number_of_sections(s),
                0 <= layout::section_table(s),
                layout::section_table(s) + 40 * number_of_sections(s) <= s.len(),
        ;
        assert(name.subrange(0, 7)[0] == s[o] && name.subrange(0, 7)[1] == s[o + 1]);
        assert(name.subrange(0, 7)[2] == s[o + 2] && name.subrange(0, 7)[3] == s[o + 3]);
        assert(name.subrange(0, 7)[4] == s[o + 4] && name.subrange(0, 7)[5] == s[o + 5]);
        assert(name.subrange(0, 7)[6] == s[o + 6]);
        if name_starts_with_enigma(s, j) {
            assert(name.subrange(0, 7) =~= enigma_prefix());
        }
    }
    reveal(spec_analysis);
    lemma_extent_covers(s, 0, s.len() as int, 0);
}

/// Whether the exception entry `j` of the table at `start` (entries `stride` bytes apart)
/// begins in one of the packer's sections.
pub open spec fn entry_in_packer_section(s: Seq<u8>, start: int, stride: int, j: int) -> bool {
    containing_section(s, u32_le(s, start + j * stride), 0) matches Some(h)
        && is_enigma_section_name(s, h)
}

proof fn lemma_first_packed_entry_is_first(s: Seq<u8>, start: int, stride: int, count: int, c: int)
    requires
        0 <= c,
    ensures
        match first_packed_entry(s, start, stride, count, c) {
            Some(k) => c <= k < count && entry_in_packer_section(s, start, stride, k) && forall|j: int|
                c <= j < k ==> !#[trigger] entry_in_packer_section(s, start, stride, j),
            None => forall|j: int| c <= j < count ==> !#[trigger] entry_in_packer_section(s, start, stride, j),
        },
    decreases count - c,
{
    if c < count {
        lemma_first_packed_entry_is_first(s, start, stride, count, c + 1);
    }
}

/// The stride of exception entries: 12 bytes for PE32+, 20 for PE32.
pub open spec fn exception_stride(x64: bool) -> int {
    if x64 {
        12
    } else {
        20
    }
}

/// How many entries the analysis keeps of the table at `start`.
spec fn kept_count(s: Seq<u8>, x64: bool, start: int) -> int {
    let count = layout::data_dir_size(s, x64, 3) as int / exception_stride(x64);
    match first_packed_entry(s, start, exception_stride(x64), count, 0) {
        Some(c) => c,
        None => count,
    }
}

proof fn lemma_exception_shape(s: Seq<u8>, x64: bool)
    ensures
        spec_exception(s, x64) matches Some(Ok(Some(p))) ==> {
            &&& pe_rva_file_offset(s, layout::data_dir_va(s, x64, 3)) == Some(p.start as usize)
            &&& 0 <= p.start
            &&& p.size == kept_count(s, x64, p.start) * exception_stride(x64)
        },
{
    if layout::data_dir_count(s, x64) > 3 {
        let va = layout::data_dir_va(s, x64, 3);
        let size = layout::data_dir_size(s, x64, 3) as int;
        let stride = exception_stride(x64);
        if !(va == 0 || size < stride) {
            if let Some(start) = pe_rva_file_offset(s, va) {
                if start + size <= s.len() {
                    let v = kept_count(s, x64, start as int) * stride;
                    if v == 0 {
                        assert(spec_exception(s, x64) == Some(
                            Ok::<Option<ExceptionPatchView>, ()>(
                                Some(ExceptionPatchView { start: start as int, size: 0, dest: None }),
                            ),
                        ));
                    } else {
                        match zero_hole_from(s, v, 0) {
                            None => {
                                assert(spec_exception(s, x64) is None);
                            },
                            Some(None) => {
                                assert(spec_exception(s, x64) == Some(
                                    Ok::<Option<ExceptionPatchView>, ()>(
                                        Some(
                                            ExceptionPatchView {
                                                start: start as int,
                                                size: v,
                                                dest: None,
                                            },
                                        ),
                                    ),
                                ));
                            },
                            Some(Some((rva, index))) => {
                                assert(spec_exception(s, x64) matches Some(Ok(Some(p))) ==> p.start
                                    == start && p.size == v);
                            },
                        }
                    }
                }
            }
        }
    }
}

/// `size` bytes are the first `k` of the `count` entries of the table at `start`: none of them
/// begins in one of the packer's sections, and entry `k`, if there is one, does.
pub open spec fn kept_entries(
    s: Seq<u8>,
    start: int,
    stride: int,
    count: int,
    size: int,
    k: int,
) -> bool {
    &&& 0 <= k <= count
    &&& size == k * stride
    &&& forall|j: int| 0 <= j < k ==> !#[trigger] entry_in_packer_section(s, start, stride, j)
    &&& k < count ==> entry_in_packer_section(s, start, stride, k)
}

/// The exception table kept is a whole number of entries (12 bytes each for PE32+, 20 for
/// PE32) read from the table's start: the entries before the first one that begins in one of
/// the packer's sections, or all `Size / stride` of them when none does.
pub proof fn lemma_kept_exception_entries(s: Seq<u8>, x64: bool)
    ensures
        spec_exception(s, x64) matches Some(Ok(Some(p))) ==> {
            &&& pe_rva_file_offset(s, layout::data_dir_va(s, x64, 3)) == Some(p.start as usize)
            &&& 0 <= p.start
            &&& exists|k: int|
                #[trigger] kept_entries(
                    s,
                    p.start,
                    exception_stride(x64),
                    layout::data_dir_size(s, x64, 3) as int / exception_stride(x64),
                    p.size,
                    k,
                )
        },
{
    lemma_exception_shape(s, x64);
    if let Some(Ok(Some(p))) = spec_exception(s, x64) {
        let stride = exception_stride(x64);
        let count = layout::data_dir_size(s, x64, 3) as int / stride;
        lemma_first_packed_entry_is_first(s, p.start, stride, count, 0);
        let k = kept_count(s, x64, p.start);
        assert(kept_entries(s, p.start, stride, count, p.size, k));
    }
}

/// The exception directory entry that restoring writes: the kept table's new address and its
/// size when a place was found for it, zeros otherwise.
pub open spec fn exception_entry_written(t: Seq<u8>, dd: int, a: AnalysisView) -> bool {
    match a.exception {
        Some(p) => match p.dest {
            Some((rva, _, _)) => u32_le(t, dd + 24) == rva && u32_le(t, dd + 28) == p.size as u32,
            None => u32_le(t, dd + 24) == 0 && u32_le(t, dd + 28) == 0,
        },
        None => u32_le(t, dd + 24) == 0 && u32_le(t, dd + 28) == 0,
    }
}

proof fn lemma_write_directories_exception(
    t: Seq<u8>,
    lay: Seq<u8>,
    x64: bool,
    h: Enigma1HeaderView,
    a: AnalysisView,
)
    requires
        directories_before_sections(lay, x64),
        t.len() == lay.len(),
    ensures
        write_directories(t, lay, x64, h, a) matches Some(t4) ==> exception_entry_written(
            t4,
            layout::data_dir_offset(lay, x64),
            a,
        ),
{
    reveal(write_directories);
    let dd = layout::data_dir_offset(lay, x64);
    let t1 = with_u32_le(with_u32_le(t, dd + 8, h.import_address), dd + 12, h.import_size);
    let t2 = with_u32_le(with_u32_le(t1, dd + 40, h.reloc_address), dd + 44, h.reloc_size);
    assert(t2.len() == t.len());
    if let Some(t3) = write_exception_dir(t2, lay, x64, a) {
        let (v24, v28): (u32, u32) = match a.exception {
            Some(p) => match p.dest {
                Some((rva, _, _)) => (rva, p.size as u32),
                None => (0u32, 0u32),
            },
            None => (0u32, 0u32),
        };
        let u0 = with_u32_le(t2, dd + 24, v24);
        let u1 = with_u32_le(u0, dd + 28, v28);
        lemma_u32_roundtrip(t2, dd + 24, v24);
        lemma_u32_frame(u0, dd + 28, v28, dd + 24);
        lemma_u32_roundtrip(u0, dd + 28, v28);
        match a.exception {
            Some(p) => match p.dest {
                Some((rva, _, index)) => {
                    let o = section_offset(lay, index);
                    let va = u32_le(u1, o + 12);
                    if 0 <= index < number_of_sections(lay) && !(rva < va || rva - va + p.size
                        > u32::MAX) {
                        lemma_u32_frame(u1, o + 16, (rva - va + p.size) as u32, dd + 24);
                        lemma_u32_frame(u1, o + 16, (rva - va + p.size) as u32, dd + 28);
                    }
                },
                None => {},
            },
            None => {},
        }
        assert(exception_entry_written(t3, dd, a));
        assert(t3.len() == t.len());
        let (v72, v76): (u32, u32) = match a.tls_rva {
            Some(rva) => (
                rva,
                if x64 {
                    40u32
                } else {
                    24u32
                },
            ),
            None => (0u32, 0u32),
        };
        let t3a = with_u32_le(t3, dd + 72, v72);
        lemma_u32_frame(t3, dd + 72, v72, dd + 24);
        lemma_u32_frame(t3, dd + 72, v72, dd + 28);
        lemma_u32_frame(t3a, dd + 76, v76, dd + 24);
        lemma_u32_frame(t3a, dd + 76, v76, dd + 28);
        assert(write_directories(t, lay, x64, h, a) == Some(with_u32_le(t3a, dd + 76, v76)));
    }
}

/// Restoring gives the exception directory the kept table's new address and its size (the
/// whole entries kept), or zeros when no place was found for it or nothing is kept, in the
/// headers as laid out after the data moves, whenever there the section table follows the
/// data directory.
pub proof fn lemma_restore_sets_exception_entry(s: Seq<u8>, x64: bool, h: Enigma1HeaderView)
    ensures
        spec_analysis(s, x64, h.tls_data) matches Some(Ok(a)) ==> (spec_moved(s, a) matches Some(
            t1,
        ) ==> (directories_before_sections(t1, x64) ==> (spec_apply(s, x64, h, a) matches Some(
            (t, n),
        ) ==> exception_entry_written(t, layout::data_dir_offset(t1, x64), a)))),
{
    if let Some(Ok(a)) = spec_analysis(s, x64, h.tls_data) {
        if let Some(t1) = spec_moved(s, a) {
            if directories_before_sections(t1, x64) && number_of_sections(t1) > 0 {
                lemma_write_directories_facts(t1, t1, x64, h, a);
                lemma_write_directories_exception(t1, t1, x64, h, a);
                if let Some(t4) = write_directories(t1, t1, x64, h, a) {
                    let dd = layout::data_dir_offset(t1, x64);
                    lemma_clear_packed_frame(t4, t1, s, 0);
                    let t5 = clear_packed(t4, t1, s, 0);
                    assert(t5[dd + 24] == t4[dd + 24] && t5[dd + 25] == t4[dd + 25]);
                    assert(t5[dd + 26] == t4[dd + 26] && t5[dd + 27] == t4[dd + 27]);
                    assert(t5[dd + 28] == t4[dd + 28] && t5[dd + 29] == t4[dd + 29]);
                    assert(t5[dd + 30] == t4[dd + 30] && t5[dd + 31] == t4[dd + 31]);
                    lemma_u32_same_bytes(t4, t5, dd + 24);
                    lemma_u32_same_bytes(t4, t5, dd + 28);
                    lemma_finish_frame(t5, t1, s, x64);
                    if let Some(t8) = finish_headers(t5, t1, s) {
                        assert(t8[dd + 24] == t5[dd + 24] && t8[dd + 25] == t5[dd + 25]);
                        assert(t8[dd + 26] == t5[dd + 26] && t8[dd + 27] == t5[dd + 27]);
                        assert(t8[dd + 28] == t5[dd + 28] && t8[dd + 29] == t5[dd + 29]);
                        assert(t8[dd + 30] == t5[dd + 30] && t8[dd + 31] == t5[dd + 31]);
                        lemma_u32_same_bytes(t5, t8, dd + 24);
                        lemma_u32_same_bytes(t5, t8, dd + 28);
                    }
                }
            }
        }
    }
}

} // verus!
