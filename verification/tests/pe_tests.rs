use evbunpack_core::pe::{is_dll_name, PeVariant, RestorePeContext, RestorePeError};

const TLS: [u8; 12] = [1, 2, 3, 4, 5, 6, 7, 8, 9, 10, 11, 12];

fn put_u16(v: &mut [u8], at: usize, x: u16) {
    v[at..at + 2].copy_from_slice(&x.to_le_bytes());
}

fn put_u32(v: &mut [u8], at: usize, x: u32) {
    v[at..at + 4].copy_from_slice(&x.to_le_bytes());
}

fn u32_at(v: &[u8], at: usize) -> u32 {
    u32::from_le_bytes([v[at], v[at + 1], v[at + 2], v[at + 3]])
}

fn u16_at(v: &[u8], at: usize) -> u16 {
    u16::from_le_bytes([v[at], v[at + 1]])
}

const OPT: usize = 0x58;
const DD: usize = OPT + 96;
const SECTIONS: usize = 0x138;

fn section(v: &mut [u8], i: usize, name: &[u8], vs: u32, va: u32, raw_size: u32, raw_ptr: u32) {
    let at = SECTIONS + 40 * i;
    v[at..at + name.len()].copy_from_slice(name);
    put_u32(v, at + 8, vs);
    put_u32(v, at + 12, va);
    put_u32(v, at + 16, raw_size);
    put_u32(v, at + 20, raw_ptr);
}

/// A PE32 image with `.text` (raw 0x200..0x400, address 0x1000) and `.enigma1`
/// (raw 0x400..0x600, address 0x2000), followed by 16 bytes of overlay. The packer's header
/// sits at `header_at` in `.enigma1`; the TLS bytes are in `.text` at 0x210; an import
/// descriptor at 0x1100 names `KERNEL32.dll`.
fn packed_image(header_at: usize) -> Vec<u8> {
    let mut v = vec![0u8; 0x610];
    v[0] = b'M';
    v[1] = b'Z';
    put_u32(&mut v, 0x3c, 0x40);
    v[0x40..0x44].copy_from_slice(b"PE\0\0");
    put_u16(&mut v, 0x44, 0x14c);
    put_u16(&mut v, 0x46, 2);
    put_u16(&mut v, 0x54, 0xe0);
    put_u16(&mut v, OPT, 0x10b);
    put_u32(&mut v, OPT + 56, 0x3000);
    put_u32(&mut v, OPT + 60, 0x200);
    put_u32(&mut v, OPT + 64, 0xdead);
    put_u32(&mut v, OPT + 92, 16);
    // what the packer left in the directories
    put_u32(&mut v, DD + 8, 0x2100);
    put_u32(&mut v, DD + 12, 0x40);
    put_u32(&mut v, DD + 72, 0x2200);
    put_u32(&mut v, DD + 76, 24);
    section(&mut v, 0, b".text", 0x200, 0x1000, 0x200, 0x200);
    section(&mut v, 1, b".enigma1", 0x200, 0x2000, 0x200, 0x400);
    v[0x210..0x21c].copy_from_slice(&TLS);
    // import descriptor at 0x1100 (file 0x300), its name at 0x1120 (file 0x320)
    put_u32(&mut v, 0x300 + 12, 0x1120);
    v[0x320..0x32d].copy_from_slice(b"KERNEL32.dll\0");
    v[0x400..0x40c].copy_from_slice(&TLS);
    put_u32(&mut v, 0x400 + header_at, 0x1100);
    put_u32(&mut v, 0x400 + header_at + 4, 0x28);
    put_u32(&mut v, 0x400 + header_at + 8, 0x1800);
    put_u32(&mut v, 0x400 + header_at + 12, 0x10);
    for (k, b) in v[0x600..0x610].iter_mut().enumerate() {
        *b = 0xc0 + k as u8;
    }
    v
}

fn expect_restored_headers(v: &[u8]) {
    assert_eq!((u32_at(v, DD + 8), u32_at(v, DD + 12)), (0x1100, 0x28));
    assert_eq!((u32_at(v, DD + 40), u32_at(v, DD + 44)), (0x1800, 0x10));
    assert_eq!((u32_at(v, DD + 72), u32_at(v, DD + 76)), (0x1010, 24));
    let s1 = SECTIONS + 40;
    assert_eq!(
        (u32_at(v, s1 + 8), u32_at(v, s1 + 12), u32_at(v, s1 + 16), u32_at(v, s1 + 20)),
        (0, 0, 0, 0)
    );
    assert_eq!(u16_at(v, 0x46), 1);
    assert_eq!(u32_at(v, OPT + 64), 0);
    assert_eq!(u32_at(v, OPT + 56), 0x1200);
}

#[test]
fn header_offsets_per_variant() {
    assert_eq!(PeVariant::V10_70.header_start_offset(true), 120);
    assert_eq!(PeVariant::V9_70.header_start_offset(true), 108);
    assert_eq!(PeVariant::V7_80.header_start_offset(true), 104);
    assert_eq!(PeVariant::V10_70.header_start_offset(false), 84);
    assert_eq!(PeVariant::V9_70.header_start_offset(false), 80);
    assert_eq!(PeVariant::V7_80.header_start_offset(false), 76);
}

#[test]
fn dll_names_ignore_case() {
    assert!(is_dll_name(b"KERNEL32.DLL"));
    assert!(is_dll_name(b"a.dLl"));
    assert!(!is_dll_name(b".dll"));
    assert!(!is_dll_name(b"user32.exe"));
    assert!(!is_dll_name(b""));
}

#[test]
fn restore_with_a_given_variant() {
    let mut v = packed_image(84);
    let n = RestorePeContext::new(&mut v)
        .with_variant(PeVariant::V10_70)
        .unwrap()
        .restore_pe()
        .unwrap();
    assert_eq!(n, 0x410);
    let overlay: Vec<u8> = (0..16).map(|k| 0xc0 + k as u8).collect();
    assert_eq!(&v[0x400..0x410], &overlay[..]);
    expect_restored_headers(&v);
    // no exception table was declared
    assert_eq!((u32_at(&v, DD + 24), u32_at(&v, DD + 28)), (0, 0));
}

#[test]
fn automatic_variant_finds_the_dll_import() {
    let mut v = packed_image(84);
    let ctx = RestorePeContext::new(&mut v).with_variant_auto().unwrap();
    assert!(!ctx.is_x64);
    assert_eq!(ctx.restore_pe().unwrap(), 0x410);
    expect_restored_headers(&v);
}

#[test]
fn automatic_variant_skips_a_header_that_names_no_dll() {
    // the V9_70 header; where V10_70 looks, the import address is 0x28, whose descriptor
    // names the string "MZ"
    let mut v = packed_image(80);
    let ctx = RestorePeContext::new(&mut v).with_variant_auto().unwrap();
    assert_eq!(ctx.restore_pe().unwrap(), 0x410);
    expect_restored_headers(&v);
}

#[test]
fn exception_table_is_cut_and_moved() {
    let mut v = packed_image(84);
    // two entries of 20 bytes at 0x1180 (file 0x380): the first in `.text`, the second in
    // `.enigma1`
    put_u32(&mut v, DD + 24, 0x1180);
    put_u32(&mut v, DD + 28, 40);
    put_u32(&mut v, 0x380, 0x1000);
    put_u32(&mut v, 0x384, 0x1040);
    put_u32(&mut v, 0x380 + 20, 0x2000);
    let kept: Vec<u8> = v[0x380..0x394].to_vec();
    let n = RestorePeContext::new(&mut v)
        .with_variant(PeVariant::V10_70)
        .unwrap()
        .restore_pe()
        .unwrap();
    assert_eq!(n, 0x410);
    // the first run of 20 zero bytes in `.text` follows the TLS bytes
    assert_eq!((u32_at(&v, DD + 24), u32_at(&v, DD + 28)), (0x101c, 20));
    assert_eq!(&v[0x21c..0x230], &kept[..]);
    assert_eq!(u32_at(&v, SECTIONS + 16), 0x1c + 20);
    expect_restored_headers(&v);
}

#[test]
fn missing_enigma1_section() {
    let mut v = packed_image(84);
    v[SECTIONS + 40 + 7] = b'2';
    let r = RestorePeContext::new(&mut v).with_variant(PeVariant::V10_70);
    assert!(matches!(r, Err(RestorePeError::Enigma1NotFound)));
}

#[test]
fn not_a_pe_image() {
    let mut v = vec![0x11u8; 0x200];
    let r = RestorePeContext::new(&mut v).with_variant(PeVariant::V7_80);
    assert!(matches!(r, Err(RestorePeError::Pe(_))));
    let mut w = vec![0x11u8; 0x200];
    assert!(RestorePeContext::new(&mut w).with_variant_auto().is_none());
    assert!(w.iter().all(|b| *b == 0x11));
}

#[test]
fn header_past_the_end_is_told_apart() {
    let mut v = packed_image(84);
    put_u32(&mut v, SECTIONS + 40 + 20, 0x600);
    assert!(RestorePeContext::new(&mut v).try_with_variant(PeVariant::V7_80).is_none());
    assert!(RestorePeContext::new(&mut v).try_with_variant_auto().is_none());
    let mut w = packed_image(84);
    let r = RestorePeContext::new(&mut w).try_with_variant(PeVariant::V10_70);
    assert!(matches!(r, Some(Ok(_))));
    let mut x = packed_image(80);
    let found = RestorePeContext::new(&mut x).try_with_variant_auto().unwrap().unwrap().unwrap();
    assert_eq!(found.restore_pe().unwrap(), 0x410);
}

#[test]
fn restoring_that_would_abort_is_told_apart() {
    // nine data directory entries: the TLS entry that restoring writes is missing
    let mut v = packed_image(84);
    put_u32(&mut v, OPT + 92, 9);
    let ctx = RestorePeContext::new(&mut v).with_variant(PeVariant::V10_70).unwrap();
    assert!(ctx.try_restore_pe().is_none());
    let mut w = packed_image(84);
    let ctx = RestorePeContext::new(&mut w).with_variant(PeVariant::V10_70).unwrap();
    assert!(matches!(ctx.try_restore_pe(), Some(Ok(0x410))));
    expect_restored_headers(&w);
}

#[test]
fn automatic_detection_tells_refusal_from_no_fit() {
    let mut v = packed_image(84);
    v[0x329..0x32c].copy_from_slice(b"exe");
    let r = RestorePeContext::new(&mut v).try_with_variant_auto();
    assert!(matches!(r, Some(Ok(None))));
    let mut w = packed_image(84);
    w[0x329..0x32c].copy_from_slice(b"exe");
    assert!(RestorePeContext::new(&mut w).with_variant_auto().is_none());
    let mut g = vec![0x11u8; 0x200];
    assert!(matches!(RestorePeContext::new(&mut g).try_with_variant_auto(), Some(Err(_))));
}

#[test]
fn unmapped_exception_table_is_a_pe_error() {
    let mut v = packed_image(84);
    put_u32(&mut v, DD + 24, 0x5000);
    put_u32(&mut v, DD + 28, 40);
    let before = v.clone();
    let ctx = RestorePeContext::new(&mut v).with_variant(PeVariant::V10_70).unwrap();
    assert!(matches!(ctx.restore_pe(), Err(RestorePeError::Pe(_))));
    assert_eq!(v, before);
}
