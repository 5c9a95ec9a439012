//! Little-endian field access on byte sequences.

use vstd::prelude::*;

verus! {

/// The little-endian `u16` stored at `off`.
pub open spec fn u16_le(s: Seq<u8>, off: int) -> u16 {
    (s[off] as int + s[off + 1] as int * 0x100) as u16
}

/// The little-endian `u32` stored at `off`.
pub open spec fn u32_le(s: Seq<u8>, off: int) -> u32 {
    (s[off] as int + s[off + 1] as int * 0x100 + s[off + 2] as int * 0x1_0000 + s[off + 3] as int
        * 0x100_0000) as u32
}

/// `s` with the little-endian encoding of `v` written at `off`.
pub open spec fn with_u16_le(s: Seq<u8>, off: int, v: u16) -> Seq<u8> {
    s.update(off, (v % 0x100) as u8).update(off + 1, (v / 0x100) as u8)
}

/// `s` with the little-endian encoding of `v` written at `off`.
pub open spec fn with_u32_le(s: Seq<u8>, off: int, v: u32) -> Seq<u8> {
    s.update(off, (v % 0x100) as u8).update(off + 1, ((v / 0x100) % 0x100) as u8).update(
        off + 2,
        ((v / 0x1_0000) % 0x100) as u8,
    ).update(off + 3, (v / 0x100_0000) as u8)
}

pub fn read_u16_le(s: &[u8], off: usize) -> (r: u16)
    requires
        off + 2 <= s.len(),
    ensures
        r == u16_le(s@, off as int),
{
    s[off] as u16 + s[off + 1] as u16 * 0x100
}

pub fn read_u32_le(s: &[u8], off: usize) -> (r: u32)
    requires
        off + 4 <= s.len(),
    ensures
        r == u32_le(s@, off as int),
{
    s[off] as u32 + s[off + 1] as u32 * 0x100 + s[off + 2] as u32 * 0x1_0000 + s[off + 3] as u32
        * 0x100_0000
}

pub fn write_u16_le(s: &mut [u8], off: usize, v: u16)
    requires
        off + 2 <= old(s).len(),
    ensures
        final(s)@ == with_u16_le(old(s)@, off as int, v),
{
    s[off] = (v % 0x100) as u8;
    s[off + 1] = (v / 0x100) as u8;
}

pub fn write_u32_le(s: &mut [u8], off: usize, v: u32)
    requires
        off + 4 <= old(s).len(),
    ensures
        final(s)@ == with_u32_le(old(s)@, off as int, v),
{
    s[off] = (v % 0x100) as u8;
    s[off + 1] = ((v / 0x100) % 0x100) as u8;
    s[off + 2] = ((v / 0x1_0000) % 0x100) as u8;
    s[off + 3] = (v / 0x100_0000) as u8;
}

/// Reading back a written `u32` gives the value written.
pub proof fn lemma_u32_roundtrip(s: Seq<u8>, off: int, v: u32)
    requires
        0 <= off,
        off + 4 <= s.len(),
    ensures
        u32_le(with_u32_le(s, off, v), off) == v,
        with_u32_le(s, off, v).len() == s.len(),
{
}

/// Writing a `u32` leaves the `u32` at a disjoint offset as it was.
pub proof fn lemma_u32_frame(s: Seq<u8>, off: int, v: u32, o: int)
    requires
        0 <= off,
        off + 4 <= s.len(),
        0 <= o,
        o + 4 <= s.len(),
        o + 4 <= off || off + 4 <= o,
    ensures
        u32_le(with_u32_le(s, off, v), o) == u32_le(s, o),
        with_u32_le(s, off, v).len() == s.len(),
{
}

/// Reading back a written `u16` gives the value written.
pub proof fn lemma_u16_roundtrip(s: Seq<u8>, off: int, v: u16)
    requires
        0 <= off,
        off + 2 <= s.len(),
    ensures
        u16_le(with_u16_le(s, off, v), off) == v,
        with_u16_le(s, off, v).len() == s.len(),
{
}

/// `s` after the `n` bytes at `src` are copied to `dest` (as `slice::copy_within` does: the
/// bytes read are those before the copy).
#[verifier::opaque]
pub open spec fn copy_within(s: Seq<u8>, src: int, n: int, dest: int) -> Seq<u8> {
    Seq::new(s.len(), |i: int| if dest <= i < dest + n { s[src + (i - dest)] } else { s[i] })
}

pub proof fn lemma_copy_within_len(s: Seq<u8>, src: int, n: int, dest: int)
    ensures
        copy_within(s, src, n, dest).len() == s.len(),
{
    reveal(copy_within);
}

/// Copies the `n` bytes at `src` to `dest`; the ranges may overlap.
pub fn copy_within_slice(s: &mut [u8], src: usize, n: usize, dest: usize)
    requires
        src + n <= old(s).len(),
        dest + n <= old(s).len(),
    ensures
        final(s)@ == copy_within(old(s)@, src as int, n as int, dest as int),
        final(s)@.len() == old(s)@.len(),
{
    reveal(copy_within);
    let ghost s0 = s@;
    if dest <= src {
        let mut i: usize = 0;
        while i < n
            invariant
                src + n <= s.len(),
                dest + n <= s.len(),
                dest <= src,
                s@.len() == s0.len(),
                i <= n,
                forall|k: int| 0 <= k < s0.len() ==> #[trigger] s@[k] == if dest <= k < dest + i {
                    s0[src + (k - dest)]
                } else {
                    s0[k]
                },
            decreases n - i,
        {
            let b = s[src + i];
            s[dest + i] = b;
            i += 1;
        }
    } else {
        let mut i: usize = n;
        while i > 0
            invariant
                src + n <= s.len(),
                dest + n <= s.len(),
                dest > src,
                s@.len() == s0.len(),
                i <= n,
                forall|k: int| 0 <= k < s0.len() ==> #[trigger] s@[k] == if dest + i <= k < dest + n {
                    s0[src + (k - dest)]
                } else {
                    s0[k]
                },
            decreases i,
        {
            let b = s[src + i - 1];
            s[dest + i - 1] = b;
            i -= 1;
        }
    }
    assert(s@ =~= copy_within(s0, src as int, n as int, dest as int));
}

} // verus!
