//! The chunk layout of compressed files. The chunks themselves are aPLib streams whose
//! decompression is left to the caller; this module says which bytes form each chunk and
//! checks the sizes once they are decompressed.

use vstd::prelude::*;
use crate::bytes::{read_u32_le, u32_le};
use crate::evb::{VfsNode, VfsNodeView, VFS_CHUNK_HEADER_SIZE};
use super::{IoError, SizeMismatch, Unpacker, UnpackerError};

verus! {

/// What follows the decompression of a plan's chunks.
#[derive(Debug, Clone, Copy, PartialEq, Eq, Structural)]
pub enum PlanTail {
    /// A file of one chunk: its output is the file, unchecked.
    Single,
    /// A chunk table: the sum of the chunk sizes and the output length are checked.
    Checked { total: u32, expected_total: u32, original_size: u32 },
    /// Reading goes out of bounds or overflows after the listed chunks; the reading aborts.
    Aborts,
}

/// The compressed chunks of a file, as `(start, length)` ranges of the packed data, in the
/// order their outputs are concatenated.
pub struct ChunkPlan {
    pub chunks: Vec<(usize, usize)>,
    pub tail: PlanTail,
}

pub struct ChunkPlanView {
    pub chunks: Seq<(int, int)>,
    pub tail: PlanTail,
}

impl View for ChunkPlan {
    type V = ChunkPlanView;

    open spec fn view(&self) -> ChunkPlanView {
        ChunkPlanView {
            chunks: self.chunks@.map_values(|c: (usize, usize)| (c.0 as int, c.1 as int)),
            tail: self.tail,
        }
    }
}

/// Walks the chunk table at `table` (`table_len` bytes): every third `u32` is the size of a
/// chunk; chunks follow each other from `pos` on.
pub open spec fn spec_chunk_table(
    data: Seq<u8>,
    table: int,
    table_len: int,
    j: int,
    pos: int,
    total: int,
    expected_total: u32,
    original_size: u32,
    acc: Seq<(int, int)>,
) -> ChunkPlanView
    decreases table_len + 12 - 12 * j,
{
    if j < 0 || 12 * j + 4 > table_len {
        ChunkPlanView {
            chunks: acc,
            tail: PlanTail::Checked { total: total as u32, expected_total, original_size },
        }
    } else {
        let size = u32_le(data, table + 12 * j) as int;
        if pos + size > data.len() {
            ChunkPlanView { chunks: acc, tail: PlanTail::Aborts }
        } else if total + size > u32::MAX {
            ChunkPlanView { chunks: acc.push((pos, size)), tail: PlanTail::Aborts }
        } else {
            spec_chunk_table(
                data,
                table,
                table_len,
                j + 1,
                pos + size,
                total + size,
                expected_total,
                original_size,
                acc.push((pos, size)),
            )
        }
    }
}

/// The chunk layout of `node` in `data`: `Ok(None)` for a node that is not compressed.
pub open spec fn spec_decompression_plan(data: Seq<u8>, node: VfsNodeView) -> Result<
    Option<ChunkPlanView>,
    UnpackerError,
> {
    if !node.is_compressed() {
        Ok(None)
    } else {
        let f = node.file->0;
        let aborts = ChunkPlanView { chunks: Seq::empty(), tail: PlanTail::Aborts };
        if f.offset + VFS_CHUNK_HEADER_SIZE > data.len() {
            Err(UnpackerError::Serialize)
        } else {
            let header_size = u32_le(data, f.offset as int);
            let table = f.offset + VFS_CHUNK_HEADER_SIZE;
            if header_size < VFS_CHUNK_HEADER_SIZE {
                Ok(Some(aborts))
            } else {
                let table_len = header_size - VFS_CHUNK_HEADER_SIZE;
                if table + table_len > data.len() || f.stored_size < header_size {
                    Ok(Some(aborts))
                } else {
                    let first = table + table_len;
                    if table_len == 4 {
                        let size = u32_le(data, table) as int;
                        if first + size > data.len() {
                            Ok(Some(aborts))
                        } else {
                            Ok(
                                Some(
                                    ChunkPlanView {
                                        chunks: seq![(first, size)],
                                        tail: PlanTail::Single,
                                    },
                                ),
                            )
                        }
                    } else {
                        Ok(
                            Some(
                                spec_chunk_table(
                                    data,
                                    table,
                                    table_len,
                                    0,
                                    first,
                                    0,
                                    (f.stored_size - header_size) as u32,
                                    f.original_size,
                                    Seq::empty(),
                                ),
                            ),
                        )
                    }
                }
            }
        }
    }
}

/// Chunks that lie inside `len` bytes, each starting where the previous one ends, the first
/// at `first`.
pub open spec fn chunks_back_to_back(chunks: Seq<(int, int)>, first: int, len: int) -> bool {
    &&& forall|k: int| 0 <= k < chunks.len() ==> 0 <= #[trigger] chunks[k].0 && 0 <= chunks[k].1
        && chunks[k].0 + chunks[k].1 <= len
    &&& chunks.len() > 0 ==> chunks[0].0 == first
    &&& forall|k: int| 0 < k < chunks.len() ==> #[trigger] chunks[k].0 == chunks[k - 1].0 + chunks[k - 1].1
}

proof fn lemma_chunk_table_back_to_back(
    data: Seq<u8>,
    table: int,
    table_len: int,
    j: int,
    pos: int,
    total: int,
    expected_total: u32,
    original_size: u32,
    acc: Seq<(int, int)>,
    first: int,
)
    requires
        chunks_back_to_back(acc, first, data.len() as int),
        acc.len() > 0 ==> pos == acc.last().0 + acc.last().1,
        acc.len() == 0 ==> pos == first,
        0 <= pos <= data.len(),
    ensures
        chunks_back_to_back(
            spec_chunk_table(data, table, table_len, j, pos, total, expected_total, original_size, acc).chunks,
            first,
            data.len() as int,
        ),
    decreases table_len + 12 - 12 * j,
{
    if !(j < 0 || 12 * j + 4 > table_len) {
        let size = u32_le(data, table + 12 * j) as int;
        if pos + size <= data.len() {
            let acc2 = acc.push((pos, size));
            assert(chunks_back_to_back(acc2, first, data.len() as int)) by {
                assert forall|k: int| 0 < k < acc2.len() implies #[trigger] acc2[k].0 == acc2[k - 1].0
                    + acc2[k - 1].1 by {
                    if k < acc.len() {
                        assert(acc2[k] == acc[k] && acc2[k - 1] == acc[k - 1]);
                    }
                }
            }
            if total + size <= u32::MAX {
                lemma_chunk_table_back_to_back(
                    data,
                    table,
                    table_len,
                    j + 1,
                    pos + size,
                    total + size,
                    expected_total,
                    original_size,
                    acc2,
                    first,
                );
            }
        }
    }
}

/// A file's compressed chunks lie inside the packed data, back to back, right after the
/// chunk table.
pub proof fn lemma_plan_back_to_back(data: Seq<u8>, node: VfsNodeView)
    ensures
        spec_decompression_plan(data, node) matches Ok(Some(p)) ==> {
            let f = node.file->0;
            chunks_back_to_back(
                p.chunks,
                f.offset + u32_le(data, f.offset as int) as int,
                data.len() as int,
            )
        },
{
    if node.is_compressed() {
        let f = node.file->0;
        if f.offset + VFS_CHUNK_HEADER_SIZE <= data.len() {
            let header_size = u32_le(data, f.offset as int);
            let table = f.offset + VFS_CHUNK_HEADER_SIZE;
            if header_size >= VFS_CHUNK_HEADER_SIZE {
                let table_len = header_size - VFS_CHUNK_HEADER_SIZE;
                if !(table + table_len > data.len() || f.stored_size < header_size) && table_len != 4 {
                    lemma_chunk_table_back_to_back(
                        data,
                        table,
                        table_len,
                        0,
                        table + table_len,
                        0,
                        (f.stored_size - header_size) as u32,
                        f.original_size,
                        Seq::empty(),
                        table + table_len,
                    );
                }
            }
        }
    }
}

/// The result of a plan once its chunks are decompressed into `output_len` bytes.
pub open spec fn spec_finish(tail: PlanTail, output_len: int) -> Result<(), UnpackerError> {
    match tail {
        PlanTail::Checked { total, expected_total, original_size } => if total != expected_total {
            Err(UnpackerError::SizeMismatch(SizeMismatch::TotalChunkSize))
        } else if output_len != original_size {
            Err(UnpackerError::SizeMismatch(SizeMismatch::DecompressedSize))
        } else {
            Ok(())
        },
        _ => Ok(()),
    }
}

/// Checks the decompressed output of a plan whose chunks all decompressed.
pub fn finish_decompression(tail: &PlanTail, output_len: usize) -> (r: Result<(), UnpackerError>)
    requires
        *tail != PlanTail::Aborts,
    ensures
        r == spec_finish(*tail, output_len as int),
{
    match tail {
        PlanTail::Checked { total, expected_total, original_size } => {
            if *total != *expected_total {
                return Err(UnpackerError::SizeMismatch(SizeMismatch::TotalChunkSize));
            }
            if output_len != *original_size as usize {
                return Err(UnpackerError::SizeMismatch(SizeMismatch::DecompressedSize));
            }
            Ok(())
        },
        _ => Ok(()),
    }
}

pub open spec fn chunks_view(v: Seq<(usize, usize)>) -> Seq<(int, int)> {
    v.map_values(|c: (usize, usize)| (c.0 as int, c.1 as int))
}

fn aborting_plan() -> (p: ChunkPlan)
    ensures
        p@ == (ChunkPlanView { chunks: Seq::empty(), tail: PlanTail::Aborts }),
{
    let p = ChunkPlan { chunks: Vec::new(), tail: PlanTail::Aborts };
    assert(p@.chunks =~= Seq::<(int, int)>::empty());
    p
}

impl<'r> Unpacker<'r> {
    /// The chunk layout of a compressed file node: `Ok(None)` when the node is not
    /// compressed. The chunks' outputs, concatenated in order, form the file; then
    /// [`finish_decompression`] checks the sizes.
    pub fn decompression_plan(&self, node: &VfsNode) -> (r: Result<Option<ChunkPlan>, UnpackerError>)
        ensures
            match r {
                Ok(Some(p)) => spec_decompression_plan(self.data(), node@) == Ok::<
                    Option<ChunkPlanView>,
                    UnpackerError,
                >(Some(p@)),
                Ok(None) => spec_decompression_plan(self.data(), node@) == Ok::<
                    Option<ChunkPlanView>,
                    UnpackerError,
                >(None),
                Err(e) => spec_decompression_plan(self.data(), node@) == Err::<
                    Option<ChunkPlanView>,
                    UnpackerError,
                >(e),
            },
    {
        proof {
            use_type_invariant(self);
        }
        if !node.is_compressed() {
            return Ok(None);
        }
        let f = match &node.file {
            Some(f) => *f,
            None => return Ok(None),
        };
        let data = self.slice;
        let len = data.len();
        let offset = f.offset();
        if offset > len as u64 || (len as u64) - offset < VFS_CHUNK_HEADER_SIZE as u64 {
            return Err(UnpackerError::Serialize);
        }
        let at = offset as usize;
        let header_size = read_u32_le(data, at);
        let table = at + VFS_CHUNK_HEADER_SIZE as usize;
        if header_size < VFS_CHUNK_HEADER_SIZE {
            return Ok(Some(aborting_plan()));
        }
        let table_len = (header_size - VFS_CHUNK_HEADER_SIZE) as usize;
        if table_len > len - table || f.stored_size() < header_size {
            return Ok(Some(aborting_plan()));
        }
        let first = table + table_len;
        if table_len == 4 {
            let size = read_u32_le(data, table) as usize;
            if size > len - first {
                return Ok(Some(aborting_plan()));
            }
            let mut chunks = Vec::new();
            chunks.push((first, size));
            let p = ChunkPlan { chunks, tail: PlanTail::Single };
            assert(p@.chunks =~= seq![(first as int, size as int)]);
            return Ok(Some(p));
        }
        let expected_total = f.stored_size() - header_size;
        let original_size = f.original_size();
        let mut chunks: Vec<(usize, usize)> = Vec::new();
        let mut j: usize = 0;
        let mut pos = first;
        let mut total: u32 = 0;
        assert(chunks_view(chunks@) =~= Seq::<(int, int)>::empty());
        let ghost whole = spec_chunk_table(
            data@,
            table as int,
            table_len as int,
            0,
            first as int,
            0,
            expected_total,
            original_size,
            Seq::empty(),
        );
        assert(spec_decompression_plan(self.data(), node@) == Ok::<
            Option<ChunkPlanView>,
            UnpackerError,
        >(Some(whole)));
        while table_len >= 4 && j <= (table_len - 4) / 12
            invariant
                len == data@.len(),
                data@ == self.data(),
                table + table_len <= len,
                pos <= len,
                12 * j <= table_len + 12,
                spec_decompression_plan(self.data(), node@) == Ok::<
                    Option<ChunkPlanView>,
                    UnpackerError,
                >(Some(whole)),
                whole == spec_chunk_table(
                    data@,
                    table as int,
                    table_len as int,
                    j as int,
                    pos as int,
                    total as int,
                    expected_total,
                    original_size,
                    chunks_view(chunks@),
                ),
            decreases table_len + 12 - 12 * j,
        {
            let size = read_u32_le(data, table + 12 * j) as usize;
            if size > len - pos {
                let p = ChunkPlan { chunks, tail: PlanTail::Aborts };
                return Ok(Some(p));
            }
            let ghost before = chunks_view(chunks@);
            chunks.push((pos, size));
            assert(chunks_view(chunks@) =~= before.push((pos as int, size as int)));
            if size as u64 + total as u64 > u32::MAX as u64 {
                let p = ChunkPlan { chunks, tail: PlanTail::Aborts };
                return Ok(Some(p));
            }
            total = total + size as u32;
            pos = pos + size;
            j = j + 1;
        }
        Ok(Some(ChunkPlan { chunks, tail: PlanTail::Checked { total, expected_total, original_size } }))
    }
}

} // verus!
