use vstd::prelude::*;
use vstd::slice::{slice_subrange, slice_to_vec};
use crate::codec::{inflate, raw_inflate};
use crate::error::CisoError;
use crate::header::{CisoHeader, HeaderView};

verus! {

/// What an inflater's outcome is worth as a block: the buffer, where exactly
/// `block_size` bytes were written to a buffer of that length.
pub open spec fn inflated_block(got: Option<(Seq<u8>, u64)>, block_size: u32) -> Result<
    Seq<u8>,
    CisoError,
> {
    match got {
        Some((out, n)) => if n == block_size && out.len() == block_size {
            Ok(out)
        } else {
            Err(CisoError::Decompress)
        },
        None => Err(CisoError::Decompress),
    }
}

/// The bytes of block `i` of the container `src` with header `h`.
///
/// A plain block is the `block_size` bytes at its offset. Any other block is
/// the bytes from its offset to the next entry's offset, inflated. A block
/// that reaches past the end of `src` is an `Io` error, a next offset below
/// the block's own a `Format` error.
pub open spec fn block_result(h: HeaderView, src: Seq<u8>, i: int) -> Result<Seq<u8>, CisoError> {
    let off = h.offset(i);
    let next = h.offset(i + 1);
    if h.plain(i) {
        if off + h.block_size <= src.len() {
            Ok(src.subrange(off, off + h.block_size))
        } else {
            Err(CisoError::Io)
        }
    } else if next < off {
        Err(CisoError::Format)
    } else if next > src.len() {
        Err(CisoError::Io)
    } else {
        inflated_block(raw_inflate(src.subrange(off, next), h.block_size as nat), h.block_size)
    }
}

/// A block that decodes has `block_size` bytes.
pub proof fn lemma_block_len(h: HeaderView, src: Seq<u8>, i: int)
    requires
        h.wf(),
        0 <= i < h.block_count(),
        block_result(h, src, i) is Ok,
    ensures
        block_result(h, src, i)->Ok_0.len() == h.block_size,
{
    crate::index::lemma_offset_aligned(h.index[i].0, h.align);
}

/// Judges what the inflater returned for one block: the buffer is the block
/// where exactly `block_size` bytes were written, a `Decompress` error
/// otherwise.
pub fn accept_inflated(got: Option<(Vec<u8>, u64)>, block_size: u32) -> (r: Result<
    Vec<u8>,
    CisoError,
>)
    ensures
        match r {
            Ok(b) => got is Some && inflated_block(Some((got->Some_0.0@, got->Some_0.1)), block_size)
                == Ok::<Seq<u8>, CisoError>(b@),
            Err(e) => e == CisoError::Decompress && (match got {
                Some((out, n)) => inflated_block(Some((out@, n)), block_size) is Err,
                None => true,
            }),
        },
{
    match got {
        Some((out, n)) => {
            if n == block_size as u64 && out.len() == block_size as usize {
                Ok(out)
            } else {
                Err(CisoError::Decompress)
            }
        },
        None => Err(CisoError::Decompress),
    }
}

/// Decodes block `block` of the container `src`.
pub fn decode_block(h: &CisoHeader, src: &[u8], block: usize) -> (r: Result<Vec<u8>, CisoError>)
    requires
        h.wf(),
        block + 1 < h.index_buff@.len(),
    ensures
        match r {
            Ok(b) => block_result(h@, src@, block as int) == Ok::<Seq<u8>, CisoError>(b@)
                && b@.len() == h.block_size,
            Err(e) => block_result(h@, src@, block as int) == Err::<Seq<u8>, CisoError>(e),
        },
{
    let entries: usize = h.index_buff.len();
    assert(block + 1 < entries);
    let entry = h.index_buff[block];
    let off: u64 = entry.get_read_pos(h.align);
    let len: u64 = src.len() as u64;
    if entry.is_plain() {
        if off > len || len - off < h.block_size as u64 {
            return Err(CisoError::Io);
        }
        let start: usize = off as usize;
        let end: usize = start + h.block_size as usize;
        Ok(slice_to_vec(slice_subrange(src, start, end)))
    } else {
        let next: u64 = h.index_buff[block + 1].get_read_pos(h.align);
        if next < off {
            return Err(CisoError::Format);
        }
        if next > len {
            return Err(CisoError::Io);
        }
        let got = inflate(slice_subrange(src, off as usize, next as usize), h.block_size as usize);
        accept_inflated(got, h.block_size)
    }
}

} // verus!
