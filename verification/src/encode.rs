use vstd::prelude::*;
use vstd::slice::{slice_subrange, slice_to_vec};
use crate::block::block_result;
use crate::codec::{deflate, raw_deflate, raw_inflate};
use crate::decode::{decode_blocks, decode_spec};
use crate::error::CisoError;
use crate::header::{
    lemma_parse_serialize_prefix, parse_spec, serialize_spec, CisoHeader, HeaderView, PREAMBLE_LEN,
};
use crate::index::{entry_word, offset_of, plain_of, CisoIndex};

verus! {

/// Size in bytes of the blocks that the encoder makes.
pub const BLOCK_SIZE: u32 = 0x800;

/// The index and the stored blocks of a container under construction.
pub type Progress = (Seq<CisoIndex>, Seq<u8>);

/// Block `i` of the stream `raw`.
pub open spec fn raw_block(raw: Seq<u8>, i: int) -> Seq<u8> {
    raw.subrange(i * 0x800, i * 0x800 + 0x800)
}

/// How a block is stored, given what the deflater made of it: deflated where
/// the deflater finished within its buffer with fewer bytes than the block
/// has, as it is (and flagged plain) otherwise.
pub open spec fn stored_block(got: Option<(Seq<u8>, u64, bool)>, block: Seq<u8>) -> Result<
    (Seq<u8>, bool),
    CisoError,
> {
    match got {
        None => Err(CisoError::Compress),
        Some((buf, n, done)) => if done && n < block.len() && n <= buf.len() {
            Ok((buf.take(n as int), false))
        } else {
            Ok((block, true))
        },
    }
}

/// A container of `i` blocks grown by block `i`: the block's entry holds the
/// position at which it starts, `base` being the length of the header.
pub open spec fn encode_step(raw: Seq<u8>, level: u8, i: int, base: int, prev: Progress) -> Result<
    Progress,
    CisoError,
> {
    let pos = base + prev.1.len();
    if pos > 0x7fff_ffff {
        Err(CisoError::TooLarge)
    } else {
        match stored_block(raw_deflate(raw_block(raw, i), level, 0x1000), raw_block(raw, i)) {
            Err(e) => Err(e),
            Ok((bytes, plain)) => Ok(
                (prev.0.push(CisoIndex(entry_word(pos as u32, plain))), prev.1 + bytes),
            ),
        }
    }
}

/// The index and the stored bytes of the first `n` blocks of `raw`, or the
/// first error met.
pub open spec fn encode_blocks(raw: Seq<u8>, level: u8, n: int, base: int) -> Result<
    Progress,
    CisoError,
>
    decreases n,
{
    if n <= 0 {
        Ok((Seq::empty(), Seq::empty()))
    } else {
        match encode_blocks(raw, level, n - 1, base) {
            Err(e) => Err(e),
            Ok(prev) => encode_step(raw, level, n - 1, base, prev),
        }
    }
}

/// The header of a container for a stream of `total` bytes with the index
/// `index`: blocks of 2048 bytes, version 1, no alignment.
pub open spec fn fresh_header(total: int, index: Seq<CisoIndex>) -> HeaderView {
    HeaderView {
        header_size: 0,
        total_bytes: total as u64,
        block_size: 0x800,
        ver: 1,
        align: 0,
        rsv_06: 0,
        rsv_07: 0,
        index,
    }
}

/// The header of the container for the stream `raw`: the index that was
/// built block by block, closed by an entry for the end of the last block.
pub open spec fn encoded_header(raw: Seq<u8>, level: u8) -> HeaderView {
    let n = raw.len() as int / 0x800;
    let base = 28 + 4 * n;
    let (index, payload) = encode_blocks(raw, level, n, base)->Ok_0;
    fresh_header(raw.len() as int, index.push(CisoIndex((base + payload.len()) as u32)))
}

/// The container for the stream `raw` at compression level `level`: its
/// header, then its stored blocks.
///
/// The stream must be a whole number of blocks, and every position in the
/// container, its end included, must fit in 31 bits. The alignment exponent
/// is 0: every position is aligned, and nothing is written between blocks.
pub open spec fn encode_spec(raw: Seq<u8>, level: u8) -> Result<Seq<u8>, CisoError> {
    let n = raw.len() as int / 0x800;
    let base = 28 + 4 * n;
    if raw.len() as int % 0x800 != 0 {
        Err(CisoError::Geometry)
    } else {
        match encode_blocks(raw, level, n, base) {
            Err(e) => Err(e),
            Ok((index, payload)) => if base + payload.len() > 0x7fff_ffff {
                Err(CisoError::TooLarge)
            } else {
                Ok(serialize_spec(encoded_header(raw, level)) + payload)
            },
        }
    }
}

/// The offsets of the index never run backwards, and a plain block takes
/// exactly `block_size` bytes.
pub open spec fn index_ordered(h: HeaderView) -> bool {
    forall|j: int|
        0 <= j < h.index.len() - 1 ==> {
            &&& #[trigger] h.offset(j) <= h.offset(j + 1)
            &&& (h.plain(j) ==> h.offset(j + 1) - h.offset(j) == h.block_size)
        }
}

/// Where block `j` ends in a container under construction: at the next
/// entry's position, or at `end` for the last block so far.
pub open spec fn next_start(index: Seq<CisoIndex>, j: int, end: int) -> int {
    if j + 1 < index.len() {
        offset_of(index[j + 1].0, 0) as int
    } else {
        end
    }
}

/// Block `j` is stored so that decoding gives it back: a plain block holds
/// the raw bytes, any other inflates to them.
pub open spec fn sound_at(
    index: Seq<CisoIndex>,
    payload: Seq<u8>,
    base: int,
    raw: Seq<u8>,
    j: int,
) -> bool {
    let s = offset_of(index[j].0, 0) as int;
    let e = next_start(index, j, base + payload.len());
    &&& base <= s <= e <= base + payload.len()
    &&& if plain_of(index[j].0) {
        e == s + 0x800 && payload.subrange(s - base, e - base) == raw_block(raw, j)
    } else {
        raw_inflate(payload.subrange(s - base, e - base), 0x800) == Some(
            (raw_block(raw, j), 0x800u64),
        )
    }
}

/// Once a block cannot be stored, every longer run of blocks fails with its
/// error.
pub proof fn lemma_encode_fails(raw: Seq<u8>, level: u8, i: int, n: int, base: int, e: CisoError)
    requires
        0 <= i < n,
        encode_blocks(raw, level, i, base) is Ok,
        encode_step(raw, level, i, base, encode_blocks(raw, level, i, base)->Ok_0) == Err::<
            Progress,
            CisoError,
        >(e),
    ensures
        encode_blocks(raw, level, n, base) == Err::<Progress, CisoError>(e),
    decreases n,
{
    if n > i + 1 {
        lemma_encode_fails(raw, level, i, n - 1, base, e);
    }
}

/// Where every one of the first `n` blocks of a container decodes to the
/// block of `raw` at its place, the first `n` blocks decode to the start of
/// `raw`.
pub proof fn lemma_decode_all(h: HeaderView, src: Seq<u8>, raw: Seq<u8>, n: int)
    requires
        0 <= n,
        n * 0x800 <= raw.len(),
        forall|j: int|
            0 <= j < n ==> #[trigger] block_result(h, src, j) == Ok::<Seq<u8>, CisoError>(
                raw_block(raw, j),
            ),
    ensures
        decode_blocks(h, src, n) == Ok::<Seq<u8>, CisoError>(raw.take(n * 0x800)),
    decreases n,
{
    if n > 0 {
        lemma_decode_all(h, src, raw, n - 1);
        assert(block_result(h, src, n - 1) == Ok::<Seq<u8>, CisoError>(raw_block(raw, n - 1)));
        assert(raw.take((n - 1) * 0x800) + raw_block(raw, n - 1) =~= raw.take(n * 0x800));
    } else {
        assert(raw.take(0) =~= Seq::<u8>::empty());
    }
}

/// Chooses how a block is stored, given what the deflater returned for it.
///
/// The deflated bytes are kept where the deflater finished with fewer bytes
/// than the block has; else the block itself is kept and flagged plain.
pub fn store_block(got: Option<(Vec<u8>, u64, bool)>, block: Vec<u8>) -> (r: Result<
    (Vec<u8>, bool),
    CisoError,
>)
    ensures
        match r {
            Ok((bytes, plain)) => got is Some && stored_block(
                Some((got->Some_0.0@, got->Some_0.1, got->Some_0.2)),
                block@,
            ) == Ok::<(Seq<u8>, bool), CisoError>((bytes@, plain)),
            Err(e) => got is None && e == CisoError::Compress,
        },
{
    match got {
        None => Err(CisoError::Compress),
        Some((mut buf, n, done)) => {
            if done && n < block.len() as u64 && n <= buf.len() as u64 {
                buf.truncate(n as usize);
                Ok((buf, false))
            } else {
                Ok((block, true))
            }
        },
    }
}

/// Encodes the stream `raw` as a container, at compression level `level`.
///
/// Every block is deflated on its own, and kept as it is where that does
/// not make it smaller. Decoding the container gives `raw` back, the header
/// at its start parses to the header that was built block by block, and its
/// index is ordered.
pub fn comp_ciso(raw: &[u8], level: u8) -> (r: Result<Vec<u8>, CisoError>)
    requires
        1 <= level <= 9,
    ensures
        match r {
            Ok(out) => {
                &&& encode_spec(raw@, level) == Ok::<Seq<u8>, CisoError>(out@)
                &&& parse_spec(out@) == Ok::<HeaderView, CisoError>(encoded_header(raw@, level))
                &&& encoded_header(raw@, level).wf()
                &&& index_ordered(encoded_header(raw@, level))
                &&& decode_spec(out@) == Ok::<Seq<u8>, CisoError>(raw@)
            },
            Err(e) => encode_spec(raw@, level) == Err::<Seq<u8>, CisoError>(e),
        },
{
    if raw.len() % 0x800 != 0 {
        return Err(CisoError::Geometry);
    }
    let blocks: usize = raw.len() / 0x800;
    let base: usize = PREAMBLE_LEN + 4 * (blocks + 1);
    let mut index: Vec<CisoIndex> = Vec::new();
    let mut payload: Vec<u8> = Vec::new();
    let mut i: usize = 0;
    while i < blocks
        invariant
            1 <= level <= 9,
            blocks * 0x800 == raw@.len(),
            raw@.len() <= usize::MAX,
            base == 28 + 4 * blocks,
            i <= blocks,
            index@.len() == i,
            payload@.len() <= 0x8000_0800,
            encode_blocks(raw@, level, i as int, base as int) == Ok::<Progress, CisoError>(
                (index@, payload@),
            ),
            forall|j: int| 0 <= j < i ==> #[trigger] sound_at(index@, payload@, base as int, raw@, j),
        decreases blocks - i,
    {
        let pos: u64 = base as u64 + payload.len() as u64;
        if pos > 0x7fff_ffff {
            proof {
                lemma_encode_fails(raw@, level, i as int, blocks as int, base as int, CisoError::TooLarge);
            }
            return Err(CisoError::TooLarge);
        }
        let block = slice_subrange(raw, i * 0x800, i * 0x800 + 0x800);
        let got = deflate(block, level, 0x1000);
        let stored = store_block(got, slice_to_vec(block));
        let ghost old_index = index@;
        let ghost old_payload = payload@;
        match stored {
            Err(e) => {
                proof {
                    lemma_encode_fails(raw@, level, i as int, blocks as int, base as int, e);
                }
                return Err(e);
            },
            Ok((mut bytes, plain)) => {
                let ghost added = bytes@;
                index.push(CisoIndex::new(pos as u32, plain));
                payload.append(&mut bytes);
                proof {
                    assert forall|j: int| 0 <= j <= i implies #[trigger] sound_at(
                        index@,
                        payload@,
                        base as int,
                        raw@,
                        j,
                    ) by {
                        let s = offset_of(index@[j].0, 0) as int;
                        let e = next_start(index@, j, base + payload@.len());
                        if j < i {
                            assert(sound_at(old_index, old_payload, base as int, raw@, j));
                            assert(e == next_start(old_index, j, base + old_payload.len()));
                            assert(payload@.subrange(s - base, e - base) =~= old_payload.subrange(
                                s - base,
                                e - base,
                            ));
                        } else {
                            assert(s == pos);
                            assert(e == pos + added.len());
                            assert(payload@.subrange(s - base, e - base) =~= added);
                        }
                    }
                }
            },
        }
        i += 1;
    }
    let end: u64 = base as u64 + payload.len() as u64;
    if end > 0x7fff_ffff {
        return Err(CisoError::TooLarge);
    }
    let ghost body_index = index@;
    index.push(CisoIndex::new(end as u32, false));
    let header = CisoHeader {
        header_size: 0,
        total_bytes: raw.len() as u64,
        block_size: BLOCK_SIZE,
        ver: 1,
        align: 0,
        rsv_06: 0,
        rsv_07: 0,
        index_buff: index,
    };
    let mut out = header.to_bytes();
    let ghost head = out@;
    let ghost body = payload@;
    out.append(&mut payload);
    proof {
        let h = header@;
        assert(h == fresh_header(raw@.len() as int, body_index.push(CisoIndex(end as u32))));
        assert(h.wf());
        lemma_parse_serialize_prefix(h, body);
        assert(out@ == serialize_spec(h) + body);
        assert forall|j: int| 0 <= j < blocks implies #[trigger] block_result(h, out@, j) == Ok::<
            Seq<u8>,
            CisoError,
        >(raw_block(raw@, j)) by {
            assert(sound_at(body_index, body, base as int, raw@, j));
            let s = h.offset(j);
            let e = h.offset(j + 1);
            assert(e == next_start(body_index, j, base + body.len()));
            assert(out@.subrange(s, e) =~= body.subrange(s - base, e - base));
        }
        lemma_decode_all(h, out@, raw@, blocks as int);
        assert(raw@.take(blocks * 0x800) =~= raw@);
        assert forall|j: int| 0 <= j < h.index.len() - 1 implies {
            &&& #[trigger] h.offset(j) <= h.offset(j + 1)
            &&& (h.plain(j) ==> h.offset(j + 1) - h.offset(j) == h.block_size)
        } by {
            assert(sound_at(body_index, body, base as int, raw@, j));
            assert(h.offset(j + 1) == next_start(body_index, j, base + body.len()));
        }
    }
    Ok(out)
}

} // verus!
