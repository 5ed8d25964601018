use vstd::prelude::*;
use crate::block::{block_result, decode_block, lemma_block_len};
use crate::error::CisoError;
use crate::header::{parse_spec, CisoHeader, HeaderView};

verus! {

/// The first `n` blocks of the container `src`, decoded and joined, or the
/// error of the first block among them that does not decode.
pub open spec fn decode_blocks(h: HeaderView, src: Seq<u8>, n: int) -> Result<Seq<u8>, CisoError>
    decreases n,
{
    if n <= 0 {
        Ok(Seq::empty())
    } else {
        match decode_blocks(h, src, n - 1) {
            Err(e) => Err(e),
            Ok(done) => match block_result(h, src, n - 1) {
                Err(e) => Err(e),
                Ok(b) => Ok(done + b),
            },
        }
    }
}

/// The stream that the container `src` wraps: its header parsed, then all of
/// its blocks in order.
pub open spec fn decode_spec(src: Seq<u8>) -> Result<Seq<u8>, CisoError> {
    match parse_spec(src) {
        Err(e) => Err(e),
        Ok(h) => decode_blocks(h, src, h.block_count()),
    }
}

/// Once a block fails, every longer run of blocks fails with its error.
pub proof fn lemma_decode_fails(h: HeaderView, src: Seq<u8>, i: int, n: int, e: CisoError)
    requires
        0 <= i < n,
        decode_blocks(h, src, i) is Ok,
        block_result(h, src, i) == Err::<Seq<u8>, CisoError>(e),
    ensures
        decode_blocks(h, src, n) == Err::<Seq<u8>, CisoError>(e),
    decreases n,
{
    if n > i + 1 {
        lemma_decode_fails(h, src, i, n - 1, e);
    }
}

/// A run of `n` blocks that decodes is `n * block_size` bytes long, each of
/// its shorter runs decodes to its prefix, and each of its blocks sits at
/// its place in it.
pub proof fn lemma_decode_blocks(h: HeaderView, src: Seq<u8>, n: int)
    requires
        h.wf(),
        0 <= n <= h.block_count(),
        decode_blocks(h, src, n) is Ok,
    ensures
        decode_blocks(h, src, n)->Ok_0.len() == n * h.block_size,
        forall|i: int|
            0 <= i < n ==> {
                &&& #[trigger] block_result(h, src, i) is Ok
                &&& block_result(h, src, i)->Ok_0 == decode_blocks(h, src, n)->Ok_0.subrange(
                    i * h.block_size,
                    i * h.block_size + h.block_size,
                )
            },
    decreases n,
{
    if n > 0 {
        lemma_decode_blocks(h, src, n - 1);
        lemma_block_len(h, src, n - 1);
        let done = decode_blocks(h, src, n - 1)->Ok_0;
        let last = block_result(h, src, n - 1)->Ok_0;
        let all = decode_blocks(h, src, n)->Ok_0;
        let bs = h.block_size as int;
        assert(all == done + last);
        assert(n * bs == (n - 1) * bs + bs) by (nonlinear_arith);
        assert forall|i: int| 0 <= i < n implies {
            &&& #[trigger] block_result(h, src, i) is Ok
            &&& block_result(h, src, i)->Ok_0 == all.subrange(i * bs, i * bs + bs)
        } by {
            if i < n - 1 {
                assert(i * bs + bs <= (n - 1) * bs) by (nonlinear_arith)
                    requires
                        0 <= i < n - 1,
                        bs > 0,
                ;
                assert(i * bs >= 0) by (nonlinear_arith)
                    requires
                        0 <= i,
                        bs > 0,
                ;
                assert(all.subrange(i * bs, i * bs + bs) =~= done.subrange(i * bs, i * bs + bs));
            } else {
                assert(all.subrange(i * bs, i * bs + bs) =~= last);
            }
        }
    }
}

/// Decodes a whole container into the stream that it wraps.
///
/// The result is `total_bytes` long. The first error met is returned: that of
/// the header, else that of the first block that does not decode.
pub fn decomp_ciso(container: &[u8]) -> (r: Result<Vec<u8>, CisoError>)
    ensures
        match r {
            Ok(out) => decode_spec(container@) == Ok::<Seq<u8>, CisoError>(out@)
                && out@.len() == parse_spec(container@)->Ok_0.total_bytes,
            Err(e) => decode_spec(container@) == Err::<Seq<u8>, CisoError>(e),
        },
{
    let h = match CisoHeader::from_bytes(container) {
        Ok(h) => h,
        Err(e) => { return Err(e); },
    };
    let blocks: usize = h.index_buff.len() - 1;
    let mut out: Vec<u8> = Vec::new();
    let mut i: usize = 0;
    while i < blocks
        invariant
            h.wf(),
            parse_spec(container@) == Ok::<HeaderView, CisoError>(h@),
            blocks + 1 == h.index_buff@.len(),
            i <= blocks,
            decode_blocks(h@, container@, i as int) == Ok::<Seq<u8>, CisoError>(out@),
        decreases blocks - i,
    {
        match decode_block(&h, container, i) {
            Err(e) => {
                proof {
                    lemma_decode_fails(h@, container@, i as int, blocks as int, e);
                }
                return Err(e);
            },
            Ok(mut b) => {
                out.append(&mut b);
            },
        }
        i += 1;
    }
    proof {
        lemma_decode_blocks(h@, container@, blocks as int);
        vstd::arithmetic::div_mod::lemma_fundamental_div_mod(
            h.total_bytes as int,
            h.block_size as int,
        );
        assert(blocks * h.block_size == h.block_size * blocks) by (nonlinear_arith);
    }
    Ok(out)
}

} // verus!
