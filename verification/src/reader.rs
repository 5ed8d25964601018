use vstd::prelude::*;
use vstd::arithmetic::div_mod::{lemma_fundamental_div_mod, lemma_fundamental_div_mod_converse};
use crate::block::{block_result, decode_block};
use crate::decode::{decode_blocks, decode_spec, lemma_decode_blocks};
use crate::error::CisoError;
use crate::header::{parse_spec, CisoHeader, HeaderView};

verus! {

/// Where a seek starts from.
#[derive(Clone, Copy, Debug, PartialEq, Eq, Structural)]
pub enum SeekFrom {
    /// An absolute position.
    Start(u64),
    /// An offset from the end of the stream.
    End(i64),
    /// An offset from the current position.
    Current(i64),
}

/// A position brought into the range of `u64`: below zero it becomes zero.
pub open spec fn clamp_position(x: int) -> int {
    if x < 0 {
        0
    } else if x > u64::MAX {
        u64::MAX as int
    } else {
        x
    }
}

/// The position that a seek leads to, from the position `pos` in a stream of
/// `total` bytes. Nothing holds it below `total`.
pub open spec fn seek_target(pos: int, total: int, from: SeekFrom) -> int {
    match from {
        SeekFrom::Start(p) => p as int,
        SeekFrom::End(d) => clamp_position(total + d),
        SeekFrom::Current(d) => clamp_position(pos + d),
    }
}

/// Number of bytes that a read of `cap` bytes at `pos` gives in a stream of
/// `total` bytes: what is left of the stream, at most `cap`.
pub open spec fn read_len(total: int, pos: int, cap: int) -> int {
    if pos >= total {
        0
    } else if total - pos < cap {
        total - pos
    } else {
        cap
    }
}

/// The block that holds byte `x` of the stream.
pub open spec fn block_of(h: HeaderView, x: int) -> int {
    x / (h.block_size as int)
}

/// Byte `x` of the stream, read from its block.
pub open spec fn stream_byte(h: HeaderView, src: Seq<u8>, x: int) -> u8 {
    block_result(h, src, block_of(h, x))->Ok_0[x % (h.block_size as int)]
}

/// Facts on the products that address blocks.
pub proof fn lemma_block_bounds(cb: int, n: int, bs: int)
    requires
        0 <= cb < n,
        bs > 0,
    ensures
        cb * bs >= 0,
        (cb + 1) * bs == cb * bs + bs,
        (cb + 1) * bs <= n * bs,
{
    assert(cb * bs >= 0 && (cb + 1) * bs == cb * bs + bs) by (nonlinear_arith)
        requires
            0 <= cb,
            bs > 0,
    ;
    assert((cb + 1) * bs <= n * bs) by (nonlinear_arith)
        requires
            cb + 1 <= n,
            bs > 0,
    ;
}

/// In a container that decodes as a whole, every byte of the stream is the
/// byte at its place in its block.
pub proof fn lemma_stream_byte(h: HeaderView, src: Seq<u8>, x: int)
    requires
        h.wf(),
        decode_blocks(h, src, h.block_count()) is Ok,
        0 <= x < h.total_bytes,
    ensures
        0 <= block_of(h, x) < h.block_count(),
        block_result(h, src, block_of(h, x)) is Ok,
        decode_blocks(h, src, h.block_count())->Ok_0.len() == h.total_bytes,
        stream_byte(h, src, x) == decode_blocks(h, src, h.block_count())->Ok_0[x],
{
    let bs = h.block_size as int;
    let n = h.block_count();
    let b = x / bs;
    lemma_fundamental_div_mod(x, bs);
    lemma_fundamental_div_mod(h.total_bytes as int, bs);
    assert(n * bs == bs * n) by (nonlinear_arith);
    assert(b * bs == bs * b) by (nonlinear_arith);
    assert(0 <= b < n) by (nonlinear_arith)
        requires
            0 <= x < n * bs,
            x == b * bs + x % bs,
            0 <= x % bs < bs,
    ;
    lemma_decode_blocks(h, src, n);
    assert(block_result(h, src, b) is Ok);
    lemma_block_bounds(b, n, bs);
}

/// A container opened for reading at any position of the stream it wraps.
pub struct Ciso {
    source: Vec<u8>,
    ciso_header: CisoHeader,
    current_pos: u64,
}

impl Ciso {
    /// The bytes of the container.
    pub closed spec fn source(&self) -> Seq<u8> {
        self.source@
    }

    /// The header of the container.
    pub closed spec fn header(&self) -> HeaderView {
        self.ciso_header@
    }

    /// The position in the stream at which the next read starts.
    pub closed spec fn position(&self) -> int {
        self.current_pos as int
    }

    /// The header is the one that the container's bytes hold.
    pub open spec fn wf(&self) -> bool {
        &&& self.header().wf()
        &&& parse_spec(self.source()) == Ok::<HeaderView, CisoError>(self.header())
    }

    /// Opens the container `source`, at position 0.
    pub fn new(source: Vec<u8>) -> (r: Result<Ciso, CisoError>)
        ensures
            match r {
                Ok(c) => c.wf() && c.source() == source@ && c.position() == 0,
                Err(e) => parse_spec(source@) == Err::<HeaderView, CisoError>(e),
            },
    {
        match CisoHeader::from_bytes(source.as_slice()) {
            Ok(ciso_header) => Ok(Ciso { source, ciso_header, current_pos: 0 }),
            Err(e) => Err(e),
        }
    }

    /// The current position in the stream.
    pub fn stream_position(&self) -> (pos: u64)
        ensures
            pos == self.position(),
    {
        self.current_pos
    }

    /// Length in bytes of the stream that the container wraps.
    pub fn total_bytes(&self) -> (total: u64)
        ensures
            total == self.header().total_bytes,
    {
        self.ciso_header.total_bytes
    }

    /// Decodes block `block` and copies its start into the start of `buf`:
    /// as many bytes as `buf` holds, at most one block. The rest of `buf`
    /// stays as it is. Past the last block nothing is copied and 0 is
    /// returned.
    pub fn read_block(&self, buf: &mut Vec<u8>, block: usize) -> (r: Result<usize, CisoError>)
        requires
            self.wf(),
        ensures
            final(buf)@.len() == old(buf)@.len(),
            block + 1 >= self.header().index.len() ==> r == Ok::<usize, CisoError>(0) && final(buf)@
                == old(buf)@,
            block + 1 < self.header().index.len() ==> match block_result(
                self.header(),
                self.source(),
                block as int,
            ) {
                Err(e) => r == Err::<usize, CisoError>(e) && final(buf)@ == old(buf)@,
                Ok(b) => r == Ok::<usize, CisoError>(
                    read_len(b.len() as int, 0, old(buf)@.len() as int) as usize,
                ) && final(buf)@ == b.take(r->Ok_0 as int) + old(buf)@.skip(r->Ok_0 as int),
            },
    {
        if block >= self.ciso_header.index_buff.len() - 1 {
            return Ok(0);
        }
        let decoded = match decode_block(&self.ciso_header, self.source.as_slice(), block) {
            Ok(b) => b,
            Err(e) => { return Err(e); },
        };
        let count: usize = if buf.len() < decoded.len() {
            buf.len()
        } else {
            decoded.len()
        };
        copy_into(buf, 0, &decoded, 0, count);
        assert(final(buf)@ =~= decoded@.take(count as int) + old(buf)@.skip(count as int));
        Ok(count)
    }

    /// Moves the position. A target below zero becomes zero; nothing holds
    /// the position below the length of the stream.
    pub fn seek(&mut self, from: SeekFrom) -> (r: Result<u64, CisoError>)
        requires
            old(self).wf(),
        ensures
            final(self).wf(),
            final(self).source() == old(self).source(),
            final(self).header() == old(self).header(),
            final(self).position() == seek_target(
                old(self).position(),
                old(self).header().total_bytes as int,
                from,
            ),
            r == Ok::<u64, CisoError>(final(self).position() as u64),
    {
        let target: i128 = match from {
            SeekFrom::Start(p) => p as i128,
            SeekFrom::End(d) => self.ciso_header.total_bytes as i128 + d as i128,
            SeekFrom::Current(d) => self.current_pos as i128 + d as i128,
        };
        let clamped: u64 = if target < 0 {
            0
        } else if target > u64::MAX as i128 {
            u64::MAX
        } else {
            target as u64
        };
        self.current_pos = clamped;
        Ok(clamped)
    }

    /// Reads from the stream at the current position into the start of
    /// `buf`, and moves the position past what was read.
    ///
    /// As many bytes are read as `buf` holds, or as the stream has left if
    /// those are fewer; at or past the end that is none. The read fails with
    /// the error of the first block it needs that does not decode; it then
    /// leaves the position where it was, and in `buf` the bytes of the blocks
    /// before that one.
    pub fn read(&mut self, buf: &mut Vec<u8>) -> (r: Result<usize, CisoError>)
        requires
            old(self).wf(),
        ensures
            final(self).wf(),
            final(self).source() == old(self).source(),
            final(self).header() == old(self).header(),
            final(buf)@.len() == old(buf)@.len(),
            match r {
                Ok(n) => {
                    &&& n == read_len(
                        old(self).header().total_bytes as int,
                        old(self).position(),
                        old(buf)@.len() as int,
                    )
                    &&& final(self).position() == old(self).position() + n
                    &&& forall|k: int|
                        0 <= k < n ==> {
                            &&& block_result(
                                old(self).header(),
                                old(self).source(),
                                #[trigger] block_of(old(self).header(), old(self).position() + k),
                            ) is Ok
                            &&& final(buf)@[k] == stream_byte(
                                old(self).header(),
                                old(self).source(),
                                old(self).position() + k,
                            )
                        }
                    &&& forall|k: int| n <= k < old(buf)@.len() ==> final(buf)@[k] == old(buf)@[k]
                },
                Err(e) => {
                    &&& final(self).position() == old(self).position()
                    &&& exists|k: int|
                        {
                            &&& 0 <= k < read_len(
                                old(self).header().total_bytes as int,
                                old(self).position(),
                                old(buf)@.len() as int,
                            )
                            &&& block_result(
                                old(self).header(),
                                old(self).source(),
                                #[trigger] block_of(old(self).header(), old(self).position() + k),
                            ) == Err::<Seq<u8>, CisoError>(e)
                            &&& forall|j: int|
                                0 <= j < k ==> {
                                    &&& block_result(
                                        old(self).header(),
                                        old(self).source(),
                                        #[trigger] block_of(
                                            old(self).header(),
                                            old(self).position() + j,
                                        ),
                                    ) is Ok
                                    &&& final(buf)@[j] == stream_byte(
                                        old(self).header(),
                                        old(self).source(),
                                        old(self).position() + j,
                                    )
                                }
                            &&& forall|j: int|
                                k <= j < old(buf)@.len() ==> final(buf)@[j] == old(buf)@[j]
                        }
                },
            },
            old(self).position() >= old(self).header().total_bytes ==> r == Ok::<usize, CisoError>(0),
            decode_spec(old(self).source()) is Ok ==> r is Ok,
            decode_spec(old(self).source()) is Ok && old(self).position() <= old(
                self,
            ).header().total_bytes ==> final(buf)@.take(r->Ok_0 as int) == decode_spec(
                old(self).source(),
            )->Ok_0.subrange(old(self).position(), old(self).position() + r->Ok_0),
    {
        let ghost h = self.ciso_header@;
        let ghost src = self.source@;
        let bs: u64 = self.ciso_header.block_size as u64;
        let nblocks: usize = self.ciso_header.index_buff.len() - 1;
        let start: u64 = self.current_pos;
        proof {
            lemma_fundamental_div_mod(h.total_bytes as int, bs as int);
            assert(nblocks * bs == bs * nblocks) by (nonlinear_arith);
            lemma_fundamental_div_mod(start as int, bs as int);
            assert((start / bs) * bs == bs * (start / bs)) by (nonlinear_arith);
        }
        if start >= self.ciso_header.total_bytes {
            proof {
                if decode_spec(src) is Ok {
                    lemma_decode_blocks(h, src, h.block_count());
                    assert(buf@.take(0) =~= decode_spec(src)->Ok_0.subrange(
                        h.total_bytes as int,
                        h.total_bytes as int,
                    ));
                }
            }
            return Ok(0);
        }
        assert(start / bs < nblocks) by (nonlinear_arith)
            requires
                start < nblocks * bs,
                start == (start / bs) * bs + start % bs,
                0 <= start % bs < bs,
        ;
        let mut cb: usize = (start / bs) as usize;
        let mut ob: usize = (start % bs) as usize;
        let mut done: usize = 0;
        while done < buf.len() && cb < nblocks
            invariant
                self.wf(),
                *self == *old(self),
                h == self.ciso_header@,
                src == self.source@,
                h.wf(),
                bs == h.block_size,
                start == self.current_pos,
                nblocks + 1 == self.ciso_header.index_buff@.len(),
                nblocks * bs == h.total_bytes,
                cb <= nblocks,
                ob < bs,
                cb == nblocks ==> ob == 0,
                start + done == cb * bs + ob,
                start + done <= h.total_bytes,
                done <= buf@.len() == old(buf)@.len(),
                forall|k: int|
                    0 <= k < done ==> {
                        &&& block_result(h, src, #[trigger] block_of(h, start + k)) is Ok
                        &&& buf@[k] == stream_byte(h, src, start + k)
                    },
                forall|k: int| done <= k < buf@.len() ==> buf@[k] == old(buf)@[k],
            decreases buf@.len() - done,
        {
            proof {
                lemma_block_bounds(cb as int, nblocks as int, bs as int);
                lemma_fundamental_div_mod_converse(start + done, bs as int, cb as int, ob as int);
            }
            let decoded = match decode_block(&self.ciso_header, self.source.as_slice(), cb) {
                Ok(b) => b,
                Err(e) => {
                    proof {
                        assert(block_of(h, start + done) == cb);
                        assert(decode_spec(src) is Ok ==> false) by {
                            if decode_spec(src) is Ok {
                                lemma_stream_byte(h, src, start + done);
                            }
                        }
                    }
                    return Err(e);
                },
            };
            let room: usize = buf.len() - done;
            let tail: usize = bs as usize - ob;
            let count: usize = if room < tail {
                room
            } else {
                tail
            };
            let ghost before = buf@;
            copy_into(buf, done, &decoded, ob, count);
            proof {
                assert forall|k: int| 0 <= k < done + count implies {
                    &&& block_result(h, src, #[trigger] block_of(h, start + k)) is Ok
                    &&& buf@[k] == stream_byte(h, src, start + k)
                } by {
                    if k >= done {
                        lemma_fundamental_div_mod_converse(
                            start + k,
                            bs as int,
                            cb as int,
                            ob + (k - done),
                        );
                        assert(buf@[k] == decoded@[ob + (k - done)]);
                    } else {
                        assert(buf@[k] == before[k]);
                    }
                }
            }
            done = done + count;
            ob = ob + count;
            if ob == bs as usize {
                cb = cb + 1;
                ob = 0;
            }
        }
        self.current_pos = start + done as u64;
        proof {
            if decode_spec(src) is Ok {
                let whole = decode_spec(src)->Ok_0;
                assert forall|k: int| 0 <= k < done implies buf@[k] == whole[start + k] by {
                    lemma_stream_byte(h, src, start + k);
                    assert(block_result(h, src, block_of(h, start + k)) is Ok);
                }
                lemma_stream_byte(h, src, start as int);
                assert(buf@.take(done as int) =~= whole.subrange(start as int, start + done));
            }
        }
        Ok(done)
    }
}

/// Copies `count` bytes of `from`, starting at `start`, over the bytes of
/// `buf` that start at `at`.
pub fn copy_into(buf: &mut Vec<u8>, at: usize, from: &Vec<u8>, start: usize, count: usize)
    requires
        at + count <= old(buf)@.len(),
        start + count <= from@.len(),
    ensures
        final(buf)@.len() == old(buf)@.len(),
        forall|k: int| 0 <= k < at ==> final(buf)@[k] == old(buf)@[k],
        forall|k: int| at <= k < at + count ==> final(buf)@[k] == from@[start + (k - at)],
        forall|k: int| at + count <= k < old(buf)@.len() ==> final(buf)@[k] == old(buf)@[k],
{
    let buf_len: usize = buf.len();
    let from_len: usize = from.len();
    let mut j: usize = 0;
    while j < count
        invariant
            j <= count,
            at + count <= buf@.len() == buf_len,
            start + count <= from@.len() == from_len,
            buf@.len() == old(buf)@.len(),
            forall|k: int| 0 <= k < at ==> buf@[k] == old(buf)@[k],
            forall|k: int| at <= k < at + j ==> buf@[k] == from@[start + (k - at)],
            forall|k: int| at + j <= k < buf@.len() ==> buf@[k] == old(buf)@[k],
        decreases count - j,
    {
        buf.set(at + j, from[start + j]);
        j += 1;
    }
}

} // verus!
