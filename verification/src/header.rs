use vstd::prelude::*;
use vstd::bytes::{
    lemma_auto_spec_u32_to_from_le_bytes, lemma_auto_spec_u64_to_from_le_bytes,
    spec_u32_from_le_bytes, spec_u32_to_le_bytes, spec_u64_from_le_bytes, spec_u64_to_le_bytes,
    u32_from_le_bytes, u32_to_le_bytes, u64_from_le_bytes, u64_to_le_bytes,
};
use vstd::slice::slice_subrange;
use crate::error::CisoError;
use crate::index::{offset_of, plain_of, CisoIndex, MAX_ALIGN};

verus! {

/// Length in bytes of the fixed part of a header, before the index.
pub const PREAMBLE_LEN: usize = 24;

/// The header of a container: its geometry and the index of its blocks.
#[derive(Clone, Debug, PartialEq, Eq)]
pub struct CisoHeader {
    pub header_size: u32,
    pub total_bytes: u64,
    pub block_size: u32,
    pub ver: u8,
    pub align: u8,
    pub rsv_06: u8,
    pub rsv_07: u8,
    pub index_buff: Vec<CisoIndex>,
}

/// A header as a mathematical value.
pub struct HeaderView {
    pub header_size: u32,
    pub total_bytes: u64,
    pub block_size: u32,
    pub ver: u8,
    pub align: u8,
    pub rsv_06: u8,
    pub rsv_07: u8,
    pub index: Seq<CisoIndex>,
}

impl HeaderView {
    /// Number of blocks of the wrapped stream.
    pub open spec fn block_count(self) -> int {
        self.total_bytes as int / self.block_size as int
    }

    /// The geometry is usable and the index has one entry per block and one
    /// more for the end of the last block.
    pub open spec fn wf(self) -> bool {
        &&& self.block_size > 0
        &&& self.total_bytes as int % self.block_size as int == 0
        &&& self.align <= MAX_ALIGN
        &&& self.index.len() == self.block_count() + 1
    }

    /// Byte offset in the container that entry `i` stands for.
    pub open spec fn offset(self, i: int) -> int {
        offset_of(self.index[i].0, self.align) as int
    }

    /// Whether entry `i` marks its block as stored uncompressed.
    pub open spec fn plain(self, i: int) -> bool {
        plain_of(self.index[i].0)
    }

    /// Length in bytes of the header when written out.
    pub open spec fn encoded_len(self) -> int {
        24 + 4 * (self.index.len() as int)
    }
}

impl View for CisoHeader {
    type V = HeaderView;

    open spec fn view(&self) -> HeaderView {
        HeaderView {
            header_size: self.header_size,
            total_bytes: self.total_bytes,
            block_size: self.block_size,
            ver: self.ver,
            align: self.align,
            rsv_06: self.rsv_06,
            rsv_07: self.rsv_07,
            index: self.index_buff@,
        }
    }
}

/// The 24 bytes of the fixed part of a header.
pub open spec fn preamble_bytes(h: HeaderView) -> Seq<u8> {
    seq![0x43u8, 0x49u8, 0x53u8, 0x4fu8] + spec_u32_to_le_bytes(h.header_size)
        + spec_u64_to_le_bytes(h.total_bytes) + spec_u32_to_le_bytes(h.block_size)
        + seq![h.ver, h.align, h.rsv_06, h.rsv_07]
}

/// The index written out: four little-endian bytes per entry.
pub open spec fn index_bytes(index: Seq<CisoIndex>) -> Seq<u8> {
    Seq::new((4 * index.len()) as nat, |k: int| spec_u32_to_le_bytes(index[k / 4].0)[k % 4])
}

/// The bytes of a header: the fixed part, then the index.
pub open spec fn serialize_spec(h: HeaderView) -> Seq<u8> {
    preamble_bytes(h) + index_bytes(h.index)
}

/// Entry `i` of the index that starts at byte 24 of `bytes`.
pub open spec fn index_at(bytes: Seq<u8>, i: int) -> CisoIndex {
    CisoIndex(spec_u32_from_le_bytes(bytes.subrange(24 + 4 * i, 28 + 4 * i)))
}

/// The geometry fields that the fixed part of `bytes` holds, with an empty
/// index.
pub open spec fn preamble_of(bytes: Seq<u8>) -> HeaderView {
    HeaderView {
        header_size: spec_u32_from_le_bytes(bytes.subrange(4, 8)),
        total_bytes: spec_u64_from_le_bytes(bytes.subrange(8, 16)),
        block_size: spec_u32_from_le_bytes(bytes.subrange(16, 20)),
        ver: bytes[20],
        align: bytes[21],
        rsv_06: bytes[22],
        rsv_07: bytes[23],
        index: Seq::empty(),
    }
}

/// What parsing the start of `bytes` as a header gives.
///
/// A header needs 24 bytes that start with the tag `CISO`, a non-zero block
/// size that divides the stream length, an alignment exponent of at most 31,
/// and then one index entry per block and one more.
pub open spec fn parse_spec(bytes: Seq<u8>) -> Result<HeaderView, CisoError> {
    let p = preamble_of(bytes);
    if bytes.len() < 24 {
        Err(CisoError::Format)
    } else if !(bytes[0] == 0x43 && bytes[1] == 0x49 && bytes[2] == 0x53 && bytes[3] == 0x4f) {
        Err(CisoError::Format)
    } else if p.block_size == 0 || p.total_bytes as int % p.block_size as int != 0 || p.align
        > MAX_ALIGN {
        Err(CisoError::Geometry)
    } else if bytes.len() < 24 + 4 * (p.block_count() + 1) {
        Err(CisoError::Format)
    } else {
        Ok(
            HeaderView {
                index: Seq::new((p.block_count() + 1) as nat, |i: int| index_at(bytes, i)),
                ..p
            },
        )
    }
}

impl CisoHeader {
    /// The geometry is usable and the index has one entry per block and one
    /// more.
    pub open spec fn wf(&self) -> bool {
        self@.wf()
    }

    /// Writes the header out: the fixed part, then the index, all integers
    /// little-endian.
    pub fn to_bytes(&self) -> (out: Vec<u8>)
        ensures
            out@ == serialize_spec(self@),
            out@.len() == self@.encoded_len(),
    {
        proof {
            lemma_auto_spec_u32_to_from_le_bytes();
            lemma_auto_spec_u64_to_from_le_bytes();
        }
        let mut out: Vec<u8> = Vec::new();
        out.push(0x43u8);
        out.push(0x49u8);
        out.push(0x53u8);
        out.push(0x4fu8);
        let mut field = u32_to_le_bytes(self.header_size);
        out.append(&mut field);
        let mut field = u64_to_le_bytes(self.total_bytes);
        out.append(&mut field);
        let mut field = u32_to_le_bytes(self.block_size);
        out.append(&mut field);
        out.push(self.ver);
        out.push(self.align);
        out.push(self.rsv_06);
        out.push(self.rsv_07);
        assert(out@ =~= preamble_bytes(self@));
        let mut i: usize = 0;
        while i < self.index_buff.len()
            invariant
                i <= self.index_buff@.len(),
                out@ =~= preamble_bytes(self@) + index_bytes(self.index_buff@.take(i as int)),
                out@.len() == 24 + 4 * i,
            decreases self.index_buff@.len() - i,
        {
            let mut word = u32_to_le_bytes(self.index_buff[i].0);
            proof {
                lemma_index_bytes_push(self.index_buff@.take(i as int), self.index_buff@[i as int]);
                assert(self.index_buff@.take(i as int).push(self.index_buff@[i as int])
                    =~= self.index_buff@.take(i + 1));
            }
            out.append(&mut word);
            i += 1;
        }
        assert(self.index_buff@.take(i as int) =~= self.index_buff@);
        out
    }

    /// Parses a header from the start of `data`.
    pub fn from_bytes(data: &[u8]) -> (r: Result<CisoHeader, CisoError>)
        ensures
            match r {
                Ok(h) => parse_spec(data@) == Ok::<HeaderView, CisoError>(h@) && h.wf()
                    && h@.encoded_len() <= data@.len(),
                Err(e) => parse_spec(data@) == Err::<HeaderView, CisoError>(e),
            },
    {
        if data.len() < PREAMBLE_LEN {
            return Err(CisoError::Format);
        }
        if !(data[0] == 0x43u8 && data[1] == 0x49u8 && data[2] == 0x53u8 && data[3] == 0x4fu8) {
            return Err(CisoError::Format);
        }
        let header_size = u32_from_le_bytes(slice_subrange(data, 4, 8));
        let total_bytes = u64_from_le_bytes(slice_subrange(data, 8, 16));
        let block_size = u32_from_le_bytes(slice_subrange(data, 16, 20));
        let ver = data[20];
        let align = data[21];
        let rsv_06 = data[22];
        let rsv_07 = data[23];
        if block_size == 0 || total_bytes % (block_size as u64) != 0 || align > MAX_ALIGN {
            return Err(CisoError::Geometry);
        }
        let blocks: u64 = total_bytes / (block_size as u64);
        let room: usize = (data.len() - PREAMBLE_LEN) / 4;
        if blocks >= room as u64 {
            return Err(CisoError::Format);
        }
        let count: usize = blocks as usize + 1;
        let mut index_buff: Vec<CisoIndex> = Vec::new();
        let mut i: usize = 0;
        while i < count
            invariant
                i <= count,
                24 + 4 * count <= data@.len() <= usize::MAX,
                index_buff@.len() == i,
                forall|j: int| 0 <= j < i ==> index_buff@[j] == index_at(data@, j),
            decreases count - i,
        {
            let at: usize = PREAMBLE_LEN + 4 * i;
            let word = u32_from_le_bytes(slice_subrange(data, at, at + 4));
            index_buff.push(CisoIndex(word));
            i += 1;
        }
        let h = CisoHeader { header_size, total_bytes, block_size, ver, align, rsv_06, rsv_07, index_buff };
        assert(h@.index =~= Seq::new(
            (preamble_of(data@).block_count() + 1) as nat,
            |i: int| index_at(data@, i),
        ));
        Ok(h)
    }
}

/// Writing one more entry appends its four bytes.
pub proof fn lemma_index_bytes_push(index: Seq<CisoIndex>, entry: CisoIndex)
    ensures
        index_bytes(index.push(entry)) =~= index_bytes(index) + spec_u32_to_le_bytes(entry.0),
{
    lemma_auto_spec_u32_to_from_le_bytes();
}

/// A header that is written out and parsed again is the same header.
pub proof fn lemma_parse_serialize(h: HeaderView)
    requires
        h.wf(),
    ensures
        parse_spec(serialize_spec(h)) == Ok::<HeaderView, CisoError>(h),
{
    lemma_parse_serialize_prefix(h, Seq::empty());
    assert(serialize_spec(h) + Seq::<u8>::empty() =~= serialize_spec(h));
}

/// The bytes that a header was parsed from are the bytes that it is written
/// out as.
pub proof fn lemma_serialize_parse(bytes: Seq<u8>)
    requires
        parse_spec(bytes) is Ok,
    ensures
        parse_spec(bytes)->Ok_0.wf(),
        parse_spec(bytes)->Ok_0.encoded_len() <= bytes.len(),
        serialize_spec(parse_spec(bytes)->Ok_0) == bytes.take(parse_spec(bytes)->Ok_0.encoded_len()),
{
    lemma_auto_spec_u32_to_from_le_bytes();
    lemma_auto_spec_u64_to_from_le_bytes();
    let h = parse_spec(bytes)->Ok_0;
    let out = serialize_spec(h);
    assert(spec_u32_to_le_bytes(h.header_size) == bytes.subrange(4, 8));
    assert(spec_u64_to_le_bytes(h.total_bytes) == bytes.subrange(8, 16));
    assert(spec_u32_to_le_bytes(h.block_size) == bytes.subrange(16, 20));
    assert forall|k: int| 0 <= k < 4 * h.index.len() implies index_bytes(h.index)[k] == bytes[24
        + k] by {
        let i = k / 4;
        assert(spec_u32_to_le_bytes(h.index[i].0) == bytes.subrange(24 + 4 * i, 28 + 4 * i));
        assert(bytes.subrange(24 + 4 * i, 28 + 4 * i)[k % 4] == bytes[24 + k]);
    }
    assert(out =~= bytes.take(h.encoded_len()));
}

/// Parsing reads the header only: bytes that follow it change nothing.
pub proof fn lemma_parse_serialize_prefix(h: HeaderView, rest: Seq<u8>)
    requires
        h.wf(),
    ensures
        parse_spec(serialize_spec(h) + rest) == Ok::<HeaderView, CisoError>(h),
{
    lemma_auto_spec_u32_to_from_le_bytes();
    lemma_auto_spec_u64_to_from_le_bytes();
    let bytes = serialize_spec(h) + rest;
    assert(bytes.len() >= 24 + 4 * h.index.len());
    assert(bytes.subrange(4, 8) =~= spec_u32_to_le_bytes(h.header_size));
    assert(bytes.subrange(8, 16) =~= spec_u64_to_le_bytes(h.total_bytes));
    assert(bytes.subrange(16, 20) =~= spec_u32_to_le_bytes(h.block_size));
    let p = preamble_of(bytes);
    assert(p.block_size == h.block_size);
    assert(p.total_bytes == h.total_bytes);
    assert(p.align == h.align);
    assert forall|i: int| 0 <= i < h.index.len() implies index_at(bytes, i) == h.index[i] by {
        assert(bytes.subrange(24 + 4 * i, 28 + 4 * i) =~= spec_u32_to_le_bytes(h.index[i].0));
    }
    assert(Seq::new((p.block_count() + 1) as nat, |i: int| index_at(bytes, i)) =~= h.index);
}

} // verus!
