use vstd::prelude::*;
use vstd::arithmetic::div_mod::lemma_mod_multiples_basic;
use vstd::arithmetic::power2::{lemma2_to64, lemma_pow2_pos, lemma_pow2_strictly_increases, pow2};
use vstd::bits::lemma_u64_shl_is_mul;

verus! {

/// Bit 31 of an index entry: the block is stored as it is.
pub const PLAIN_FLAG: u32 = 0x8000_0000;

/// The low 31 bits of an index entry: the block's offset, shifted right by
/// the alignment exponent.
pub const OFFSET_MASK: u32 = 0x7fff_ffff;

/// The largest alignment exponent.
pub const MAX_ALIGN: u8 = 31;

/// Whether the packed word `raw` marks its block as stored uncompressed.
pub open spec fn plain_of(raw: u32) -> bool {
    raw & 0x8000_0000u32 != 0
}

/// The byte offset that the packed word `raw` stands for under the alignment
/// exponent `align`: the masked 31-bit field first, the shift second.
pub open spec fn offset_of(raw: u32, align: u8) -> u64 {
    ((raw & 0x7fff_ffffu32) as u64) << (align as u64)
}

/// The lowest `align` bits of `pos`: the remainder of `pos` by `2^align`.
pub open spec fn low_bits(pos: u64, align: u8) -> u64 {
    pos & !(0xffff_ffff_ffff_ffffu64 << (align as u64))
}

/// The packed word for a 31-bit offset field and a plain flag.
pub open spec fn entry_word(field: u32, plain: bool) -> u32 {
    if plain {
        field | 0x8000_0000u32
    } else {
        field
    }
}

/// One entry of a container's index: a plain flag and a shifted offset packed
/// into 32 bits.
#[derive(Clone, Copy, Debug, PartialEq, Eq, Structural)]
pub struct CisoIndex(pub u32);

impl CisoIndex {
    /// Packs an offset field of at most 31 bits and a plain flag into an
    /// entry.
    pub fn new(field: u32, plain: bool) -> (entry: CisoIndex)
        requires
            field <= OFFSET_MASK,
        ensures
            entry.0 == entry_word(field, plain),
            entry.0 & OFFSET_MASK == field,
            plain_of(entry.0) == plain,
            offset_of(entry.0, 0) == field,
    {
        proof {
            lemma_pack(field);
        }
        if plain {
            CisoIndex(field | PLAIN_FLAG)
        } else {
            CisoIndex(field)
        }
    }

    /// Whether the block of this entry is stored uncompressed.
    pub fn is_plain(&self) -> (plain: bool)
        ensures
            plain == plain_of(self.0),
    {
        self.0 & PLAIN_FLAG != 0
    }

    /// The byte offset in the container at which the block of this entry
    /// starts. It is a multiple of `2^align`: its lowest `align` bits are
    /// zero.
    pub fn get_read_pos(&self, align: u8) -> (pos: u64)
        requires
            align <= MAX_ALIGN,
        ensures
            pos == offset_of(self.0, align),
            pos == (self.0 & OFFSET_MASK) * pow2(align as nat),
            pos as int % pow2(align as nat) as int == 0,
            low_bits(pos, align) == 0,
            pos <= 0x3fff_ffff_8000_0000u64,
            align == 0 ==> pos == self.0 & OFFSET_MASK,
    {
        proof {
            lemma_offset_aligned(self.0, align);
        }
        let raw: u32 = self.0;
        let field: u32 = raw & OFFSET_MASK;
        let wide: u64 = field as u64;
        let shift: u64 = align as u64;
        assert(field <= 0x7fff_ffffu32) by (bit_vector)
            requires
                field == raw & 0x7fff_ffffu32,
        ;
        assert((wide << shift) & !(0xffff_ffff_ffff_ffffu64 << shift) == 0 && (wide << shift) <= 0x3fff_ffff_8000_0000u64
            && (shift == 0 ==> (wide << shift) == wide)) by (bit_vector)
            requires
                wide <= 0x7fff_ffffu64,
                shift <= 31u64,
        ;
        wide << shift
    }
}

/// Every offset that an index entry can stand for under the exponent `align`
/// is the 31-bit field times `2^align`, so a multiple of `2^align` (its
/// lowest `align` bits are zero), and under the exponent 0 it is the 31-bit
/// field itself.
pub proof fn lemma_offset_aligned(raw: u32, align: u8)
    requires
        align <= MAX_ALIGN,
    ensures
        offset_of(raw, align) == (raw & OFFSET_MASK) * pow2(align as nat),
        offset_of(raw, align) as int % pow2(align as nat) as int == 0,
        low_bits(offset_of(raw, align), align) == 0,
        offset_of(raw, align) <= 0x3fff_ffff_8000_0000u64,
        offset_of(raw, 0) == raw & OFFSET_MASK,
        (raw & OFFSET_MASK) <= 0x7fff_ffffu32,
{
    let field: u32 = raw & 0x7fff_ffffu32;
    let wide: u64 = field as u64;
    let shift: u64 = align as u64;
    assert(field <= 0x7fff_ffffu32) by (bit_vector)
        requires
            field == raw & 0x7fff_ffffu32,
    ;
    assert((wide << shift) & !(0xffff_ffff_ffff_ffffu64 << shift) == 0 && (wide << shift) <= 0x3fff_ffff_8000_0000u64) by (bit_vector)
        requires
            wide <= 0x7fff_ffffu64,
            shift <= 31u64,
    ;
    assert((wide << 0u64) == wide) by (bit_vector);
    lemma2_to64();
    lemma_pow2_pos(align as nat);
    if align < 31 {
        lemma_pow2_strictly_increases(align as nat, 31);
    }
    let factor = pow2(align as nat) as int;
    assert(wide * factor <= u64::MAX) by (nonlinear_arith)
        requires
            0 <= wide <= 0x7fff_ffff,
            0 < factor <= 0x8000_0000,
    ;
    lemma_u64_shl_is_mul(wide, shift);
    lemma_mod_multiples_basic(wide as int, factor);
}

/// A word with a clear flag bit and a value below `2^31` stands, under the
/// exponent 0, for that value and is not plain; with the flag bit set it
/// stands for the same value and is plain.
pub proof fn lemma_pack(value: u32)
    requires
        value <= OFFSET_MASK,
    ensures
        value & OFFSET_MASK == value,
        (value | PLAIN_FLAG) & OFFSET_MASK == value,
        offset_of(value, 0) == value,
        !plain_of(value),
        offset_of(value | PLAIN_FLAG, 0) == value,
        plain_of(value | PLAIN_FLAG),
{
    assert(value & 0x7fff_ffffu32 == value && value & 0x8000_0000u32 == 0
        && (value | 0x8000_0000u32) & 0x7fff_ffffu32 == value
        && (value | 0x8000_0000u32) & 0x8000_0000u32 != 0) by (bit_vector)
        requires
            value <= 0x7fff_ffffu32,
    ;
    assert(((value as u64) << 0u64) == value as u64) by (bit_vector);
}

} // verus!
