use rciso::block::{accept_inflated, decode_block};
use rciso::encode::store_block;
use rciso::{comp_ciso, decomp_ciso, Ciso, CisoError, CisoHeader, CisoIndex, SeekFrom};

fn zeros(len: usize) -> Vec<u8> {
    vec![0u8; len]
}

fn noise(len: usize, seed: u64) -> Vec<u8> {
    let mut state = seed;
    let mut out = Vec::with_capacity(len);
    for _ in 0..len {
        state ^= state << 13;
        state ^= state >> 7;
        state ^= state << 17;
        out.push((state >> 24) as u8);
    }
    out
}

fn text(len: usize) -> Vec<u8> {
    let mut out = Vec::with_capacity(len);
    for i in 0..len {
        out.push(b"the quick brown fox "[i % 20] ^ ((i / 700) as u8));
    }
    out
}

/// A container of two 4-byte blocks: the first plain, the second a stored
/// deflate block.
fn small_container() -> Vec<u8> {
    let mut c = Vec::new();
    c.extend_from_slice(b"CISO");
    c.extend_from_slice(&0x18u32.to_le_bytes());
    c.extend_from_slice(&8u64.to_le_bytes());
    c.extend_from_slice(&4u32.to_le_bytes());
    c.extend_from_slice(&[1, 0, 0xaa, 0xbb]);
    c.extend_from_slice(&(36u32 | 0x8000_0000).to_le_bytes());
    c.extend_from_slice(&40u32.to_le_bytes());
    c.extend_from_slice(&49u32.to_le_bytes());
    c.extend_from_slice(&[1, 2, 3, 4]);
    c.extend_from_slice(&[0x01, 0x04, 0x00, 0xfb, 0xff, 5, 6, 7, 8]);
    c
}

#[test]
fn index_entry_flag_and_offset() {
    assert!(CisoIndex(0x8000_0003).is_plain());
    assert!(!CisoIndex(0x7fff_ffff).is_plain());
    assert_eq!(CisoIndex(0x8000_0003).get_read_pos(0), 3);
    assert_eq!(CisoIndex(0x8000_0003).get_read_pos(4), 48);
    assert_eq!(CisoIndex(0x7fff_ffff).get_read_pos(0), 0x7fff_ffff);
    assert_eq!(CisoIndex(0xffff_ffff).get_read_pos(31), 0x3fff_ffff_8000_0000);
}

#[test]
fn index_entry_shift_applies_to_the_masked_field() {
    // With the shift applied to the mask instead, this would be 0x1230 & 0xf0.
    assert_eq!(CisoIndex(0x0000_1234).get_read_pos(4), 0x1_2340);
    assert_eq!(CisoIndex(0x8000_1234).get_read_pos(4), 0x1_2340);
}

#[test]
fn index_entry_offsets_are_aligned() {
    for align in 0u8..=31 {
        for raw in [0u32, 1, 5, 0x1234_5678, 0x7fff_ffff, 0xffff_ffff, 0x8000_0001] {
            let pos = CisoIndex(raw).get_read_pos(align);
            assert_eq!(pos % (1u64 << align), 0);
            assert_eq!(pos, ((raw & 0x7fff_ffff) as u64) << align);
        }
    }
}

#[test]
fn index_entry_packs() {
    assert_eq!(CisoIndex::new(7, true), CisoIndex(0x8000_0007));
    assert_eq!(CisoIndex::new(7, false), CisoIndex(7));
    assert_eq!(CisoIndex::new(0x7fff_ffff, true), CisoIndex(0xffff_ffff));
}

#[test]
fn header_parses_fields_little_endian() {
    let h = CisoHeader::from_bytes(&small_container()).unwrap();
    assert_eq!(h.header_size, 0x18);
    assert_eq!(h.total_bytes, 8);
    assert_eq!(h.block_size, 4);
    assert_eq!(h.ver, 1);
    assert_eq!(h.align, 0);
    assert_eq!(h.rsv_06, 0xaa);
    assert_eq!(h.rsv_07, 0xbb);
    assert_eq!(h.index_buff, vec![CisoIndex(0x8000_0024), CisoIndex(40), CisoIndex(49)]);
}

#[test]
fn header_serializes_to_the_bytes_it_was_parsed_from() {
    let c = small_container();
    let h = CisoHeader::from_bytes(&c).unwrap();
    assert_eq!(h.to_bytes(), c[..36].to_vec());
    assert_eq!(CisoHeader::from_bytes(&h.to_bytes()).unwrap(), h);
}

#[test]
fn header_with_empty_stream_has_one_entry() {
    let mut c = Vec::new();
    c.extend_from_slice(b"CISO");
    c.extend_from_slice(&0u32.to_le_bytes());
    c.extend_from_slice(&0u64.to_le_bytes());
    c.extend_from_slice(&2048u32.to_le_bytes());
    c.extend_from_slice(&[1, 0, 0, 0]);
    c.extend_from_slice(&28u32.to_le_bytes());
    let h = CisoHeader::from_bytes(&c).unwrap();
    assert_eq!(h.index_buff, vec![CisoIndex(28)]);
    assert_eq!(decomp_ciso(&c), Ok(Vec::new()));
}

#[test]
fn header_rejects_bad_magic() {
    let mut c = small_container();
    c[0] = b'X';
    assert_eq!(CisoHeader::from_bytes(&c), Err(CisoError::Format));
    assert_eq!(decomp_ciso(&c), Err(CisoError::Format));
    assert!(matches!(Ciso::new(c), Err(CisoError::Format)));
}

#[test]
fn header_rejects_truncation() {
    let c = small_container();
    assert_eq!(CisoHeader::from_bytes(&c[..23]), Err(CisoError::Format));
    assert_eq!(CisoHeader::from_bytes(&c[..35]), Err(CisoError::Format));
    assert_eq!(CisoHeader::from_bytes(&[]), Err(CisoError::Format));
    assert!(CisoHeader::from_bytes(&c[..36]).is_ok());
}

#[test]
fn header_rejects_bad_geometry() {
    let mut zero_block = small_container();
    zero_block[16..20].copy_from_slice(&0u32.to_le_bytes());
    assert_eq!(CisoHeader::from_bytes(&zero_block), Err(CisoError::Geometry));
    let mut remainder = small_container();
    remainder[8..16].copy_from_slice(&9u64.to_le_bytes());
    assert_eq!(CisoHeader::from_bytes(&remainder), Err(CisoError::Geometry));
    let mut align = small_container();
    align[21] = 32;
    assert_eq!(CisoHeader::from_bytes(&align), Err(CisoError::Geometry));
}

#[test]
fn decode_small_container() {
    assert_eq!(decomp_ciso(&small_container()), Ok(vec![1, 2, 3, 4, 5, 6, 7, 8]));
}

#[test]
fn decode_block_by_block() {
    let c = small_container();
    let h = CisoHeader::from_bytes(&c).unwrap();
    assert_eq!(decode_block(&h, &c, 0), Ok(vec![1, 2, 3, 4]));
    assert_eq!(decode_block(&h, &c, 1), Ok(vec![5, 6, 7, 8]));
}

#[test]
fn decode_reports_block_past_the_end() {
    let mut c = small_container();
    c.truncate(48);
    assert_eq!(decomp_ciso(&c), Err(CisoError::Io));
    let mut plain_short = small_container();
    plain_short[24..28].copy_from_slice(&(60u32 | 0x8000_0000).to_le_bytes());
    assert_eq!(decomp_ciso(&plain_short), Err(CisoError::Io));
}

#[test]
fn decode_reports_corrupt_block() {
    let mut c = small_container();
    c[40] = 0x07;
    assert_eq!(decomp_ciso(&c), Err(CisoError::Decompress));
}

#[test]
fn decode_reports_short_inflate() {
    // A stored deflate block of three bytes where four are expected.
    let mut c = small_container();
    c.truncate(40);
    c.extend_from_slice(&[0x01, 0x03, 0x00, 0xfc, 0xff, 5, 6, 7]);
    c[32..36].copy_from_slice(&48u32.to_le_bytes());
    assert_eq!(decomp_ciso(&c), Err(CisoError::Decompress));
}

#[test]
fn decode_reports_index_running_backwards() {
    let mut c = small_container();
    c[32..36].copy_from_slice(&39u32.to_le_bytes());
    assert_eq!(decomp_ciso(&c), Err(CisoError::Format));
}

#[test]
fn inflater_outcome_is_judged_by_length() {
    assert_eq!(accept_inflated(Some((vec![1, 2, 3, 4], 4)), 4), Ok(vec![1, 2, 3, 4]));
    assert_eq!(accept_inflated(Some((vec![1, 2, 3, 0], 3)), 4), Err(CisoError::Decompress));
    assert_eq!(accept_inflated(None, 4), Err(CisoError::Decompress));
}

#[test]
fn deflater_outcome_is_kept_only_when_smaller() {
    let block = vec![9u8, 9, 9, 9];
    assert_eq!(
        store_block(Some((vec![1, 2, 3, 0, 0, 0, 0, 0], 3, true)), block.clone()),
        Ok((vec![1, 2, 3], false))
    );
    assert_eq!(
        store_block(Some((vec![1, 2, 3, 4, 0, 0, 0, 0], 4, true)), block.clone()),
        Ok((block.clone(), true))
    );
    assert_eq!(
        store_block(Some((vec![1, 2, 3, 0, 0, 0, 0, 0], 3, false)), block.clone()),
        Ok((block.clone(), true))
    );
    assert_eq!(store_block(None, block), Err(CisoError::Compress));
}

#[test]
fn encode_then_decode_gives_the_stream_back() {
    for level in 1u8..=9 {
        for raw in [zeros(4096), noise(6144, 0x9e37_79b9_7f4a_7c15), text(8192), Vec::new()] {
            let c = comp_ciso(&raw, level).unwrap();
            assert_eq!(decomp_ciso(&c), Ok(raw));
        }
    }
}

#[test]
fn encode_rejects_a_partial_block() {
    assert_eq!(comp_ciso(&zeros(2047), 5), Err(CisoError::Geometry));
    assert_eq!(comp_ciso(&zeros(2049), 5), Err(CisoError::Geometry));
    assert_eq!(comp_ciso(&zeros(1), 1), Err(CisoError::Geometry));
}

#[test]
fn encode_writes_the_fixed_geometry() {
    let c = comp_ciso(&zeros(4096), 6).unwrap();
    assert_eq!(&c[..4], b"CISO");
    let h = CisoHeader::from_bytes(&c).unwrap();
    assert_eq!(h.header_size, 0);
    assert_eq!(h.total_bytes, 4096);
    assert_eq!(h.block_size, 2048);
    assert_eq!(h.ver, 1);
    assert_eq!(h.align, 0);
    assert_eq!(h.index_buff.len(), 3);
    assert_eq!(h.index_buff[0].get_read_pos(0), 36);
    assert_eq!(h.index_buff[2].get_read_pos(0), c.len() as u64);
}

#[test]
fn encode_stores_noise_plain_and_zeros_deflated() {
    let mut raw = noise(2048, 0x1234_5678_9abc_def1);
    raw.extend_from_slice(&zeros(2048));
    let c = comp_ciso(&raw, 9).unwrap();
    let h = CisoHeader::from_bytes(&c).unwrap();
    let at = |i: usize| h.index_buff[i].get_read_pos(h.align);
    assert!(h.index_buff[0].is_plain());
    assert_eq!(at(1) - at(0), 2048);
    assert_eq!(&c[at(0) as usize..at(1) as usize], &raw[..2048]);
    assert!(!h.index_buff[1].is_plain());
    assert!(at(2) - at(1) < 2048);
    assert!(at(2) > at(1));
}

#[test]
fn encode_index_is_ordered() {
    let mut raw = text(4096);
    raw.extend_from_slice(&noise(4096, 77));
    raw.extend_from_slice(&zeros(2048));
    let c = comp_ciso(&raw, 3).unwrap();
    let h = CisoHeader::from_bytes(&c).unwrap();
    assert_eq!(h.index_buff.len(), 6);
    for i in 0..5 {
        let here = h.index_buff[i].get_read_pos(h.align);
        let next = h.index_buff[i + 1].get_read_pos(h.align);
        assert!(here <= next);
        if h.index_buff[i].is_plain() {
            assert_eq!(next - here, 2048);
        }
    }
}

#[test]
fn encode_header_parses_to_what_it_serializes() {
    let c = comp_ciso(&text(6144), 4).unwrap();
    let h = CisoHeader::from_bytes(&c).unwrap();
    let len = 24 + 4 * h.index_buff.len();
    assert_eq!(h.to_bytes(), c[..len].to_vec());
}

#[test]
fn reader_spans_a_block_boundary() {
    let raw = text(4096);
    let mut r = Ciso::new(comp_ciso(&raw, 6).unwrap()).unwrap();
    assert_eq!(r.seek(SeekFrom::Start(1000)), Ok(1000));
    let mut buf = vec![0u8; 2000];
    assert_eq!(r.read(&mut buf), Ok(2000));
    assert_eq!(buf, raw[1000..3000].to_vec());
    assert_eq!(r.stream_position(), 3000);
}

#[test]
fn reader_agrees_with_the_decoder() {
    let mut raw = text(4096);
    raw.extend_from_slice(&noise(4096, 5));
    let c = comp_ciso(&raw, 2).unwrap();
    let whole = decomp_ciso(&c).unwrap();
    let mut r = Ciso::new(c).unwrap();
    for (pos, len) in [(0usize, 0usize), (0, 1), (0, 8192), (2047, 2), (2048, 2048), (4095, 4097), (8191, 1), (8192, 0), (3, 6000)] {
        r.seek(SeekFrom::Start(pos as u64)).unwrap();
        let mut buf = vec![0xeeu8; len];
        assert_eq!(r.read(&mut buf), Ok(len));
        assert_eq!(buf, whole[pos..pos + len].to_vec());
    }
}

#[test]
fn reader_short_read_at_the_end() {
    let raw = text(4096);
    let mut r = Ciso::new(comp_ciso(&raw, 6).unwrap()).unwrap();
    r.seek(SeekFrom::End(-10)).unwrap();
    let mut buf = vec![0xeeu8; 30];
    assert_eq!(r.read(&mut buf), Ok(10));
    assert_eq!(&buf[..10], &raw[4086..]);
    assert_eq!(&buf[10..], &[0xeeu8; 20][..]);
    assert_eq!(r.read(&mut buf), Ok(0));
}

#[test]
fn reader_past_the_end_reads_nothing() {
    let mut r = Ciso::new(comp_ciso(&text(4096), 6).unwrap()).unwrap();
    assert_eq!(r.seek(SeekFrom::Start(5000)), Ok(5000));
    let mut buf = vec![7u8; 16];
    assert_eq!(r.read(&mut buf), Ok(0));
    assert_eq!(buf, vec![7u8; 16]);
    assert_eq!(r.seek(SeekFrom::End(0)), Ok(4096));
    assert_eq!(r.read(&mut buf), Ok(0));
}

#[test]
fn reader_seek_clamps_below_zero_only() {
    let mut r = Ciso::new(comp_ciso(&text(4096), 6).unwrap()).unwrap();
    assert_eq!(r.total_bytes(), 4096);
    assert_eq!(r.seek(SeekFrom::Current(-1)), Ok(0));
    assert_eq!(r.seek(SeekFrom::Current(100)), Ok(100));
    assert_eq!(r.seek(SeekFrom::Current(-40)), Ok(60));
    assert_eq!(r.seek(SeekFrom::End(-5000)), Ok(0));
    assert_eq!(r.seek(SeekFrom::End(-96)), Ok(4000));
    assert_eq!(r.seek(SeekFrom::End(904)), Ok(5000));
    assert_eq!(r.seek(SeekFrom::Start(u64::MAX)), Ok(u64::MAX));
    assert_eq!(r.seek(SeekFrom::Current(1)), Ok(u64::MAX));
}

#[test]
fn reader_read_block() {
    let c = small_container();
    let r = Ciso::new(c).unwrap();
    let mut buf = vec![0u8; 6];
    assert_eq!(r.read_block(&mut buf, 1), Ok(4));
    assert_eq!(buf, vec![5, 6, 7, 8, 0, 0]);
    let mut small = vec![0u8; 3];
    assert_eq!(r.read_block(&mut small, 0), Ok(3));
    assert_eq!(small, vec![1, 2, 3]);
    assert_eq!(r.read_block(&mut buf, 2), Ok(0));
    assert_eq!(r.read_block(&mut buf, usize::MAX), Ok(0));
    assert_eq!(buf, vec![5, 6, 7, 8, 0, 0]);
}

#[test]
fn reader_fails_on_a_corrupt_block_and_stays() {
    let mut c = small_container();
    c[40] = 0x07;
    let mut r = Ciso::new(c).unwrap();
    let mut buf = vec![0u8; 3];
    assert_eq!(r.read(&mut buf), Ok(3));
    assert_eq!(buf, vec![1, 2, 3]);
    let mut more = vec![0u8; 4];
    assert_eq!(r.read(&mut more), Err(CisoError::Decompress));
    assert_eq!(r.stream_position(), 3);
}

#[test]
fn error_messages_differ() {
    let all = [
        CisoError::Format,
        CisoError::Geometry,
        CisoError::Io,
        CisoError::Decompress,
        CisoError::Compress,
        CisoError::TooLarge,
    ];
    for (i, a) in all.iter().enumerate() {
        assert!(!a.message().is_empty());
        for b in &all[i + 1..] {
            assert_ne!(a.message(), b.message());
        }
    }
}

#[test]
fn decode_aligned_container() {
    // Alignment exponent 2: every block starts at a multiple of 4, and the
    // deflated block is followed by three bytes of padding.
    let mut c = Vec::new();
    c.extend_from_slice(b"CISO");
    c.extend_from_slice(&0x18u32.to_le_bytes());
    c.extend_from_slice(&8u64.to_le_bytes());
    c.extend_from_slice(&4u32.to_le_bytes());
    c.extend_from_slice(&[1, 2, 0, 0]);
    c.extend_from_slice(&(9u32 | 0x8000_0000).to_le_bytes());
    c.extend_from_slice(&10u32.to_le_bytes());
    c.extend_from_slice(&13u32.to_le_bytes());
    c.extend_from_slice(&[1, 2, 3, 4]);
    c.extend_from_slice(&[0x01, 0x04, 0x00, 0xfb, 0xff, 5, 6, 7, 8, 0, 0, 0]);
    let h = CisoHeader::from_bytes(&c).unwrap();
    assert_eq!(h.align, 2);
    assert_eq!(h.index_buff[0].get_read_pos(h.align), 36);
    assert_eq!(h.index_buff[1].get_read_pos(h.align), 40);
    assert_eq!(h.index_buff[2].get_read_pos(h.align), 52);
    assert_eq!(decomp_ciso(&c), Ok(vec![1, 2, 3, 4, 5, 6, 7, 8]));
    let mut r = Ciso::new(c).unwrap();
    r.seek(SeekFrom::Start(3)).unwrap();
    let mut buf = vec![0u8; 4];
    assert_eq!(r.read(&mut buf), Ok(4));
    assert_eq!(buf, vec![4, 5, 6, 7]);
}
