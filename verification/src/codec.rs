use vstd::prelude::*;

verus! {

/// What inflating the raw deflate stream `input` into a zeroed buffer of
/// `cap` bytes gives: the buffer afterwards and the number of bytes written
/// to it, or `None` where the stream is corrupt.
pub uninterp spec fn raw_inflate(input: Seq<u8>, cap: nat) -> Option<(Seq<u8>, u64)>;

/// What deflating `data` at `level` into a zeroed buffer of `cap` bytes
/// gives: the buffer afterwards, the number of bytes written to it, and
/// whether the stream was finished within the buffer; `None` where the
/// deflater reports an error.
pub uninterp spec fn raw_deflate(data: Seq<u8>, level: u8, cap: nat) -> Option<(Seq<u8>, u64, bool)>;

/// Calls `flate2::Decompress::new(false)`, then `decompress` once with
/// `FlushDecompress::Finish` on a fresh zeroed buffer of `cap` bytes, then
/// `total_out`.
///
/// Believed, not proved: the outcome is a function of `input` and `cap`
/// alone; the buffer keeps its length; no more bytes are reported than the
/// buffer holds.
#[verifier::external_body]
pub(crate) fn inflate(input: &[u8], cap: usize) -> (r: Option<(Vec<u8>, u64)>)
    ensures
        match r {
            Some((out, n)) => raw_inflate(input@, cap as nat) == Some((out@, n))
                && out@.len() == cap && n <= cap,
            None => raw_inflate(input@, cap as nat) == None::<(Seq<u8>, u64)>,
        },
{
    let mut out = vec![0u8; cap];
    let mut stream = flate2::Decompress::new(false);
    match stream.decompress(input, &mut out, flate2::FlushDecompress::Finish) {
        Ok(_) => Some((out, stream.total_out())),
        Err(_) => None,
    }
}

/// Calls `flate2::Compress::new(Compression::new(level), false)`, then
/// `compress` once with `FlushCompress::Finish` on a fresh zeroed buffer of
/// `cap` bytes, then `total_out`. The flag is `true` where `compress`
/// returned `Status::StreamEnd`.
///
/// Believed, not proved: the outcome is a function of `data`, `level` and
/// `cap` alone; the buffer keeps its length; no more bytes are reported than
/// the buffer holds; and deflate is lossless: where the stream was finished,
/// inflating exactly the bytes written into a buffer as long as `data` gives
/// `data` back and reports its length.
#[verifier::external_body]
pub(crate) fn deflate(data: &[u8], level: u8, cap: usize) -> (r: Option<(Vec<u8>, u64, bool)>)
    requires
        level <= 9,
    ensures
        match r {
            Some((out, n, done)) => raw_deflate(data@, level, cap as nat) == Some((out@, n, done))
                && out@.len() == cap && n <= cap && (done && data@.len() > 0 ==> raw_inflate(
                out@.take(n as int),
                data@.len(),
            ) == Some((data@, data@.len() as u64))),
            None => raw_deflate(data@, level, cap as nat) == None::<(Seq<u8>, u64, bool)>,
        },
{
    let mut out = vec![0u8; cap];
    let mut stream = flate2::Compress::new(flate2::Compression::new(level as u32), false);
    match stream.compress(data, &mut out, flate2::FlushCompress::Finish) {
        Ok(status) => Some((out, stream.total_out(), status == flate2::Status::StreamEnd)),
        Err(_) => None,
    }
}

} // verus!
