//! Frames on the wire: a 4-byte big-endian word whose top bit says that the
//! body is gzip-compressed and whose other 31 bits give the body's length,
//! followed by the body.
use std::io::Read;
use std::io::Write;
use vstd::prelude::*;
use vstd::slice::slice_subrange;
use vstd::slice::slice_to_vec;

use crate::error::KvError;

verus! {

/// Bytes in the length word.
pub const LEN_LEN: usize = 4;

/// Largest body, in bytes, that a frame may carry.
pub const MAX_FRAME: usize = 16 * 1024 * 1024;

/// Bodies of at least this many bytes are sent compressed.
pub const COMPRESSION_LIMIT: usize = 1400;

/// The top bit of the length word: the body is compressed.
pub const COMPRESSION_BIT: u32 = 0x8000_0000;

/// The other bits of the length word: the body's length.
pub const LEN_MASK: u32 = 0x7fff_ffff;

/// What the bytes `c` inflate to, read as a gzip stream: the first member,
/// with any bytes after it ignored; `None` where that member is invalid.
pub uninterp spec fn gunzip_of(c: Seq<u8>) -> Option<Seq<u8>>;

/// Relies on flate2's `read::GzDecoder` reading a slice to the end: the
/// inflated bytes of the first gzip member of `data`, or an error where it is
/// invalid.
#[verifier::external_body]
fn gunzip(data: &[u8]) -> (r: Option<Vec<u8>>)
    ensures
        r matches Some(v) ==> gunzip_of(data@) == Some(v@),
        r is None ==> gunzip_of(data@) is None,
{
    let mut out = Vec::new();
    match flate2::read::GzDecoder::new(data).read_to_end(&mut out) {
        Ok(_) => Some(out),
        Err(_) => None,
    }
}

/// What flate2's `GzEncoder` at the default level writes for `data`. The
/// header it writes is fixed (no time stamp, no name, operating system 255),
/// so the bytes depend on `data` alone.
pub uninterp spec fn gzip_of(data: Seq<u8>) -> Seq<u8>;

/// Relies on flate2's `write::GzEncoder` writing into a `Vec`: the gzip
/// stream of `data`, which inflates back to `data`; `None` where the encoder
/// reports an error.
#[verifier::external_body]
fn gzip(data: &[u8]) -> (r: Option<Vec<u8>>)
    ensures
        r matches Some(c) ==> c@ == gzip_of(data@) && gunzip_of(c@) == Some(data@),
{
    let mut encoder = flate2::write::GzEncoder::new(Vec::new(), flate2::Compression::default());
    match encoder.write_all(data) {
        Ok(()) => encoder.finish().ok(),
        Err(_) => None,
    }
}

/// The big-endian bytes of a word.
pub open spec fn word_bytes(v: u32) -> Seq<u8> {
    seq![(v >> 24u32) as u8, (v >> 16u32) as u8, (v >> 8u32) as u8, v as u8]
}

/// The word that four big-endian bytes spell.
pub open spec fn bytes_word(b0: u8, b1: u8, b2: u8, b3: u8) -> u32 {
    ((b0 as u32) << 24u32) | ((b1 as u32) << 16u32) | ((b2 as u32) << 8u32) | (b3 as u32)
}

/// The length word at the front of `b` (which holds at least four bytes).
pub open spec fn header_word(b: Seq<u8>) -> u32 {
    bytes_word(b[0], b[1], b[2], b[3])
}

/// The body length that the front of `b` declares.
pub open spec fn declared_len(b: Seq<u8>) -> int {
    (header_word(b) & LEN_MASK) as int
}

/// Whether the front of `b` declares a compressed body.
pub open spec fn declared_packed(b: Seq<u8>) -> bool {
    header_word(b) & COMPRESSION_BIT != 0
}

/// A frame carrying `p` as it stands.
pub open spec fn plain_frame(p: Seq<u8>) -> Seq<u8> {
    word_bytes(p.len() as u32) + p
}

/// A frame carrying the compressed body `c`.
pub open spec fn packed_frame(c: Seq<u8>) -> Seq<u8> {
    word_bytes((c.len() as u32) | COMPRESSION_BIT) + c
}

/// `f` is one well-formed frame whose body reads back as `p`.
pub open spec fn is_frame_of(f: Seq<u8>, p: Seq<u8>) -> bool {
    ||| (p.len() <= MAX_FRAME && f == plain_frame(p))
    ||| exists|c: Seq<u8>|
        c.len() <= MAX_FRAME && gunzip_of(c) == Some(p) && f == #[trigger] packed_frame(c)
}

/// `f` is the frame that the encoder sends for `p`: uncompressed below the
/// compression limit.
pub open spec fn encodes(f: Seq<u8>, p: Seq<u8>) -> bool {
    &&& is_frame_of(f, p)
    &&& p.len() < COMPRESSION_LIMIT ==> f == plain_frame(p)
}

/// What the front of a read buffer holds.
pub enum FrameView {
    /// Not yet a whole frame: more bytes are needed.
    Incomplete,
    /// The length word declares more than the maximum.
    TooLarge,
    /// The body is marked compressed but does not inflate.
    Corrupt,
    /// A whole frame of the given size, whose body reads back as the bytes.
    Complete(Seq<u8>, int),
}

/// What the front of `b` holds, read as a frame.
pub open spec fn frame_view(b: Seq<u8>) -> FrameView {
    if b.len() < LEN_LEN {
        FrameView::Incomplete
    } else if declared_len(b) > MAX_FRAME {
        FrameView::TooLarge
    } else if b.len() < LEN_LEN + declared_len(b) {
        FrameView::Incomplete
    } else {
        let body = b.subrange(LEN_LEN as int, LEN_LEN + declared_len(b));
        if !declared_packed(b) {
            FrameView::Complete(body, LEN_LEN + declared_len(b))
        } else {
            match gunzip_of(body) {
                Some(p) => FrameView::Complete(p, LEN_LEN + declared_len(b)),
                None => FrameView::Corrupt,
            }
        }
    }
}

/// What a call of `decode_frame` returned, as a `FrameView`.
pub open spec fn decoded_view(r: Result<Option<(Vec<u8>, usize)>, KvError>) -> FrameView {
    match r {
        Ok(None) => FrameView::Incomplete,
        Ok(Some((p, n))) => FrameView::Complete(p@, n as int),
        Err(KvError::FrameTooLarge) => FrameView::TooLarge,
        Err(_) => FrameView::Corrupt,
    }
}

proof fn lemma_word_round_trip(v: u32)
    ensures
        bytes_word((v >> 24u32) as u8, (v >> 16u32) as u8, (v >> 8u32) as u8, v as u8) == v,
{
    assert(((((v >> 24u32) as u8) as u32) << 24u32) | ((((v >> 16u32) as u8) as u32) << 16u32)
        | ((((v >> 8u32) as u8) as u32) << 8u32) | ((v as u8) as u32) == v) by (bit_vector);
}

proof fn lemma_plain_word(n: u32)
    requires
        n <= LEN_MASK,
    ensures
        n & LEN_MASK == n,
        n & COMPRESSION_BIT == 0,
{
    assert(n & 0x7fff_ffffu32 == n && n & 0x8000_0000u32 == 0) by (bit_vector)
        requires
            n <= 0x7fff_ffffu32,
    ;
}

proof fn lemma_packed_word(n: u32)
    requires
        n <= LEN_MASK,
    ensures
        (n | COMPRESSION_BIT) & LEN_MASK == n,
        (n | COMPRESSION_BIT) & COMPRESSION_BIT != 0,
{
    assert((n | 0x8000_0000u32) & 0x7fff_ffffu32 == n && (n | 0x8000_0000u32) & 0x8000_0000u32
        != 0) by (bit_vector)
        requires
            n <= 0x7fff_ffffu32,
    ;
}

/// A frame, followed by any bytes, reads back as the body it was made from,
/// and reports its own size: decoding undoes encoding, compressed or not.
pub proof fn lemma_frame_round_trip(f: Seq<u8>, p: Seq<u8>, rest: Seq<u8>)
    requires
        is_frame_of(f, p),
    ensures
        frame_view(f + rest) == FrameView::Complete(p, f.len() as int),
{
    let b = f + rest;
    if p.len() <= MAX_FRAME && f == plain_frame(p) {
        let n = p.len() as u32;
        lemma_word_round_trip(n);
        lemma_plain_word(n);
        assert(header_word(b) == n);
        assert(b.subrange(4, 4 + p.len() as int) =~= p);
    } else {
        let c = choose|c: Seq<u8>|
            c.len() <= MAX_FRAME && gunzip_of(c) == Some(p) && f == #[trigger] packed_frame(c);
        let n = c.len() as u32;
        lemma_word_round_trip(n | COMPRESSION_BIT);
        lemma_packed_word(n);
        assert(header_word(b) == n | COMPRESSION_BIT);
        assert(b.subrange(4, 4 + c.len() as int) =~= c);
    }
}

/// A strict prefix of a frame is never mistaken for a frame, nor for an
/// error: a reader fed a frame in pieces keeps waiting until the last byte.
pub proof fn lemma_prefix_incomplete(f: Seq<u8>, p: Seq<u8>, k: int)
    requires
        is_frame_of(f, p),
        0 <= k < f.len(),
    ensures
        frame_view(f.subrange(0, k)) == FrameView::Incomplete,
{
    lemma_frame_round_trip(f, p, Seq::empty());
    assert(f + Seq::<u8>::empty() =~= f);
    let b = f.subrange(0, k);
    if k >= LEN_LEN {
        assert(header_word(b) == header_word(f));
    }
}

/// A length word that declares more than the maximum is refused as soon as
/// the word itself has arrived, whatever follows it.
pub proof fn lemma_oversized_refused(b: Seq<u8>)
    requires
        b.len() >= LEN_LEN,
        declared_len(b) > MAX_FRAME,
    ensures
        forall|rest: Seq<u8>| #[trigger] frame_view(b.subrange(0, 4) + rest) == FrameView::TooLarge,
{
    assert forall|rest: Seq<u8>| #[trigger] frame_view(b.subrange(0, 4) + rest) == FrameView::TooLarge by {
        let c = b.subrange(0, 4) + rest;
        assert(header_word(c) == header_word(b));
    }
}

fn push_word(out: &mut Vec<u8>, v: u32)
    ensures
        final(out)@ == old(out)@ + word_bytes(v),
{
    out.push((v >> 24u32) as u8);
    out.push((v >> 16u32) as u8);
    out.push((v >> 8u32) as u8);
    out.push(v as u8);
    assert(final(out)@ =~= old(out)@ + word_bytes(v));
}

fn push_bytes(out: &mut Vec<u8>, b: &[u8])
    ensures
        final(out)@ == old(out)@ + b@,
{
    let mut i: usize = 0;
    while i < b.len()
        invariant
            i <= b@.len(),
            out@ == old(out)@ + b@.subrange(0, i as int),
        decreases b@.len() - i,
    {
        out.push(b[i]);
        i = i + 1;
        assert(out@ =~= old(out)@ + b@.subrange(0, i as int));
    }
    assert(b@.subrange(0, i as int) =~= b@);
}

/// The frame sent for `payload` when compression gave `compressed`: the
/// compressed body where the payload is at least `COMPRESSION_LIMIT` bytes
/// and the compressed body fits, the payload as it stands otherwise.
pub open spec fn chosen_frame(payload: Seq<u8>, compressed: Option<Seq<u8>>) -> Seq<u8> {
    match compressed {
        Some(c) => if payload.len() >= COMPRESSION_LIMIT && c.len() <= MAX_FRAME {
            packed_frame(c)
        } else {
            plain_frame(payload)
        },
        None => plain_frame(payload),
    }
}

/// The compressed body, as a view.
pub open spec fn compressed_view(c: Option<Vec<u8>>) -> Option<Seq<u8>> {
    match c {
        Some(v) => Some(v@),
        None => None,
    }
}

/// Appends to `out` the frame for `payload`, given what compressing it gave
/// (`None` where it was not compressed or compression failed). A payload
/// above `MAX_FRAME` is refused and `out` is left as it was.
pub fn encode_frame_with(payload: &[u8], compressed: Option<Vec<u8>>, out: &mut Vec<u8>) -> (r:
    Result<(), KvError>)
    requires
        compressed matches Some(c) ==> gunzip_of(c@) == Some(payload@),
    ensures
        payload@.len() > MAX_FRAME ==> r == Err::<(), KvError>(KvError::FrameTooLarge) && final(out)@
            == old(out)@,
        payload@.len() <= MAX_FRAME ==> r is Ok && final(out)@ == old(out)@ + chosen_frame(
            payload@,
            compressed_view(compressed),
        ) && encodes(chosen_frame(payload@, compressed_view(compressed)), payload@),
{
    if payload.len() > MAX_FRAME {
        return Err(KvError::FrameTooLarge);
    }
    if payload.len() >= COMPRESSION_LIMIT {
        if let Some(c) = compressed {
            if c.len() <= MAX_FRAME {
                let ghost f = packed_frame(c@);
                push_word(out, (c.len() as u32) | COMPRESSION_BIT);
                push_bytes(out, c.as_slice());
                assert(final(out)@ =~= old(out)@ + f);
                assert(encodes(f, payload@));
                return Ok(());
            }
        }
    }
    push_word(out, payload.len() as u32);
    push_bytes(out, payload);
    assert(final(out)@ =~= old(out)@ + plain_frame(payload@));
    assert(encodes(plain_frame(payload@), payload@));
    Ok(())
}

/// Appends one frame carrying `payload` to `out`: the gzip of the payload
/// when it is at least `COMPRESSION_LIMIT` bytes and the compressed form
/// fits, the payload as it stands otherwise (below the limit, or where
/// compression failed). A payload above `MAX_FRAME` is refused and `out` is
/// left as it was.
pub fn encode_frame(payload: &[u8], out: &mut Vec<u8>) -> (r: Result<(), KvError>)
    ensures
        payload@.len() > MAX_FRAME ==> r == Err::<(), KvError>(KvError::FrameTooLarge) && final(out)@
            == old(out)@,
        payload@.len() <= MAX_FRAME ==> r is Ok && exists|f: Seq<u8>|
            encodes(f, payload@) && final(out)@ == old(out)@ + f,
        payload@.len() <= MAX_FRAME ==> final(out)@ == old(out)@ + chosen_frame(
            payload@,
            Some(gzip_of(payload@)),
        ) || final(out)@ == old(out)@ + plain_frame(payload@),
{
    let compressed = if payload.len() >= COMPRESSION_LIMIT && payload.len() <= MAX_FRAME {
        gzip(payload)
    } else {
        None
    };
    let ghost cv = compressed_view(compressed);
    let r = encode_frame_with(payload, compressed, out);
    proof {
        if payload@.len() <= MAX_FRAME {
            assert(encodes(chosen_frame(payload@, cv), payload@));
        }
    }
    r
}

/// Reads one frame from the front of `buf`. `Ok(None)` means that `buf`
/// does not yet hold a whole frame; `Ok(Some((p, n)))` gives the body `p`,
/// inflated where it was compressed, and the frame's size `n`. A declared
/// length above `MAX_FRAME` is refused before any of the body is read.
pub fn decode_frame(buf: &[u8]) -> (r: Result<Option<(Vec<u8>, usize)>, KvError>)
    ensures
        decoded_view(r) == frame_view(buf@),
        r matches Err(e) ==> (e == KvError::FrameTooLarge || e is FrameCorrupt),
{
    if buf.len() < LEN_LEN {
        return Ok(None);
    }
    let word = ((buf[0] as u32) << 24u32) | ((buf[1] as u32) << 16u32) | ((buf[2] as u32) << 8u32)
        | (buf[3] as u32);
    assert(word == header_word(buf@));
    let len = (word & LEN_MASK) as usize;
    if len > MAX_FRAME {
        return Err(KvError::FrameTooLarge);
    }
    if buf.len() - LEN_LEN < len {
        return Ok(None);
    }
    let body = slice_subrange(buf, LEN_LEN, LEN_LEN + len);
    if word & COMPRESSION_BIT == 0 {
        Ok(Some((slice_to_vec(body), LEN_LEN + len)))
    } else {
        match gunzip(body) {
            Some(p) => Ok(Some((p, LEN_LEN + len))),
            None => Err(KvError::FrameCorrupt("compressed body does not inflate".to_string())),
        }
    }
}

} // verus!
