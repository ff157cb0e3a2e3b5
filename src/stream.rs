//! The state of a framed duplex stream: what has been read but not yet
//! decoded, what has been staged for writing, and how much of that has
//! already gone out. The transport itself is driven by the caller, which
//! reads at most `bytes_wanted` bytes at a time and writes `pending` bytes.
use vstd::prelude::*;
use vstd::slice::slice_subrange;
use vstd::string::StringExecFns;

use crate::error::KvError;
use crate::frame::{
    declared_len, decode_frame, encode_frame, encodes, frame_view, is_frame_of,
    lemma_frame_round_trip, lemma_prefix_incomplete, FrameView, LEN_LEN, MAX_FRAME,
};

verus! {

/// How many more bytes a reader holding `b` needs before the frame at its
/// front is whole: the rest of the length word, then the rest of the body.
/// Zero once the frame is whole or refused.
pub open spec fn wanted(b: Seq<u8>) -> int {
    if b.len() < LEN_LEN {
        LEN_LEN - b.len()
    } else if declared_len(b) > MAX_FRAME {
        0
    } else if b.len() < LEN_LEN + declared_len(b) {
        LEN_LEN + declared_len(b) - b.len()
    } else {
        0
    }
}

/// A framed stream over the transport `S`.
pub struct ProstStream<S> {
    /// The transport, which the caller reads and writes.
    pub stream: S,
    rbuf: Vec<u8>,
    wbuf: Vec<u8>,
    written: usize,
}

impl<S> ProstStream<S> {
    /// Bytes read and not yet decoded.
    pub closed spec fn read_buffer(&self) -> Seq<u8> {
        self.rbuf@
    }

    /// Bytes staged for writing, from the first one not yet acknowledged.
    pub closed spec fn write_buffer(&self) -> Seq<u8> {
        self.wbuf@
    }

    /// How many bytes of the write buffer have gone out.
    pub closed spec fn written(&self) -> nat {
        self.written as nat
    }

    /// The transport the stream was made over.
    pub closed spec fn transport(&self) -> S {
        self.stream
    }

    /// The cursor never passes the end of the write buffer.
    pub closed spec fn wf(&self) -> bool {
        self.written <= self.wbuf@.len()
    }

    /// A framed stream with empty buffers.
    pub fn new(stream: S) -> (r: Self)
        ensures
            r.wf(),
            r.transport() == stream,
            r.read_buffer() == Seq::<u8>::empty(),
            r.write_buffer() == Seq::<u8>::empty(),
            r.written() == 0,
    {
        ProstStream { stream, rbuf: Vec::new(), wbuf: Vec::new(), written: 0 }
    }

    /// How many bytes to read next; 0 when a frame is ready to decode.
    pub fn bytes_wanted(&self) -> (r: usize)
        ensures
            r == wanted(self.read_buffer()),
    {
        let n = self.rbuf.len();
        if n < LEN_LEN {
            return LEN_LEN - n;
        }
        let word = ((self.rbuf[0] as u32) << 24u32) | ((self.rbuf[1] as u32) << 16u32) | ((
        self.rbuf[2] as u32) << 8u32) | (self.rbuf[3] as u32);
        let len = (word & 0x7fff_ffffu32) as usize;
        if len > MAX_FRAME {
            0
        } else if n - LEN_LEN < len {
            LEN_LEN + len - n
        } else {
            0
        }
    }

    /// Appends bytes that the transport delivered.
    pub fn feed(&mut self, chunk: &[u8])
        ensures
            final(self).transport() == old(self).transport(),
            final(self).read_buffer() == old(self).read_buffer() + chunk@,
            final(self).write_buffer() == old(self).write_buffer(),
            final(self).written() == old(self).written(),
            old(self).wf() ==> final(self).wf(),
    {
        let mut i: usize = 0;
        while i < chunk.len()
            invariant
                i <= chunk@.len(),
                self.rbuf@ == old(self).rbuf@ + chunk@.subrange(0, i as int),
                self.wbuf == old(self).wbuf,
                self.written == old(self).written,
                self.stream == old(self).stream,
            decreases chunk@.len() - i,
        {
            self.rbuf.push(chunk[i]);
            i = i + 1;
            assert(self.rbuf@ =~= old(self).rbuf@ + chunk@.subrange(0, i as int));
        }
        assert(chunk@.subrange(0, i as int) =~= chunk@);
    }

    /// Takes the frame at the front of the read buffer, if it is whole:
    /// `Ok(Some(p))` gives its body and drops its bytes from the buffer;
    /// `Ok(None)` asks for more bytes and leaves the buffer as it was.
    pub fn next_frame(&mut self) -> (r: Result<Option<Vec<u8>>, KvError>)
        ensures
            final(self).transport() == old(self).transport(),
            final(self).write_buffer() == old(self).write_buffer(),
            final(self).written() == old(self).written(),
            old(self).wf() ==> final(self).wf(),
            match frame_view(old(self).read_buffer()) {
                FrameView::Incomplete => r matches Ok(None) && final(self).read_buffer() == old(
                    self,
                ).read_buffer(),
                FrameView::TooLarge => r == Err::<Option<Vec<u8>>, KvError>(KvError::FrameTooLarge),
                FrameView::Corrupt => r matches Err(KvError::FrameCorrupt(_)),
                FrameView::Complete(p, n) => r matches Ok(Some(v)) && v@ == p
                    && final(self).read_buffer() == old(self).read_buffer().subrange(
                    n,
                    old(self).read_buffer().len() as int,
                ),
            },
    {
        match decode_frame(self.rbuf.as_slice()) {
            Ok(None) => Ok(None),
            Ok(Some((p, n))) => {
                let rest = self.rbuf.split_off(n);
                self.rbuf = rest;
                Ok(Some(p))
            },
            Err(e) => Err(e),
        }
    }

    /// At the end of the input: fine where no partial frame is left, a
    /// truncated frame otherwise.
    pub fn finish_read(&self) -> (r: Result<(), KvError>)
        ensures
            r is Ok <==> self.read_buffer().len() == 0,
            r matches Err(e) ==> e is FrameCorrupt,
    {
        if self.rbuf.len() == 0 {
            Ok(())
        } else {
            Err(KvError::FrameCorrupt(String::from_str("stream ended inside a frame")))
        }
    }

    /// Stages one frame carrying `payload` for writing. A payload above the
    /// maximum is refused and leaves the buffer as it was.
    pub fn start_send(&mut self, payload: &[u8]) -> (r: Result<(), KvError>)
        requires
            old(self).wf(),
        ensures
            final(self).wf(),
            final(self).read_buffer() == old(self).read_buffer(),
            final(self).written() == old(self).written(),
            final(self).transport() == old(self).transport(),
            payload@.len() > MAX_FRAME ==> r == Err::<(), KvError>(KvError::FrameTooLarge)
                && final(self).write_buffer() == old(self).write_buffer(),
            payload@.len() <= MAX_FRAME ==> r is Ok && exists|f: Seq<u8>|
                encodes(f, payload@) && final(self).write_buffer() == old(self).write_buffer() + f,
    {
        encode_frame(payload, &mut self.wbuf)
    }

    /// The staged bytes that have not gone out yet.
    pub fn pending(&self) -> (r: &[u8])
        requires
            self.wf(),
        ensures
            self.written() <= self.write_buffer().len(),
            r@.len() == self.write_buffer().len() - self.written(),
            r@ == self.write_buffer().subrange(self.written() as int, self.write_buffer().len() as int),
    {
        slice_subrange(self.wbuf.as_slice(), self.written, self.wbuf.len())
    }

    /// Records that the transport took `n` more bytes. Once everything
    /// staged has gone out, the buffer and the cursor are reset.
    pub fn advance(&mut self, n: usize)
        requires
            old(self).wf(),
            old(self).written() + n <= old(self).write_buffer().len(),
        ensures
            final(self).transport() == old(self).transport(),
            final(self).wf(),
            final(self).read_buffer() == old(self).read_buffer(),
            old(self).written() + n == old(self).write_buffer().len() ==> final(self).write_buffer()
                == Seq::<u8>::empty() && final(self).written() == 0,
            old(self).written() + n < old(self).write_buffer().len() ==> final(self).write_buffer()
                == old(self).write_buffer() && final(self).written() == old(self).written() + n,
    {
        let len = self.wbuf.len();
        self.written = self.written + n;
        if self.written == len {
            self.wbuf.clear();
            self.written = 0;
        }
    }

    /// Whether everything staged has gone out.
    pub fn is_flushed(&self) -> (r: bool)
        requires
            self.wf(),
        ensures
            r == (self.write_buffer().len() == 0),
    {
        self.wbuf.len() == 0
    }
}

/// A reader that reads no more than it is asked for stops exactly at the end
/// of a frame: before it, it always wants at least one byte and never more
/// than the frame has left; at it, it wants nothing, the frame decodes, and
/// no byte is left over in the buffer.
pub proof fn lemma_read_exact(f: Seq<u8>, p: Seq<u8>, k: int)
    requires
        is_frame_of(f, p),
        0 <= k <= f.len(),
    ensures
        k < f.len() ==> 0 < wanted(f.subrange(0, k)) <= f.len() - k,
        k == f.len() ==> wanted(f) == 0 && frame_view(f) == FrameView::Complete(p, f.len() as int)
            && f.subrange(f.len() as int, f.len() as int) == Seq::<u8>::empty(),
{
    lemma_frame_round_trip(f, p, Seq::empty());
    assert(f + Seq::<u8>::empty() =~= f);
    if k < f.len() {
        lemma_prefix_incomplete(f, p, k);
        let b = f.subrange(0, k);
        if k >= LEN_LEN {
            assert(declared_len(b) == declared_len(f)) by {
                assert(b[0] == f[0] && b[1] == f[1] && b[2] == f[2] && b[3] == f[3]);
            }
        }
    }
    assert(f.subrange(f.len() as int, f.len() as int) =~= Seq::<u8>::empty());
}

/// The pieces laid end to end.
pub open spec fn joined(pieces: Seq<Seq<u8>>) -> Seq<u8>
    decreases pieces.len(),
{
    if pieces.len() == 0 {
        Seq::empty()
    } else {
        joined(pieces.drop_last()) + pieces.last()
    }
}

/// Feeding a frame to the reader in pieces of any size gives what feeding it
/// whole gives: every buffer short of the whole frame asks for more, and the
/// whole frame decodes to its body, whatever follows it.
pub proof fn lemma_pieces_like_whole(f: Seq<u8>, p: Seq<u8>, pieces: Seq<Seq<u8>>, rest: Seq<u8>)
    requires
        is_frame_of(f, p),
        joined(pieces) == f,
    ensures
        forall|i: int|
            0 <= i <= pieces.len() && (#[trigger] joined(pieces.subrange(0, i))).len() < f.len()
                ==> frame_view(joined(pieces.subrange(0, i))) == FrameView::Incomplete,
        frame_view(joined(pieces) + rest) == FrameView::Complete(p, f.len() as int),
{
    lemma_frame_round_trip(f, p, rest);
    assert forall|i: int|
        0 <= i <= pieces.len() && (#[trigger] joined(pieces.subrange(0, i))).len() < f.len()
            implies frame_view(joined(pieces.subrange(0, i))) == FrameView::Incomplete by {
        let b = joined(pieces.subrange(0, i));
        lemma_joined_prefix(pieces, i);
        assert(f.subrange(0, b.len() as int) =~= b);
        lemma_prefix_incomplete(f, p, b.len() as int);
    }
}

proof fn lemma_joined_prefix(pieces: Seq<Seq<u8>>, i: int)
    requires
        0 <= i <= pieces.len(),
    ensures
        joined(pieces.subrange(0, i)).len() <= joined(pieces).len(),
        joined(pieces).subrange(0, joined(pieces.subrange(0, i)).len() as int) == joined(
            pieces.subrange(0, i),
        ),
    decreases pieces.len(),
{
    let whole = joined(pieces);
    let part = joined(pieces.subrange(0, i));
    if i == pieces.len() {
        assert(pieces.subrange(0, i) =~= pieces);
        assert(whole.subrange(0, whole.len() as int) =~= whole);
    } else {
        let init = pieces.drop_last();
        lemma_joined_prefix(init, i);
        assert(init.subrange(0, i) =~= pieces.subrange(0, i));
        let w0 = joined(init);
        assert(whole == w0 + pieces.last());
        assert(whole.subrange(0, part.len() as int) =~= w0.subrange(0, part.len() as int));
    }
}

} // verus!
