use vstd::prelude::*;

use crate::error::ProtocolError;
use crate::varint::{
    decode_varint, lemma_encoding_len, lemma_encoding_shape, lemma_scan_prefix,
    lemma_varint_round_trip, pow128, read_varint, scan_from,
    varint_encoding, varint_scan, write_varint, VarintScan,
};

verus! {

/// What the bytes buffered so far hold at their front.
pub enum FrameScan {
    /// Not yet a whole frame: more bytes must arrive.
    Incomplete,
    /// A whole frame: a length header of `header` bytes, then `len` payload bytes.
    Complete { header: nat, len: nat },
    /// A frame that declares length zero: the peer is done.
    Empty { header: nat },
    /// A length header that is no 32-bit varint, or a negative length.
    Malformed,
}

pub open spec fn frame_scan(s: Seq<u8>) -> FrameScan {
    match varint_scan(s) {
        VarintScan::Short => FrameScan::Incomplete,
        VarintScan::TooLong => FrameScan::Malformed,
        VarintScan::Ends(h) => {
            let len = decode_varint(s)->Ok_0.0;
            if len < 0 {
                FrameScan::Malformed
            } else if len == 0 {
                FrameScan::Empty { header: h }
            } else if s.len() < h + len {
                FrameScan::Incomplete
            } else {
                FrameScan::Complete { header: h, len: len as nat }
            }
        },
    }
}

/// The bytes of a frame that carries `payload`: its length as a varint, then
/// the payload itself.
pub open spec fn frame_of(payload: Seq<u8>) -> Seq<u8> {
    varint_encoding(payload.len()) + payload
}

/// One frame as it came off the wire: the length header exactly as the peer
/// wrote it, and the payload.
pub struct Frame {
    pub header: Vec<u8>,
    pub payload: Vec<u8>,
}

/// Collects what a socket delivers, in pieces of any size, and hands out whole
/// frames only.
pub struct Framer {
    buf: Vec<u8>,
}

impl View for Framer {
    type V = Seq<u8>;

    /// The bytes received and not yet handed out.
    closed spec fn view(&self) -> Seq<u8> {
        self.buf@
    }
}

impl Framer {
    pub fn new() -> (r: Framer)
        ensures
            r@ == Seq::<u8>::empty(),
    {
        Framer { buf: Vec::new() }
    }

    /// Takes bytes as one read from the socket delivered them.
    pub fn push(&mut self, data: &[u8])
        ensures
            final(self)@ == old(self)@ + data@,
    {
        append_bytes(&mut self.buf, data);
    }

    /// Hands out the frame at the front of the buffer, once all of it has
    /// arrived (`Ok(None)` until then). A frame of declared length zero ends the
    /// connection; a bad length header is `MalformedVarint`.
    pub fn next_frame(&mut self) -> (r: Result<Option<Frame>, ProtocolError>)
        ensures
            match frame_scan(old(self)@) {
                FrameScan::Incomplete => r is Ok && r->Ok_0 is None && final(self)@ == old(self)@,
                FrameScan::Malformed => r == Err::<Option<Frame>, ProtocolError>(
                    ProtocolError::MalformedVarint,
                ) && final(self)@ == old(self)@,
                FrameScan::Empty { header } => r == Err::<Option<Frame>, ProtocolError>(
                    ProtocolError::ConnectionClosed,
                ) && final(self)@ == old(self)@.skip(header as int),
                FrameScan::Complete { header, len } => r is Ok && r->Ok_0 is Some && r->Ok_0->0.header@
                    == old(self)@.take(header as int) && r->Ok_0->0.payload@ == old(self)@.subrange(
                    header as int,
                    (header + len) as int,
                ) && final(self)@ == old(self)@.skip((header + len) as int),
            },
    {
        let ghost s = self@;
        let scan = read_varint(self.buf.as_slice(), 0);
        proof {
            assert(s.skip(0) =~= s);
        }
        match scan {
            Err(e) => {
                if self.buf.len() < 5 {
                    proof {
                        lemma_too_long_needs_five(s);
                    }
                    return Ok(None);
                }
                proof {
                    lemma_short_from(s);
                }
                Err(e)
            },
            Ok((len, h)) => {
                if len < 0 {
                    return Err(ProtocolError::MalformedVarint);
                }
                if len == 0 {
                    let rest = self.buf.split_off(h);
                    self.buf = rest;
                    assert(self@ =~= s.skip(h as int));
                    return Err(ProtocolError::ConnectionClosed);
                }
                if self.buf.len() - h < len as usize {
                    return Ok(None);
                }
                let end: usize = h + len as usize;
                let rest = self.buf.split_off(end);
                let payload = self.buf.split_off(h);
                let header = self.buf.split_off(0);
                self.buf = rest;
                Ok(Some(Frame { header, payload }))
            },
        }
    }

    /// Hands out every byte still buffered, whole frames or not: once a
    /// connection is tunneled they go to the backend as they are.
    pub fn take_buffered(&mut self) -> (r: Vec<u8>)
        ensures
            r@ == old(self)@,
            final(self)@ == Seq::<u8>::empty(),
    {
        self.buf.split_off(0)
    }

    /// What the end of the stream means for the bytes still buffered: nothing
    /// left is a clean close; a length header cut short is `MalformedVarint`;
    /// a frame cut short is `TruncatedFrame`.
    pub fn end_of_stream(&self) -> (r: ProtocolError)
        ensures
            r == (if self@.len() == 0 {
                ProtocolError::ConnectionClosed
            } else if varint_scan(self@) is Short {
                ProtocolError::MalformedVarint
            } else {
                ProtocolError::TruncatedFrame
            }),
    {
        if self.buf.len() == 0 {
            return ProtocolError::ConnectionClosed;
        }
        let scan = read_varint(self.buf.as_slice(), 0);
        proof {
            assert(self@.skip(0) =~= self@);
        }
        match scan {
            Err(_) => {
                if self.buf.len() < 5 {
                    proof {
                        lemma_too_long_needs_five(self@);
                    }
                    ProtocolError::MalformedVarint
                } else {
                    proof {
                        lemma_short_from(self@);
                    }
                    ProtocolError::TruncatedFrame
                }
            },
            Ok(_) => ProtocolError::TruncatedFrame,
        }
    }
}

proof fn lemma_scan_from_short(s: Seq<u8>, i: nat)
    requires
        i <= 5,
        s.len() >= 5,
    ensures
        !(scan_from(s, i) is Short),
    decreases 5 - i,
{
    if i < 5 {
        lemma_scan_from_short(s, i + 1);
    }
}

proof fn lemma_short_from(s: Seq<u8>)
    requires
        s.len() >= 5,
    ensures
        !(varint_scan(s) is Short),
{
    lemma_scan_from_short(s, 0);
}

proof fn lemma_too_long_needs_five_from(s: Seq<u8>, i: nat)
    requires
        i <= s.len(),
        s.len() < 5,
    ensures
        !(scan_from(s, i) is TooLong),
    decreases 5 - i,
{
    if i < s.len() {
        lemma_too_long_needs_five_from(s, i + 1);
    }
}

proof fn lemma_too_long_needs_five(s: Seq<u8>)
    requires
        s.len() < 5,
    ensures
        !(varint_scan(s) is TooLong),
{
    lemma_too_long_needs_five_from(s, 0);
}

/// Encodes one frame: the payload's length as a varint, then the payload.
pub fn write_frame(out: &mut Vec<u8>, payload: &[u8])
    requires
        payload@.len() <= i32::MAX,
    ensures
        final(out)@ == old(out)@ + frame_of(payload@),
{
    write_varint(out, payload.len() as i64);
    let ghost mid = out@;
    append_bytes(out, payload);
    proof {
        assert(old(out)@ + frame_of(payload@) =~= mid + payload@);
    }
}

/// Appends `data` to `out`.
pub(crate) fn append_bytes(out: &mut Vec<u8>, data: &[u8])
    ensures
        final(out)@ == old(out)@ + data@,
{
    let mut i: usize = 0;
    while i < data.len()
        invariant
            i <= data@.len(),
            out@ == old(out)@ + data@.take(i as int),
        decreases data@.len() - i,
    {
        out.push(data[i]);
        proof {
            assert(data@.take(i + 1) =~= data@.take(i as int).push(data@[i as int]));
        }
        i = i + 1;
    }
    proof {
        assert(data@.take(data@.len() as int) =~= data@);
    }
}

/// However the bytes of a frame are split across reads, nothing is handed out
/// until its last byte has arrived: every proper prefix of the frame is
/// incomplete. Once all of it is there, whatever follows, it is one complete
/// frame whose payload is exactly the payload that was sent.
pub proof fn lemma_frame_reassembly(payload: Seq<u8>, cut: int, rest: Seq<u8>)
    requires
        0 < payload.len() <= i32::MAX,
        0 <= cut < frame_of(payload).len(),
    ensures
        frame_scan(frame_of(payload).take(cut)) is Incomplete,
        frame_scan(frame_of(payload) + rest) == (FrameScan::Complete {
            header: varint_encoding(payload.len()).len(),
            len: payload.len(),
        }),
        (frame_of(payload) + rest).subrange(
            varint_encoding(payload.len()).len() as int,
            frame_of(payload).len() as int,
        ) == payload,
{
    let e = varint_encoding(payload.len());
    let f = frame_of(payload);
    reveal_with_fuel(pow128, 6);
    lemma_encoding_len(payload.len(), 5);
    lemma_encoding_shape(payload.len());
    let s = f.take(cut);
    if cut < e.len() {
        lemma_scan_prefix(s, cut as nat);
    } else {
        let tail = payload.take(cut - e.len());
        assert(s =~= e + tail);
        lemma_varint_round_trip(payload.len(), tail);
    }
    assert(f + rest =~= e + (payload + rest));
    lemma_varint_round_trip(payload.len(), payload + rest);
    assert((f + rest).subrange(e.len() as int, f.len() as int) =~= payload);
}

} // verus!
