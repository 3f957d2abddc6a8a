//! Datagram frames: each UDP datagram leads with a tag byte that selects
//! reliable data, unreliable data or an acknowledgment.

use vstd::prelude::*;
use vstd::slice::slice_subrange;
use vstd::slice::slice_to_vec;
use crate::wire::append_bytes;
use crate::wire::push_u32;
use crate::wire::u32_at;
use crate::wire::u32_be;

verus! {

/// Tag byte of a reliable data frame.
pub const RELIABLE_TAG: u8 = 0;
/// Tag byte of an unreliable data frame.
pub const UNRELIABLE_TAG: u8 = 1;
/// Tag byte of an acknowledgment frame.
pub const ACK_TAG: u8 = 2;

/// One datagram's contents.
#[derive(Debug, Clone, PartialEq, Eq)]
pub enum Frame {
    /// `0x00`, the sequence number, then the payload.
    Reliable { seq: u32, payload: Vec<u8> },
    /// `0x01`, then the payload.
    Unreliable { payload: Vec<u8> },
    /// `0x02`, then the acknowledged sequence number.
    Ack { seq: u32 },
}

/// The mathematical form of a [`Frame`].
pub enum FrameView {
    Reliable { seq: u32, payload: Seq<u8> },
    Unreliable { payload: Seq<u8> },
    Ack { seq: u32 },
}

impl View for Frame {
    type V = FrameView;

    open spec fn view(&self) -> FrameView {
        match self {
            Frame::Reliable { seq, payload } => FrameView::Reliable { seq: *seq, payload: payload@ },
            Frame::Unreliable { payload } => FrameView::Unreliable { payload: payload@ },
            Frame::Ack { seq } => FrameView::Ack { seq: *seq },
        }
    }
}

/// Why a datagram is not a frame.
#[derive(Debug, Clone, PartialEq, Eq)]
pub enum FrameError {
    /// The datagram is empty.
    Empty,
    /// The tag byte names no frame kind.
    UnknownTag { tag: u8 },
    /// A reliable frame too short to hold its sequence number, or an
    /// acknowledgment that is not exactly five bytes long.
    BadLength { tag: u8, len: u64 },
}

/// The bytes of a frame.
pub open spec fn frame_bytes(f: FrameView) -> Seq<u8> {
    match f {
        FrameView::Reliable { seq, payload } => seq![RELIABLE_TAG] + u32_be(seq) + payload,
        FrameView::Unreliable { payload } => seq![UNRELIABLE_TAG] + payload,
        FrameView::Ack { seq } => seq![ACK_TAG] + u32_be(seq),
    }
}

/// The frame that a datagram holds, if any.
pub open spec fn parse_frame(b: Seq<u8>) -> Result<FrameView, FrameError> {
    if b.len() == 0 {
        Err(FrameError::Empty)
    } else if b[0] == RELIABLE_TAG {
        if b.len() >= 5 {
            Ok(FrameView::Reliable { seq: u32_at(b.skip(1)), payload: b.skip(5) })
        } else {
            Err(FrameError::BadLength { tag: b[0], len: b.len() as u64 })
        }
    } else if b[0] == UNRELIABLE_TAG {
        Ok(FrameView::Unreliable { payload: b.skip(1) })
    } else if b[0] == ACK_TAG {
        if b.len() == 5 {
            Ok(FrameView::Ack { seq: u32_at(b.skip(1)) })
        } else {
            Err(FrameError::BadLength { tag: b[0], len: b.len() as u64 })
        }
    } else {
        Err(FrameError::UnknownTag { tag: b[0] })
    }
}

/// Reading the bytes of a frame gives the frame back.
pub proof fn lemma_frame_round_trip(f: FrameView)
    ensures
        parse_frame(frame_bytes(f)) == Ok::<FrameView, FrameError>(f),
{
    let b = frame_bytes(f);
    match f {
        FrameView::Reliable { seq, payload } => {
            crate::wire::lemma_u32_round_trip(seq);
            assert(b.skip(1) == u32_be(seq) + payload);
            assert(b.skip(5) == payload);
            assert(u32_at(b.skip(1)) == u32_at(u32_be(seq)));
        },
        FrameView::Unreliable { payload } => {
            assert(b.skip(1) == payload);
        },
        FrameView::Ack { seq } => {
            crate::wire::lemma_u32_round_trip(seq);
            assert(b.skip(1) == u32_be(seq));
        },
    }
}

/// The bytes of `frame`.
pub fn encode_frame(frame: &Frame) -> (r: Vec<u8>)
    ensures
        r@ == frame_bytes(frame@),
{
    let mut buf: Vec<u8> = Vec::new();
    match frame {
        Frame::Reliable { seq, payload } => {
            buf.push(RELIABLE_TAG);
            push_u32(&mut buf, *seq);
            append_bytes(&mut buf, payload.as_slice());
        },
        Frame::Unreliable { payload } => {
            buf.push(UNRELIABLE_TAG);
            append_bytes(&mut buf, payload.as_slice());
        },
        Frame::Ack { seq } => {
            buf.push(ACK_TAG);
            push_u32(&mut buf, *seq);
        },
    }
    buf
}

/// Reads a big-endian `u32` at `bytes[at..at + 4]`.
fn read_u32_at(bytes: &[u8], at: usize) -> (r: u32)
    requires
        at + 4 <= bytes@.len(),
    ensures
        r == u32_at(bytes@.skip(at as int)),
{
    let b0 = bytes[at];
    let b1 = bytes[at + 1];
    let b2 = bytes[at + 2];
    let b3 = bytes[at + 3];
    ((b0 as u32) << 24u32) | ((b1 as u32) << 16u32) | ((b2 as u32) << 8u32) | (b3 as u32)
}

/// The frame that `bytes` holds.
pub fn decode_frame(bytes: &[u8]) -> (r: Result<Frame, FrameError>)
    ensures
        match r {
            Ok(f) => parse_frame(bytes@) == Ok::<FrameView, FrameError>(f@),
            Err(e) => parse_frame(bytes@) == Err::<FrameView, FrameError>(e),
        },
{
    let n = bytes.len();
    if n == 0 {
        return Err(FrameError::Empty);
    }
    let tag = bytes[0];
    if tag == RELIABLE_TAG {
        if n < 5 {
            return Err(FrameError::BadLength { tag, len: n as u64 });
        }
        let seq = read_u32_at(bytes, 1);
        let payload = slice_to_vec(slice_subrange(bytes, 5, n));
        assert(payload@ == bytes@.skip(5));
        Ok(Frame::Reliable { seq, payload })
    } else if tag == UNRELIABLE_TAG {
        let payload = slice_to_vec(slice_subrange(bytes, 1, n));
        assert(payload@ == bytes@.skip(1));
        Ok(Frame::Unreliable { payload })
    } else if tag == ACK_TAG {
        if n != 5 {
            return Err(FrameError::BadLength { tag, len: n as u64 });
        }
        let seq = read_u32_at(bytes, 1);
        Ok(Frame::Ack { seq })
    } else {
        Err(FrameError::UnknownTag { tag })
    }
}

} // verus!
