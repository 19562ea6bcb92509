use vstd::prelude::*;

use crate::message::{Camera, CAMERA, DISPATCHER, PLATE, WANTHEARTBEAT};

verus! {

/// A frame sent by a client.
#[derive(Debug)]
pub enum ClientFrame {
    /// Declares the connection a camera.
    Camera(Camera),
    /// Declares the connection the dispatcher of these roads.
    Dispatcher(Vec<u16>),
    /// A camera saw this plate at this time.
    Plate(Vec<u8>, u32),
    /// Asks for a heartbeat every so many deciseconds (none if zero).
    WantHeartbeat(u32),
}

/// What a client frame says, as plain values.
pub enum FrameView {
    Camera(Camera),
    Dispatcher(Seq<u16>),
    Plate(Seq<u8>, u32),
    WantHeartbeat(u32),
}

impl View for ClientFrame {
    type V = FrameView;

    open spec fn view(&self) -> FrameView {
        match self {
            ClientFrame::Camera(c) => FrameView::Camera(*c),
            ClientFrame::Dispatcher(roads) => FrameView::Dispatcher(roads@),
            ClientFrame::Plate(plate, t) => FrameView::Plate(plate@, *t),
            ClientFrame::WantHeartbeat(i) => FrameView::WantHeartbeat(*i),
        }
    }
}

/// Why bytes do not start with a whole client frame.
#[derive(Debug, Clone, Copy, PartialEq, Eq, Structural)]
pub enum DecodeError {
    /// The bytes stop before the frame ends.
    Incomplete,
    /// The first byte is no client tag.
    UnknownTag(u8),
}

/// The big-endian 16-bit number at `i`.
pub open spec fn u16_at(b: Seq<u8>, i: int) -> u16 {
    (b[i] * 256 + b[i + 1]) as u16
}

/// The big-endian 32-bit number at `i`.
pub open spec fn u32_at(b: Seq<u8>, i: int) -> u32 {
    (b[i] * 0x100_0000 + b[i + 1] * 0x1_0000 + b[i + 2] * 256 + b[i + 3]) as u32
}

/// The client frame at the start of `b`, with its length in bytes.
pub open spec fn parse(b: Seq<u8>) -> Result<(FrameView, int), DecodeError> {
    if b.len() == 0 {
        Err(DecodeError::Incomplete)
    } else if b[0] == CAMERA {
        if b.len() < 7 {
            Err(DecodeError::Incomplete)
        } else {
            Ok((FrameView::Camera(Camera { road: u16_at(b, 1), mile: u16_at(b, 3), limit: u16_at(b, 5) }), 7))
        }
    } else if b[0] == DISPATCHER {
        if b.len() < 2 || b.len() < 2 + 2 * b[1] {
            Err(DecodeError::Incomplete)
        } else {
            Ok((FrameView::Dispatcher(Seq::new(b[1] as nat, |k: int| u16_at(b, 2 + 2 * k))), 2 + 2 * b[1]))
        }
    } else if b[0] == PLATE {
        if b.len() < 2 || b.len() < 6 + b[1] {
            Err(DecodeError::Incomplete)
        } else {
            Ok((FrameView::Plate(b.subrange(2, 2 + b[1]), u32_at(b, 2 + b[1])), 6 + b[1]))
        }
    } else if b[0] == WANTHEARTBEAT {
        if b.len() < 5 {
            Err(DecodeError::Incomplete)
        } else {
            Ok((FrameView::WantHeartbeat(u32_at(b, 1)), 5))
        }
    } else {
        Err(DecodeError::UnknownTag(b[0]))
    }
}

fn read_u16(b: &[u8], i: usize) -> (r: u16)
    requires
        i + 2 <= b@.len(),
    ensures
        r == u16_at(b@, i as int),
{
    b[i] as u16 * 256 + b[i + 1] as u16
}

fn read_u32(b: &[u8], i: usize) -> (r: u32)
    requires
        i + 4 <= b@.len(),
    ensures
        r == u32_at(b@, i as int),
{
    b[i] as u32 * 0x100_0000 + b[i + 1] as u32 * 0x1_0000 + b[i + 2] as u32 * 256 + b[i + 3] as u32
}

/// Reads the client frame at the start of `b`, and how many bytes it takes.
pub fn decode_frame(b: &[u8]) -> (r: Result<(ClientFrame, usize), DecodeError>)
    ensures
        match r {
            Ok((f, n)) => parse(b@) == Ok::<(FrameView, int), DecodeError>((f@, n as int)),
            Err(e) => parse(b@) == Err::<(FrameView, int), DecodeError>(e),
        },
{
    if b.len() == 0 {
        return Err(DecodeError::Incomplete);
    }
    let tag = b[0];
    if tag == CAMERA {
        if b.len() < 7 {
            return Err(DecodeError::Incomplete);
        }
        let cam = Camera { road: read_u16(b, 1), mile: read_u16(b, 3), limit: read_u16(b, 5) };
        Ok((ClientFrame::Camera(cam), 7))
    } else if tag == DISPATCHER {
        if b.len() < 2 || b.len() < 2 + 2 * b[1] as usize {
            return Err(DecodeError::Incomplete);
        }
        let n = b[1] as usize;
        let mut roads: Vec<u16> = Vec::new();
        let mut k: usize = 0;
        while k < n
            invariant
                k <= n,
                n == b@[1],
                2 + 2 * n <= b@.len(),
                roads@ == Seq::new(k as nat, |j: int| u16_at(b@, 2 + 2 * j)),
            decreases n - k,
        {
            roads.push(read_u16(b, 2 + 2 * k));
            k = k + 1;
            assert(roads@ =~= Seq::new(k as nat, |j: int| u16_at(b@, 2 + 2 * j)));
        }
        Ok((ClientFrame::Dispatcher(roads), 2 + 2 * n))
    } else if tag == PLATE {
        if b.len() < 2 || b.len() < 6 + b[1] as usize {
            return Err(DecodeError::Incomplete);
        }
        let n = b[1] as usize;
        let mut plate: Vec<u8> = Vec::new();
        let mut k: usize = 0;
        while k < n
            invariant
                k <= n,
                n == b@[1],
                6 + n <= b@.len(),
                plate@ == b@.subrange(2, 2 + k),
            decreases n - k,
        {
            plate.push(b[2 + k]);
            k = k + 1;
            assert(plate@ =~= b@.subrange(2, 2 + k));
        }
        let t = read_u32(b, 2 + n);
        Ok((ClientFrame::Plate(plate, t), 6 + n))
    } else if tag == WANTHEARTBEAT {
        if b.len() < 5 {
            return Err(DecodeError::Incomplete);
        }
        Ok((ClientFrame::WantHeartbeat(read_u32(b, 1)), 5))
    } else {
        Err(DecodeError::UnknownTag(tag))
    }
}

} // verus!
