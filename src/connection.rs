use vstd::prelude::*;

use crate::codec::{decode_frame, parse, ClientFrame, DecodeError, FrameView};
use crate::message::{Camera, Timestamp, HEARTBEAT};
use crate::ticketmaster::Registration;

verus! {

/// Milliseconds in a decisecond.
pub const MILLIS_PER_DECISECOND: u64 = 100;

/// The role of a connection: decided by its first declaring frame, for good.
#[derive(Debug, Clone, Copy, PartialEq, Eq, Structural)]
pub enum Role {
    Undetermined,
    Camera(Camera),
    Dispatcher,
}

/// What the connection's driver is to do after some input.
#[derive(Debug)]
pub enum Action {
    /// The frame was handled; read on.
    Nothing,
    /// The bytes hold no whole frame yet; read more.
    NeedMore,
    /// Hand this event to the engine.
    Forward(Registration),
    /// Send a heartbeat every so many deciseconds from now on.
    StartHeartbeat(u32),
    /// Send the error frame and close the connection.
    Fail,
    /// Close the connection without a word.
    Close,
}

/// The role state of one connection.
#[derive(Debug)]
pub struct Client {
    pub id: u64,
    pub role: Role,
    pub has_heartbeat: bool,
}

/// What handling the frame `f` does, from connection state `pre` to `post`,
/// with action `r`.
///
/// A heartbeat request is taken once, in any role; a second one fails. The
/// first declaring frame decides the role: a camera declaration makes a camera,
/// and a dispatcher declaration a dispatcher, which is registered with the
/// engine under the connection's id. A camera forwards each plate report to the
/// engine. Anything else fails and changes nothing.
pub open spec fn frame_step(pre: Client, post: Client, f: FrameView, r: Action) -> bool {
    &&& post.id == pre.id
    &&& match f {
        FrameView::WantHeartbeat(i) => if pre.has_heartbeat {
            r is Fail && post.role == pre.role && post.has_heartbeat
        } else {
            &&& post.role == pre.role
            &&& post.has_heartbeat
            &&& i == 0 ==> r is Nothing
            &&& i != 0 ==> r == Action::StartHeartbeat(i)
        },
        FrameView::Camera(c) => if pre.role is Undetermined {
            r is Nothing && post.role == Role::Camera(c) && post.has_heartbeat == pre.has_heartbeat
        } else {
            r is Fail && post.role == pre.role && post.has_heartbeat == pre.has_heartbeat
        },
        FrameView::Dispatcher(roads) => if pre.role is Undetermined {
            &&& post.role == Role::Dispatcher
            &&& post.has_heartbeat == pre.has_heartbeat
            &&& r matches Action::Forward(Registration::NewDispatcher(rs, id)) && rs@ == roads && id == pre.id
        } else {
            r is Fail && post.role == pre.role && post.has_heartbeat == pre.has_heartbeat
        },
        FrameView::Plate(plate, t) => match pre.role {
            Role::Camera(c) => {
                &&& post.role == pre.role
                &&& post.has_heartbeat == pre.has_heartbeat
                &&& r matches Action::Forward(Registration::NewTimestamp(p, ts)) && p@ == plate && ts == (Timestamp {
                    road: c.road,
                    mile: c.mile,
                    limit: c.limit,
                    timestamp: t,
                    keep: true,
                })
            },
            _ => r is Fail && post.role == pre.role && post.has_heartbeat == pre.has_heartbeat,
        },
    }
}

/// A connection that has declared itself a camera and then declares itself a
/// dispatcher fails, keeps its role, and hands nothing to the engine.
pub proof fn lemma_camera_cannot_dispatch(pre: Client, post: Client, roads: Seq<u16>, r: Action)
    requires
        pre.role is Camera,
        frame_step(pre, post, FrameView::Dispatcher(roads), r),
    ensures
        r is Fail,
        !(r is Forward),
        post.role == pre.role,
{
}

impl Client {
    /// A new connection with id `id`, its role not yet decided.
    pub fn new(id: u64) -> (r: Self)
        ensures
            r.id == id,
            r.role == Role::Undetermined,
            !r.has_heartbeat,
    {
        Client { id, role: Role::Undetermined, has_heartbeat: false }
    }

    /// Handles one whole client frame, as `frame_step` says.
    pub fn on_frame(&mut self, frame: ClientFrame) -> (r: Action)
        ensures
            frame_step(*old(self), *final(self), frame@, r),
    {
        match frame {
            ClientFrame::WantHeartbeat(i) => {
                if self.has_heartbeat {
                    Action::Fail
                } else {
                    self.has_heartbeat = true;
                    if i == 0 {
                        Action::Nothing
                    } else {
                        Action::StartHeartbeat(i)
                    }
                }
            },
            ClientFrame::Camera(c) => {
                if self.role == Role::Undetermined {
                    self.role = Role::Camera(c);
                    Action::Nothing
                } else {
                    Action::Fail
                }
            },
            ClientFrame::Dispatcher(roads) => {
                if self.role == Role::Undetermined {
                    self.role = Role::Dispatcher;
                    Action::Forward(Registration::NewDispatcher(roads, self.id))
                } else {
                    Action::Fail
                }
            },
            ClientFrame::Plate(plate, t) => {
                match self.role {
                    Role::Camera(c) => Action::Forward(Registration::NewTimestamp(plate, Timestamp::new(&c, t))),
                    _ => Action::Fail,
                }
            },
        }
    }

    /// Handles the bytes read so far and not yet used, `buf`; `eof` tells
    /// whether the peer has closed its side. Returns the action and how many
    /// bytes of `buf` were used.
    ///
    /// A whole frame at the start of `buf` is handled as `frame_step` says. An
    /// unknown tag fails. A frame cut short waits for more bytes, unless the
    /// stream has ended: then the connection fails mid-frame, or closes quietly
    /// if nothing is left over.
    pub fn on_input(&mut self, buf: &[u8], eof: bool) -> (r: (Action, usize))
        ensures
            match parse(buf@) {
                Ok((f, n)) => frame_step(*old(self), *final(self), f, r.0) && r.1 == n,
                Err(DecodeError::UnknownTag(_)) => r.0 is Fail && r.1 == 0 && *final(self) == *old(self),
                Err(DecodeError::Incomplete) => {
                    &&& r.1 == 0
                    &&& *final(self) == *old(self)
                    &&& !eof ==> r.0 is NeedMore
                    &&& eof && buf@.len() == 0 ==> r.0 is Close
                    &&& eof && buf@.len() != 0 ==> r.0 is Fail
                },
            },
    {
        match decode_frame(buf) {
            Ok((frame, n)) => (self.on_frame(frame), n),
            Err(DecodeError::UnknownTag(_)) => (Action::Fail, 0),
            Err(DecodeError::Incomplete) => {
                if !eof {
                    (Action::NeedMore, 0)
                } else if buf.len() == 0 {
                    (Action::Close, 0)
                } else {
                    (Action::Fail, 0)
                }
            },
        }
    }
}

/// The time between two heartbeats, in milliseconds, for a request of
/// `interval` deciseconds: none for zero.
pub fn heartbeat_period_ms(interval: u32) -> (r: Option<u64>)
    ensures
        interval == 0 ==> r is None,
        interval != 0 ==> r == Some((interval * MILLIS_PER_DECISECOND) as u64),
{
    if interval == 0 {
        None
    } else {
        Some(interval as u64 * MILLIS_PER_DECISECOND)
    }
}

/// The heartbeat frame.
pub fn heartbeat_frame() -> (r: Vec<u8>)
    ensures
        r@ == seq![HEARTBEAT],
{
    let mut out: Vec<u8> = Vec::new();
    out.push(HEARTBEAT);
    out
}

} // verus!
