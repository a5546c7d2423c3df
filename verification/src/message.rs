//! What goes into a replica and what comes out of it.
//!
//! The manager takes [`Event`]s and answers with [`Action`]s. The embedding
//! program carries the actions of one answer out in order and stops at the
//! first that fails. JSON is read and written outside this crate: a frame
//! comes in with its decoded [`Body`], and an action that sends JSON names
//! the value to encode.

use vstd::prelude::*;
use crate::manifest::{ConnectionInfoDict, DictView, NewConMessage, ReplicaInfo};
use crate::pixel::Pixel;
use crate::registry::{Delivery, DeliveryView};

verus! {

/// The full state that a joining replica needs.
#[derive(Debug, PartialEq, Eq)]
pub struct SyncMessage {
    pub pixels: Vec<Pixel>,
    pub conn: ConnectionInfoDict,
    pub leader: u16,
    /// The replica that sent the frame on this hop.
    pub predecessor_id: u16,
}

/// A sync message as a mathematical object.
pub struct SyncView {
    pub pixels: Seq<Pixel>,
    pub conn: DictView,
    pub leader: u16,
    pub predecessor_id: u16,
}

impl View for SyncMessage {
    type V = SyncView;

    open spec fn view(&self) -> SyncView {
        SyncView {
            pixels: self.pixels@,
            conn: self.conn@,
            leader: self.leader,
            predecessor_id: self.predecessor_id,
        }
    }
}

/// The JSON of a frame, decoded. `Absent` where the frame carries no JSON or
/// its JSON is malformed.
#[derive(Debug, PartialEq, Eq)]
pub enum Body {
    Absent,
    Pixel(Pixel),
    Pixels(Vec<Pixel>),
    Sync(SyncMessage),
    NewConnection(NewConMessage),
}

/// A decoded body as a mathematical object.
pub enum BodyView {
    Absent,
    Pixel(Pixel),
    Pixels(Seq<Pixel>),
    Sync(SyncView),
    NewConnection(NewConMessage),
}

impl View for Body {
    type V = BodyView;

    open spec fn view(&self) -> BodyView {
        match self {
            Body::Absent => BodyView::Absent,
            Body::Pixel(p) => BodyView::Pixel(*p),
            Body::Pixels(ps) => BodyView::Pixels(ps@),
            Body::Sync(s) => BodyView::Sync(s@),
            Body::NewConnection(m) => BodyView::NewConnection(*m),
        }
    }
}

/// What a local session asks of the replica.
#[derive(Debug, PartialEq, Eq)]
pub enum Command {
    /// A session has attached.
    Connect,
    /// The session `conn` submits a pixel update.
    Message { conn: u64, msg: Vec<u8> },
    /// The session `conn` has gone.
    Disconnect { conn: u64 },
}

/// A command as a mathematical object.
pub enum CommandView {
    Connect,
    Message { conn: u64, msg: Seq<u8> },
    Disconnect { conn: u64 },
}

impl View for Command {
    type V = CommandView;

    open spec fn view(&self) -> CommandView {
        match self {
            Command::Connect => CommandView::Connect,
            Command::Message { conn, msg } => CommandView::Message { conn: *conn, msg: msg@ },
            Command::Disconnect { conn } => CommandView::Disconnect { conn: *conn },
        }
    }
}

/// Why the replica opens a link to a peer.
#[derive(Clone, Copy, Debug, PartialEq, Eq)]
pub enum DialPurpose {
    /// On start: the first peer that answers becomes the successor.
    Join,
    /// A replica has joined in front of the old successor.
    Retarget,
    /// The successor `departed` has left. With `announce`, the departure is
    /// made known to the ring once the new link stands.
    Reconnect { departed: u16, announce: bool },
    /// A replica has joined this one, which was alone.
    Splice,
}

/// What the embedding program is to do.
#[derive(Debug, PartialEq, Eq)]
pub enum Action {
    /// Write this frame to the successor.
    Send(Vec<u8>),
    /// Write `/sync` with this message to the successor.
    SendSync(SyncMessage),
    /// Write `/sync` to the successor, with every pixel of the store and
    /// these other fields.
    SendSnapshot { conn: ConnectionInfoDict, leader: u16, predecessor_id: u16 },
    /// Write `/new_connection` with this message to the successor.
    SendNewConnection(NewConMessage),
    /// Write the JSON of this record, and nothing else, to the successor.
    Announce(ReplicaInfo),
    /// Open a link to `peer`, make it the successor link, and report the
    /// outcome as [`Event::Dialed`].
    Dial { peer: ReplicaInfo, purpose: DialPurpose },
    /// Write `pixel` to the store under the last-writer-wins rule; when that
    /// has succeeded, report [`Event::Stored`] with `payload`.
    Store { pixel: Pixel, payload: Vec<u8> },
    /// Empty the store and write these pixels.
    ReplaceCanvas(Vec<Pixel>),
    /// Hand a text to a local session.
    Deliver(Delivery),
    /// Tell the session that has just attached its connection id.
    Registered { conn: u64 },
    /// Report [`Event::AckTimeout`] with `payload` at `deadline`.
    StartTimer { payload: Vec<u8>, deadline: u64 },
    /// Take the next inbound connection as the link from the predecessor.
    AcceptPredecessor,
    /// The ring cannot be mended: end the process.
    Exit,
}

/// An action as a mathematical object.
pub enum ActionView {
    Send(Seq<u8>),
    SendSync(SyncView),
    SendSnapshot { conn: DictView, leader: u16, predecessor_id: u16 },
    SendNewConnection(NewConMessage),
    Announce(ReplicaInfo),
    Dial { peer: ReplicaInfo, purpose: DialPurpose },
    Store { pixel: Pixel, payload: Seq<u8> },
    ReplaceCanvas(Seq<Pixel>),
    Deliver(DeliveryView),
    Registered { conn: u64 },
    StartTimer { payload: Seq<u8>, deadline: u64 },
    AcceptPredecessor,
    Exit,
}

impl View for Action {
    type V = ActionView;

    open spec fn view(&self) -> ActionView {
        match self {
            Action::Send(f) => ActionView::Send(f@),
            Action::SendSync(s) => ActionView::SendSync(s@),
            Action::SendSnapshot { conn, leader, predecessor_id } => ActionView::SendSnapshot {
                conn: conn@,
                leader: *leader,
                predecessor_id: *predecessor_id,
            },
            Action::SendNewConnection(m) => ActionView::SendNewConnection(*m),
            Action::Announce(r) => ActionView::Announce(*r),
            Action::Dial { peer, purpose } => ActionView::Dial { peer: *peer, purpose: *purpose },
            Action::Store { pixel, payload } => ActionView::Store {
                pixel: *pixel,
                payload: payload@,
            },
            Action::ReplaceCanvas(ps) => ActionView::ReplaceCanvas(ps@),
            Action::Deliver(d) => ActionView::Deliver(d@),
            Action::Registered { conn } => ActionView::Registered { conn: *conn },
            Action::StartTimer { payload, deadline } => ActionView::StartTimer {
                payload: payload@,
                deadline: *deadline,
            },
            Action::AcceptPredecessor => ActionView::AcceptPredecessor,
            Action::Exit => ActionView::Exit,
        }
    }
}

/// The views of a list of actions.
pub open spec fn actions_view(actions: Seq<Action>) -> Seq<ActionView> {
    Seq::new(actions.len(), |i: int| actions[i]@)
}

/// What happens to the replica.
#[derive(Debug, PartialEq, Eq)]
pub enum Event {
    /// The process has started.
    Start,
    /// A local session asks for something, at time `now` in milliseconds.
    Command { cmd: Command, now: u64 },
    /// A read on the link from the predecessor returned these bytes; none
    /// means that the predecessor has closed the link.
    Received(Vec<u8>),
    /// A frame taken from the link, with its decoded JSON.
    Frame { msg: Vec<u8>, body: Body },
    /// A replica has connected and sent its record.
    Accepted(ReplicaInfo),
    /// What became of an [`Action::Dial`].
    Dialed { id: u16, purpose: DialPurpose, connected: bool },
    /// An [`Action::Store`] has succeeded.
    Stored { payload: Vec<u8> },
    /// A timer set by [`Action::StartTimer`] has fired.
    AckTimeout { payload: Vec<u8> },
    /// A write to the successor has failed.
    SuccessorLost,
}

/// An event as a mathematical object.
pub enum EventView {
    Start,
    Command { cmd: CommandView, now: u64 },
    Received(Seq<u8>),
    Frame { msg: Seq<u8>, body: BodyView },
    Accepted(ReplicaInfo),
    Dialed { id: u16, purpose: DialPurpose, connected: bool },
    Stored { payload: Seq<u8> },
    AckTimeout { payload: Seq<u8> },
    SuccessorLost,
}

impl View for Event {
    type V = EventView;

    open spec fn view(&self) -> EventView {
        match self {
            Event::Start => EventView::Start,
            Event::Command { cmd, now } => EventView::Command { cmd: cmd@, now: *now },
            Event::Received(chunk) => EventView::Received(chunk@),
            Event::Frame { msg, body } => EventView::Frame { msg: msg@, body: body@ },
            Event::Accepted(info) => EventView::Accepted(*info),
            Event::Dialed { id, purpose, connected } => EventView::Dialed {
                id: *id,
                purpose: *purpose,
                connected: *connected,
            },
            Event::Stored { payload } => EventView::Stored { payload: payload@ },
            Event::AckTimeout { payload } => EventView::AckTimeout { payload: payload@ },
            Event::SuccessorLost => EventView::SuccessorLost,
        }
    }
}

} // verus!
