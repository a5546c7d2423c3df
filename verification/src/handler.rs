//! One websocket session: what the replica does with each thing that
//! happens on it.
//!
//! A session passes the updates of its client to the manager, passes the
//! notices of the manager to its client, and watches the heartbeat: it pings
//! on every tick and closes when the client has been silent for too long.

use vstd::prelude::*;
use crate::machine::text_primary;
use crate::protocol::{bytes_equal, copy_range};

verus! {

/// Time between two pings, in milliseconds.
pub const HEARTBEAT_INTERVAL_MS: u64 = 2000;

/// How long a client may stay silent, in milliseconds.
pub const CLIENT_TIMEOUT_MS: u64 = 5000;

/// A websocket message of the client.
#[derive(Debug, PartialEq, Eq)]
pub enum ClientMessage {
    Ping(Vec<u8>),
    Pong,
    Text(Vec<u8>),
    Binary,
    Close,
    Other,
}

/// What happens on a session.
#[derive(Debug, PartialEq, Eq)]
pub enum SessionEvent {
    /// The client has sent a message.
    Client(ClientMessage),
    /// The client's stream has failed or ended.
    ClientGone,
    /// The manager has a notice for this session.
    Notice(Vec<u8>),
    /// The manager has stopped.
    ManagerGone,
    /// The heartbeat timer has ticked.
    Tick,
}

/// What the session is to do.
#[derive(Debug, PartialEq, Eq)]
pub enum SessionAction {
    /// Answer a ping with these bytes.
    Pong(Vec<u8>),
    /// Hand this update to the manager.
    Submit(Vec<u8>),
    /// Send this text to the client.
    SendText(Vec<u8>),
    /// Ping the client.
    Ping,
    /// Nothing.
    Ignore,
    /// Close the session.
    Close,
}

/// A session action as a mathematical object.
pub enum SessionActionView {
    Pong(Seq<u8>),
    Submit(Seq<u8>),
    SendText(Seq<u8>),
    Ping,
    Ignore,
    Close,
}

impl View for SessionAction {
    type V = SessionActionView;

    open spec fn view(&self) -> SessionActionView {
        match self {
            SessionAction::Pong(b) => SessionActionView::Pong(b@),
            SessionAction::Submit(b) => SessionActionView::Submit(b@),
            SessionAction::SendText(b) => SessionActionView::SendText(b@),
            SessionAction::Ping => SessionActionView::Ping,
            SessionAction::Ignore => SessionActionView::Ignore,
            SessionAction::Close => SessionActionView::Close,
        }
    }
}

/// A session event as a mathematical object.
pub enum SessionEventView {
    Ping(Seq<u8>),
    Pong,
    Text(Seq<u8>),
    Binary,
    Close,
    Other,
    ClientGone,
    Notice(Seq<u8>),
    ManagerGone,
    Tick,
}

impl View for SessionEvent {
    type V = SessionEventView;

    open spec fn view(&self) -> SessionEventView {
        match self {
            SessionEvent::Client(ClientMessage::Ping(b)) => SessionEventView::Ping(b@),
            SessionEvent::Client(ClientMessage::Pong) => SessionEventView::Pong,
            SessionEvent::Client(ClientMessage::Text(b)) => SessionEventView::Text(b@),
            SessionEvent::Client(ClientMessage::Binary) => SessionEventView::Binary,
            SessionEvent::Client(ClientMessage::Close) => SessionEventView::Close,
            SessionEvent::Client(ClientMessage::Other) => SessionEventView::Other,
            SessionEvent::ClientGone => SessionEventView::ClientGone,
            SessionEvent::Notice(b) => SessionEventView::Notice(b@),
            SessionEvent::ManagerGone => SessionEventView::ManagerGone,
            SessionEvent::Tick => SessionEventView::Tick,
        }
    }
}

/// The bytes of `replicated`.
pub open spec fn word_replicated() -> Seq<u8> {
    seq![114, 101, 112, 108, 105, 99, 97, 116, 101, 100]
}

/// The bytes of `unreplicated`.
pub open spec fn word_unreplicated() -> Seq<u8> {
    seq![117, 110, 114, 101, 112, 108, 105, 99, 97, 116, 101, 100]
}

/// `s` begins with `prefix`.
pub open spec fn begins_with(s: Seq<u8>, prefix: Seq<u8>) -> bool {
    prefix.len() <= s.len() && s.subrange(0, prefix.len() as int) == prefix
}

/// The notice is one that a client is to see: `primary`, or a text that
/// begins with `replicated` or `unreplicated`.
pub open spec fn is_client_notice(text: Seq<u8>) -> bool {
    text == text_primary() || begins_with(text, word_replicated()) || begins_with(
        text,
        word_unreplicated(),
    )
}

/// The client has been silent for too long at `now`.
pub open spec fn heartbeat_expired(last_heartbeat: u64, now: u64) -> bool {
    now - last_heartbeat > CLIENT_TIMEOUT_MS
}

/// The time of the last sign of life after an event at `now`.
pub open spec fn heartbeat_after(last_heartbeat: u64, e: SessionEventView, now: u64) -> u64 {
    match e {
        SessionEventView::Ping(_) => now,
        SessionEventView::Pong => now,
        _ => last_heartbeat,
    }
}

/// What the session does with an event at `now`.
pub open spec fn session_step(last_heartbeat: u64, e: SessionEventView, now: u64) -> SessionActionView {
    match e {
        SessionEventView::Ping(bytes) => SessionActionView::Pong(bytes),
        SessionEventView::Pong => SessionActionView::Ignore,
        SessionEventView::Text(text) => SessionActionView::Submit(text),
        SessionEventView::Binary => SessionActionView::Ignore,
        SessionEventView::Close => SessionActionView::Close,
        SessionEventView::Other => SessionActionView::Close,
        SessionEventView::ClientGone => SessionActionView::Close,
        SessionEventView::Notice(text) => if is_client_notice(text) {
            SessionActionView::SendText(text)
        } else {
            SessionActionView::Ignore
        },
        SessionEventView::ManagerGone => SessionActionView::Close,
        SessionEventView::Tick => if heartbeat_expired(last_heartbeat, now) {
            SessionActionView::Close
        } else {
            SessionActionView::Ping
        },
    }
}

/// The state of one session.
pub struct Session {
    last_heartbeat: u64,
}

impl View for Session {
    type V = u64;

    closed spec fn view(&self) -> u64 {
        self.last_heartbeat
    }
}

/// Whether `s` begins with `prefix`.
pub fn starts_with(s: &[u8], prefix: &[u8]) -> (yes: bool)
    ensures
        yes == begins_with(s@, prefix@),
{
    if prefix.len() > s.len() {
        return false;
    }
    let front = copy_range(s, 0, prefix.len());
    bytes_equal(front.as_slice(), prefix)
}

impl Session {
    /// A session that starts at `now`. Its view is the time of the client's
    /// last sign of life.
    pub fn new(now: u64) -> (session: Session)
        ensures
            session@ == now,
    {
        Session { last_heartbeat: now }
    }
}

/// Takes what has happened on a session at time `now`, in milliseconds, and
/// returns what the session is to do.
pub fn canvas_ws(session: &mut Session, event: SessionEvent, now: u64) -> (action: SessionAction)
    ensures
        action@ == session_step(old(session)@, event@, now),
        final(session)@ == heartbeat_after(old(session)@, event@, now),
{
    match event {
        SessionEvent::Client(ClientMessage::Ping(bytes)) => {
            session.last_heartbeat = now;
            SessionAction::Pong(bytes)
        },
        SessionEvent::Client(ClientMessage::Pong) => {
            session.last_heartbeat = now;
            SessionAction::Ignore
        },
        SessionEvent::Client(ClientMessage::Text(text)) => SessionAction::Submit(text),
        SessionEvent::Client(ClientMessage::Binary) => SessionAction::Ignore,
        SessionEvent::Client(ClientMessage::Close) => SessionAction::Close,
        SessionEvent::Client(ClientMessage::Other) => SessionAction::Close,
        SessionEvent::ClientGone => SessionAction::Close,
        SessionEvent::Notice(text) => {
            let primary: Vec<u8> = vec![112, 114, 105, 109, 97, 114, 121];
            let replicated: Vec<u8> = vec![114, 101, 112, 108, 105, 99, 97, 116, 101, 100];
            let unreplicated: Vec<u8> = vec![117, 110, 114, 101, 112, 108, 105, 99, 97, 116, 101, 100];
            proof {
                assert(primary@ =~= text_primary());
                assert(replicated@ =~= word_replicated());
                assert(unreplicated@ =~= word_unreplicated());
            }
            if bytes_equal(text.as_slice(), primary.as_slice()) || starts_with(
                text.as_slice(),
                replicated.as_slice(),
            ) || starts_with(text.as_slice(), unreplicated.as_slice()) {
                SessionAction::SendText(text)
            } else {
                SessionAction::Ignore
            }
        },
        SessionEvent::ManagerGone => SessionAction::Close,
        SessionEvent::Tick => {
            if now > session.last_heartbeat && now - session.last_heartbeat > CLIENT_TIMEOUT_MS {
                SessionAction::Close
            } else {
                SessionAction::Ping
            }
        },
    }
}

} // verus!
