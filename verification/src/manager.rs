//! The replica manager: the state of one replica and what it does with each
//! event.
//!
//! The manager performs no input or output. Every method takes what has
//! happened and returns the actions that the embedding program is to carry
//! out, in order; each is held to the state machine of [`crate::machine`].

use vstd::prelude::*;
use crate::departure::Departures;
use crate::election::Token;
use crate::link::{FrameBuffer, LinkError};
use crate::machine::{
    accepted_step, ack_timeout_step, all_pixels_step, command_step,
    dial_result_step, disconnect_msg_step, disconnect_step, election_msg_step, enter_alone_step,
    initial_sync_step, initiate_election_step, join_step, new_connection_step, notify,
    pixel_msg_step, pixel_stored_step, predecessor_disconnect_step, prefix_replicated,
    prefix_unreplicated, replica_msg_step, retarget_step, run_step, socket_step, stream_step,
    successor_lost_step, sync_step, text_primary, token_step, try_connect_step, view_wf,
    ManagerView, Step,
};
use crate::manifest::{
    has_id, lemma_only_active, lemma_replace_entry, lemma_with_active, lemma_without_id,
    predecessor_of, successor_of, unique_ids, ConnectionInfoDict, NewConMessage, ReplicaInfo,
};
use crate::message::{actions_view, Action, Body, Command, DialPurpose, Event, SyncMessage};
use crate::pending::{AckCheck, PendingAck, PendingAcks, ACK_TIMEOUT_MS};
use crate::pixel::Pixel;
use crate::protocol::{
    all_pixels_frame, candidate_frame, join_bytes, copy_range, disconnect_frame, leader_frame,
    new_connection_frame, parse_election, parse_frame, parse_u16, Frame,
};
use crate::registry::{Delivery, SessionRegistry};

verus! {

/// Why a replica cannot be set up from a manifest.
#[derive(Clone, Copy, Debug, PartialEq, Eq)]
pub enum ConfigError {
    /// The manifest names a replica twice.
    DuplicateId,
    /// The manifest has no entry for this replica.
    MissingOwnEntry,
    /// The replica's own id is set, but is no id.
    UnreadableId,
}

/// The state of one replica.
pub struct ReplicaManager {
    id: u16,
    is_primary: bool,
    debug: bool,
    election_running: bool,
    leader_id: u16,
    predecessor_id: u16,
    successor_id: u16,
    connected: bool,
    sent_sync: bool,
    connections_info: ConnectionInfoDict,
    sessions: SessionRegistry,
    expected_queue: PendingAcks,
    inbound: FrameBuffer,
    announced: Departures,
}

impl View for ReplicaManager {
    type V = ManagerView;

    closed spec fn view(&self) -> ManagerView {
        ManagerView {
            id: self.id,
            is_primary: self.is_primary,
            debug: self.debug,
            election_running: self.election_running,
            leader_id: self.leader_id,
            predecessor_id: self.predecessor_id,
            successor_id: self.successor_id,
            connected: self.connected,
            sent_sync: self.sent_sync,
            conn: self.connections_info@,
            sessions: self.sessions@,
            pending: self.expected_queue@,
            inbound: self.inbound@,
            announced: self.announced@,
        }
    }
}

/// A state and the actions returned with it, as a step of the machine.
pub open spec fn step_of(next: ManagerView, actions: Seq<Action>) -> Step {
    Step { next, actions: actions_view(actions) }
}

/// What one turn of a replica with a successor has come to: the step of the
/// machine that was taken, or the loss of the predecessor with the state
/// unchanged.
pub open spec fn turn_is(
    before: ManagerView,
    event: crate::message::EventView,
    fresh: u64,
    after: ManagerView,
    turn: Result<Vec<Action>, LinkError>,
) -> bool {
    match turn {
        Ok(out) => stream_step(before, event, fresh) == Ok::<Step, LinkError>(step_of(after, out@)),
        Err(e) => stream_step(before, event, fresh) == Err::<Step, LinkError>(e) && after == before,
    }
}

/// The state in which a replica starts: neighbours as the manifest gives
/// them, the first entry of the manifest as leader, nothing connected.
pub open spec fn initial_view(
    id: u16,
    is_primary: bool,
    debug: bool,
    conn: crate::manifest::DictView,
) -> ManagerView {
    ManagerView {
        id,
        is_primary,
        debug,
        election_running: false,
        leader_id: conn.backend[0].id,
        predecessor_id: predecessor_of(conn.backend, id),
        successor_id: successor_of(conn.backend, id),
        connected: false,
        sent_sync: false,
        conn,
        sessions: Seq::empty(),
        pending: Seq::empty(),
        inbound: Seq::empty(),
        announced: Set::empty(),
    }
}

fn bytes_primary() -> (w: Vec<u8>)
    ensures
        w@ == text_primary(),
{
    let w: Vec<u8> = vec![112, 114, 105, 109, 97, 114, 121];
    proof {
        assert(w@ =~= text_primary());
    }
    w
}

fn bytes_replicated(payload: &[u8]) -> (w: Vec<u8>)
    ensures
        w@ == prefix_replicated() + payload@,
{
    let prefix: Vec<u8> = vec![114, 101, 112, 108, 105, 99, 97, 116, 101, 100, 58, 32];
    proof {
        assert(prefix@ =~= prefix_replicated());
    }
    join_bytes(prefix.as_slice(), payload)
}

fn bytes_unreplicated(payload: &[u8]) -> (w: Vec<u8>)
    ensures
        w@ == prefix_unreplicated() + payload@,
{
    let prefix: Vec<u8> = vec![117, 110, 114, 101, 112, 108, 105, 99, 97, 116, 101, 100, 58, 32];
    proof {
        assert(prefix@ =~= prefix_unreplicated());
    }
    join_bytes(prefix.as_slice(), payload)
}

fn copy_bytes(s: &[u8]) -> (out: Vec<u8>)
    ensures
        out@ == s@,
{
    let out = copy_range(s, 0, s.len());
    proof {
        assert(out@ =~= s@);
    }
    out
}

/// Appends `more` to `actions`.
fn extend(actions: &mut Vec<Action>, more: Vec<Action>)
    ensures
        actions_view(final(actions)@) == actions_view(old(actions)@) + actions_view(more@),
{
    let ghost added = more@;
    let mut more = more;
    actions.append(&mut more);
    proof {
        assert(actions_view(actions@) =~= actions_view(old(actions)@) + actions_view(added));
    }
}

/// One action.
fn single(action: Action) -> (out: Vec<Action>)
    ensures
        actions_view(out@) == seq![action@],
{
    let mut out: Vec<Action> = Vec::new();
    out.push(action);
    proof {
        assert(actions_view(out@) =~= seq![action@]);
    }
    out
}

/// No action.
fn nothing() -> (out: Vec<Action>)
    ensures
        actions_view(out@) == Seq::<crate::message::ActionView>::empty(),
{
    let out: Vec<Action> = Vec::new();
    proof {
        assert(actions_view(out@) =~= Seq::<crate::message::ActionView>::empty());
    }
    out
}

/// A copy of a list of pixels.
fn copy_pixels(pixels: &Vec<Pixel>) -> (out: Vec<Pixel>)
    ensures
        out@ == pixels@,
{
    let mut out: Vec<Pixel> = Vec::new();
    let mut i: usize = 0;
    while i < pixels.len()
        invariant
            i <= pixels@.len(),
            out@ == pixels@.subrange(0, i as int),
        decreases pixels@.len() - i,
    {
        out.push(pixels[i]);
        proof {
            assert(out@ =~= pixels@.subrange(0, i + 1));
        }
        i += 1;
    }
    proof {
        assert(out@ =~= pixels@);
    }
    out
}

impl ReplicaManager {
    /// Holds of every manager that this module hands out.
    pub open spec fn wf(&self) -> bool {
        view_wf(self@)
    }

    /// Sets a replica up from its manifest. The replica starts with the
    /// neighbours that the manifest gives it and with the first entry of
    /// the manifest as leader.
    pub fn new(id: u16, is_primary: bool, debug: bool, connections_info: ConnectionInfoDict) -> (made:
        Result<ReplicaManager, ConfigError>)
        ensures
            match made {
                Ok(m) => {
                    &&& unique_ids(connections_info@.backend)
                    &&& has_id(connections_info@.backend, id)
                    &&& m.wf()
                    &&& m@ == initial_view(id, is_primary, debug, connections_info@)
                },
                Err(ConfigError::DuplicateId) => !unique_ids(connections_info@.backend),
                Err(ConfigError::MissingOwnEntry) => unique_ids(connections_info@.backend)
                    && !has_id(connections_info@.backend, id),
                Err(ConfigError::UnreadableId) => false,
            },
    {
        if !ConnectionInfoDict::has_unique_ids(&connections_info.backend) {
            return Err(ConfigError::DuplicateId);
        }
        if ConnectionInfoDict::get_own_info(&connections_info.backend, id).is_none() {
            return Err(ConfigError::MissingOwnEntry);
        }
        let successor_id = ConnectionInfoDict::get_successor_id(&connections_info.backend, id);
        let predecessor_id = ConnectionInfoDict::get_predecessor_id(&connections_info.backend, id);
        let leader_id = connections_info.backend[0].id;
        Ok(
            ReplicaManager {
                id,
                is_primary,
                debug,
                election_running: false,
                leader_id,
                predecessor_id,
                successor_id,
                connected: false,
                sent_sync: false,
                connections_info,
                sessions: SessionRegistry::new(),
                expected_queue: PendingAcks::new(),
                inbound: FrameBuffer::new(),
                announced: Departures::new(),
            },
        )
    }

    /// This replica's id.
    pub fn id(&self) -> (id: u16)
        ensures
            id == self@.id,
    {
        self.id
    }

    /// Whether this replica is the primary.
    pub fn is_primary(&self) -> (primary: bool)
        ensures
            primary == self@.is_primary,
    {
        self.is_primary
    }

    /// The replica that this one takes for the leader.
    pub fn leader_id(&self) -> (id: u16)
        ensures
            id == self@.leader_id,
    {
        self.leader_id
    }

    /// The replica to which this one sends.
    pub fn successor_id(&self) -> (id: u16)
        ensures
            id == self@.successor_id,
    {
        self.successor_id
    }

    /// The replica from which this one receives.
    pub fn predecessor_id(&self) -> (id: u16)
        ensures
            id == self@.predecessor_id,
    {
        self.predecessor_id
    }

    /// Whether a link to a successor stands.
    pub fn is_connected(&self) -> (connected: bool)
        ensures
            connected == self@.connected,
    {
        self.connected
    }

    /// Whether this replica has announced the departure of `id` to the
    /// ring itself.
    pub fn has_announced(&self, id: u16) -> (found: bool)
        ensures
            found == self@.announced.contains(id),
    {
        self.announced.contains(id)
    }

    /// Whether this replica is a candidate in an election.
    pub fn election_running(&self) -> (running: bool)
        ensures
            running == self@.election_running,
    {
        self.election_running
    }

    /// The manifest as this replica knows it.
    pub fn connections_info(&self) -> (conn: &ConnectionInfoDict)
        ensures
            conn@ == self@.conn,
    {
        &self.connections_info
    }

    /// Number of updates that have not come back yet.
    pub fn pending_len(&self) -> (n: usize)
        ensures
            n == self@.pending.len(),
    {
        self.expected_queue.len()
    }

    /// Number of attached sessions.
    pub fn session_count(&self) -> (n: usize)
        ensures
            n == self@.sessions.len(),
    {
        self.sessions.len()
    }

    /// `text` for every attached session.
    fn notify_sessions(&self, text: &[u8]) -> (out: Vec<Action>)
        ensures
            actions_view(out@) == notify(self@.sessions, text@),
    {
        let mut out: Vec<Action> = Vec::new();
        let mut i: usize = 0;
        while i < self.sessions.len()
            invariant
                i <= self.sessions@.len(),
                out@.len() == i,
                forall|j: int|
                    0 <= j < i ==> (#[trigger] out@[j])@ == notify(self.sessions@, text@)[j],
            decreases self.sessions@.len() - i,
        {
            out.push(Action::Deliver(Delivery { conn: self.sessions.get(i), text: copy_bytes(text) }));
            i += 1;
        }
        proof {
            assert(actions_view(out@) =~= notify(self@.sessions, text@));
        }
        out
    }

    /// The frame for the successor, as an action.
    pub fn send_successor(&self, msg: Vec<u8>) -> (out: Action)
        ensures
            out@ == crate::message::ActionView::Send(msg@),
    {
        Action::Send(msg)
    }

    /// Starts an election: this replica becomes a candidate and sends its
    /// id to its successor.
    pub fn initiate_election(&mut self) -> (out: Vec<Action>)
        requires
            old(self).wf(),
        ensures
            final(self).wf(),
            step_of(final(self)@, out@) == initiate_election_step(old(self)@),
    {
        self.election_running = true;
        let out = single(self.send_successor(candidate_frame(self.id)));
        proof {
            assert(actions_view(out@) =~= initiate_election_step(old(self)@).actions);
        }
        out
    }

    /// Takes an election token.
    fn take_token(&mut self, token: Token) -> (out: Vec<Action>)
        requires
            old(self).wf(),
        ensures
            final(self).wf(),
            step_of(final(self)@, out@) == token_step(old(self)@, token),
    {
        let ghost want = token_step(old(self)@, token);
        match token {
            Token::Leader(k) => {
                self.election_running = false;
                self.leader_id = k;
                if k != self.id {
                    self.is_primary = false;
                    let out = single(self.send_successor(leader_frame(k)));
                    proof {
                        assert(actions_view(out@) =~= want.actions);
                    }
                    out
                } else {
                    self.is_primary = true;
                    let out = self.notify_sessions(bytes_primary().as_slice());
                    proof {
                        assert(actions_view(out@) =~= want.actions);
                    }
                    out
                }
            },
            Token::Candidate(k) => {
                if k > self.id {
                    let out = single(self.send_successor(candidate_frame(k)));
                    proof {
                        assert(actions_view(out@) =~= want.actions);
                    }
                    out
                } else if k == self.id {
                    let out = single(self.send_successor(leader_frame(self.id)));
                    proof {
                        assert(actions_view(out@) =~= want.actions);
                    }
                    out
                } else if !self.election_running {
                    self.election_running = true;
                    let out = single(self.send_successor(candidate_frame(self.id)));
                    proof {
                        assert(actions_view(out@) =~= want.actions);
                    }
                    out
                } else {
                    let out = nothing();
                    proof {
                        assert(actions_view(out@) =~= want.actions);
                    }
                    out
                }
            },
        }
    }

    /// Takes the argument of an `/election` frame: `election <id>` or
    /// `leader <id>`.
    pub fn handle_election_msg(&mut self, msg: &[u8]) -> (out: Vec<Action>)
        requires
            old(self).wf(),
        ensures
            final(self).wf(),
            step_of(final(self)@, out@) == election_msg_step(old(self)@, msg@),
    {
        match parse_election(msg) {
            Ok(Frame::Candidate(k)) => self.take_token(Token::Candidate(k)),
            Ok(Frame::Leader(k)) => self.take_token(Token::Leader(k)),
            _ => nothing(),
        }
    }

    /// Takes a raw pixel that has arrived from the predecessor, with the
    /// pixel that its JSON holds.
    pub fn handle_pixel_msg(&mut self, msg: &[u8], pixel: Pixel) -> (out: Vec<Action>)
        requires
            old(self).wf(),
        ensures
            final(self).wf(),
            step_of(final(self)@, out@) == pixel_msg_step(old(self)@, msg@, pixel),
    {
        if !self.is_primary {
            if self.debug {
                nothing()
            } else {
                single(Action::Store { pixel, payload: copy_bytes(msg) })
            }
        } else {
            match self.expected_queue.check_return(msg) {
                AckCheck::Expected => single(Action::Store { pixel, payload: copy_bytes(msg) }),
                _ => nothing(),
            }
        }
    }

    /// Takes the news that the pixel of `payload` has been stored.
    pub fn handle_pixel_stored(&mut self, payload: &[u8]) -> (out: Vec<Action>)
        requires
            old(self).wf(),
        ensures
            final(self).wf(),
            step_of(final(self)@, out@) == pixel_stored_step(old(self)@, payload@),
    {
        if !self.is_primary {
            if self.debug {
                nothing()
            } else {
                single(self.send_successor(copy_bytes(payload)))
            }
        } else {
            match self.expected_queue.settle(payload) {
                Some(_) => self.notify_sessions(bytes_replicated(payload).as_slice()),
                None => nothing(),
            }
        }
    }

    /// Takes the argument of an `/all_pixels` frame, with the pixels that
    /// its JSON holds.
    pub fn handle_all_pixels_msg(&mut self, msg: &[u8], pixels: Vec<Pixel>) -> (out: Vec<Action>)
        requires
            old(self).wf(),
        ensures
            final(self).wf(),
            step_of(final(self)@, out@) == all_pixels_step(old(self)@, msg@, pixels@),
    {
        if self.is_primary {
            nothing()
        } else {
            let mut out = single(Action::ReplaceCanvas(pixels));
            extend(&mut out, single(self.send_successor(all_pixels_frame(msg))));
            proof {
                assert(actions_view(out@) =~= all_pixels_step(old(self)@, msg@, pixels@).actions);
            }
            out
        }
    }

    /// Takes the timer of the update `payload`.
    pub fn handle_ack_timeout(&mut self, payload: &[u8]) -> (out: Vec<Action>)
        requires
            old(self).wf(),
        ensures
            final(self).wf(),
            step_of(final(self)@, out@) == ack_timeout_step(old(self)@, payload@),
    {
        match self.expected_queue.settle(payload) {
            Some(_) => self.notify_sessions(bytes_unreplicated(payload).as_slice()),
            None => nothing(),
        }
    }

    /// Sends out a sync of this replica's own.
    pub fn send_initial_sync(&mut self) -> (out: Vec<Action>)
        requires
            old(self).wf(),
        ensures
            final(self).wf(),
            step_of(final(self)@, out@) == initial_sync_step(old(self)@),
    {
        self.sent_sync = true;
        single(
            Action::SendSnapshot {
                conn: self.connections_info.clone(),
                leader: self.leader_id,
                predecessor_id: self.id,
            },
        )
    }

    /// Takes a `/sync` frame, decoded.
    pub fn handle_sync_msg(&mut self, sync: SyncMessage) -> (out: Vec<Action>)
        requires
            old(self).wf(),
        ensures
            final(self).wf(),
            step_of(final(self)@, out@) == sync_step(old(self)@, sync@),
    {
        if !ConnectionInfoDict::has_unique_ids(&sync.conn.backend) {
            return nothing();
        }
        self.predecessor_id = sync.predecessor_id;
        if self.is_primary {
            if self.sent_sync {
                self.sent_sync = false;
            } else {
                self.connections_info = sync.conn;
                self.leader_id = sync.leader;
            }
            nothing()
        } else {
            let forward = SyncMessage {
                pixels: copy_pixels(&sync.pixels),
                conn: sync.conn.clone(),
                leader: sync.leader,
                predecessor_id: self.id,
            };
            self.connections_info = sync.conn;
            self.leader_id = sync.leader;
            let mut out = single(Action::ReplaceCanvas(sync.pixels));
            extend(&mut out, single(Action::SendSync(forward)));
            proof {
                assert(actions_view(out@) =~= sync_step(old(self)@, sync@).actions);
            }
            out
        }
    }

    /// Takes the argument of a `/new_connection` frame, with the message
    /// that its JSON holds.
    pub fn handle_new_connection_msg(&mut self, msg: &[u8], message: NewConMessage) -> (out: Vec<
        Action,
    >)
        requires
            old(self).wf(),
        ensures
            final(self).wf(),
            step_of(final(self)@, out@) == new_connection_step(old(self)@, msg@, message),
    {
        if message.effecting.id != self.successor_id {
            single(self.send_successor(new_connection_frame(msg)))
        } else {
            single(Action::Dial { peer: message.from, purpose: DialPurpose::Retarget })
        }
    }

    /// Runs on its own: primary, its own leader, without a successor.
    pub fn event_loop_until_connect(&mut self) -> (out: Vec<Action>)
        requires
            old(self).wf(),
        ensures
            final(self).wf(),
            step_of(final(self)@, out@) == enter_alone_step(old(self)@),
    {
        self.is_primary = true;
        self.connected = false;
        self.leader_id = self.id;
        nothing()
    }

    /// Turns to the next replica of the ring after the successor `departed`
    /// has been struck from the manifest.
    fn retarget(&mut self, departed: u16, announce: bool) -> (out: Vec<Action>)
        requires
            old(self).wf(),
        ensures
            final(self).wf(),
            step_of(final(self)@, out@) == retarget_step(old(self)@, departed, announce),
    {
        let next_id = ConnectionInfoDict::get_successor_id(&self.connections_info.backend, self.id);
        if next_id != self.id {
            match ConnectionInfoDict::get_own_info(&self.connections_info.backend, next_id) {
                Some(peer) => {
                    let peer = peer.clone();
                    self.successor_id = next_id;
                    return single(
                        Action::Dial { peer, purpose: DialPurpose::Reconnect { departed, announce } },
                    );
                },
                None => {},
            }
        }
        self.is_primary = true;
        self.connected = false;
        self.leader_id = self.id;
        self.notify_sessions(bytes_primary().as_slice())
    }

    /// Strikes a departed replica from the manifest and mends the ring.
    fn disconnect(&mut self, gone: u16) -> (out: Vec<Action>)
        requires
            old(self).wf(),
        ensures
            final(self).wf(),
            step_of(final(self)@, out@) == disconnect_step(old(self)@, gone),
    {
        proof {
            lemma_without_id(self.connections_info.backend@, gone);
        }
        if gone == self.successor_id {
            ConnectionInfoDict::remove(&mut self.connections_info.backend, gone);
            self.announced.forget(gone);
            self.retarget(gone, false)
        } else if self.announced.contains(gone) && ConnectionInfoDict::get_own_info(
            &self.connections_info.backend,
            gone,
        ).is_none() {
            nothing()
        } else {
            ConnectionInfoDict::remove(&mut self.connections_info.backend, gone);
            self.announced.forget(gone);
            single(self.send_successor(disconnect_frame(gone)))
        }
    }

    /// Takes the argument of a `/disconnect` frame: the id of the replica
    /// that has left. An argument that is no id is dropped.
    pub fn handle_disconnect_msg(&mut self, msg: &[u8]) -> (out: Vec<Action>)
        requires
            old(self).wf(),
        ensures
            final(self).wf(),
            step_of(final(self)@, out@) == disconnect_msg_step(old(self)@, msg@),
    {
        match parse_u16(msg) {
            Some(gone) => self.disconnect(gone),
            None => nothing(),
        }
    }

    /// Takes the news that a write to the successor has failed.
    pub fn handle_successor_lost(&mut self) -> (out: Vec<Action>)
        requires
            old(self).wf(),
        ensures
            final(self).wf(),
            step_of(final(self)@, out@) == successor_lost_step(old(self)@),
    {
        if !self.connected || self.successor_id == self.id {
            return nothing();
        }
        let gone = self.successor_id;
        proof {
            lemma_without_id(self.connections_info.backend@, gone);
        }
        self.connected = false;
        ConnectionInfoDict::remove(&mut self.connections_info.backend, gone);
        self.retarget(gone, true)
    }

    /// Takes the news that the predecessor has closed its link.
    pub fn handle_predecessor_disconnect(&mut self) -> (out: Vec<Action>)
        requires
            old(self).wf(),
        ensures
            final(self).wf(),
            step_of(final(self)@, out@) == predecessor_disconnect_step(old(self)@),
    {
        let gone = self.predecessor_id;
        proof {
            lemma_without_id(self.connections_info.backend@, gone);
        }
        ConnectionInfoDict::remove(&mut self.connections_info.backend, gone);
        self.inbound.clear();
        if ConnectionInfoDict::get_own_info(&self.connections_info.backend, self.id).is_none() {
            return single(Action::Exit);
        }
        if !ConnectionInfoDict::has_active_peer(&self.connections_info.backend, self.id) {
            self.is_primary = true;
            self.connected = false;
            self.leader_id = self.id;
            return self.notify_sessions(bytes_primary().as_slice());
        }
        self.predecessor_id = ConnectionInfoDict::get_predecessor_id(
            &self.connections_info.backend,
            self.id,
        );
        let mut out = single(self.send_successor(disconnect_frame(gone)));
        extend(&mut out, single(Action::AcceptPredecessor));
        proof {
            assert(actions_view(out@) =~= predecessor_disconnect_step(old(self)@).actions);
        }
        out
    }

    /// Takes what a local session asks for, at time `now` in milliseconds.
    /// A session that attaches is given a random id, `fresh` below, which
    /// the first action names.
    pub fn handle_command(&mut self, cmd: Command, now: u64) -> (out: Vec<Action>)
        requires
            old(self).wf(),
        ensures
            final(self).wf(),
            exists|fresh: u64| step_of(final(self)@, out@) == command_step(old(self)@, cmd@, now, fresh),
            cmd is Connect ==> out@.len() > 0 && out@[0] is Registered && step_of(final(self)@, out@)
                == command_step(old(self)@, cmd@, now, out@[0]->Registered_conn),
    {
        match cmd {
            Command::Connect => {
                let conn = self.sessions.register();
                let mut out = single(Action::Registered { conn });
                if self.is_primary {
                    extend(&mut out, self.notify_sessions(bytes_primary().as_slice()));
                }
                proof {
                    let want = command_step(old(self)@, cmd@, now, conn);
                    assert(actions_view(out@) =~= want.actions);
                    assert(step_of(self@, out@) == want);
                    assert(actions_view(out@)[0] == out@[0]@);
                }
                out
            },
            Command::Message { conn, msg } => {
                let out = if !self.connected {
                    self.notify_sessions(bytes_replicated(msg.as_slice()).as_slice())
                } else if self.is_primary {
                    let deadline: u64 = if now > u64::MAX - ACK_TIMEOUT_MS {
                        u64::MAX
                    } else {
                        now + ACK_TIMEOUT_MS
                    };
                    self.expected_queue.push(
                        PendingAck { payload: copy_bytes(msg.as_slice()), deadline, conn_id: conn },
                    );
                    let mut out = single(
                        Action::StartTimer { payload: copy_bytes(msg.as_slice()), deadline },
                    );
                    extend(&mut out, single(self.send_successor(msg)));
                    out
                } else if self.debug {
                    nothing()
                } else {
                    single(self.send_successor(msg))
                };
                proof {
                    let want = command_step(old(self)@, cmd@, now, 0);
                    assert(actions_view(out@) =~= want.actions);
                    assert(step_of(self@, out@) == want);
                }
                out
            },
            Command::Disconnect { conn } => {
                self.sessions.unregister(conn);
                let out = nothing();
                proof {
                    assert(step_of(self@, out@) == command_step(old(self)@, cmd@, now, 0));
                }
                out
            },
        }
    }

    /// Takes what a read on the link from the predecessor has returned. No
    /// bytes mean that the predecessor has closed the link.
    pub fn handle_socket(&mut self, chunk: &[u8]) -> (taken: Result<(), LinkError>)
        requires
            old(self).wf(),
        ensures
            final(self).wf(),
            match taken {
                Ok(()) => socket_step(old(self)@, chunk@) == Ok::<ManagerView, LinkError>(
                    final(self)@,
                ),
                Err(e) => socket_step(old(self)@, chunk@) == Err::<ManagerView, LinkError>(e)
                    && final(self)@ == old(self)@,
            },
    {
        if chunk.len() == 0 {
            Err(LinkError::PredecessorLost)
        } else {
            self.inbound.extend(chunk);
            Ok(())
        }
    }

    /// Takes the next complete frame out of what the predecessor has sent.
    /// `None` exactly when no complete frame has arrived.
    pub fn next_frame(&mut self) -> (frame: Option<Vec<u8>>)
        requires
            old(self).wf(),
        ensures
            final(self).wf(),
            frame is Some <==> crate::link::has_line(old(self)@.inbound),
            match frame {
                Some(line) => line@ == crate::link::first_line(old(self)@.inbound) && final(self)@
                    == (ManagerView {
                    inbound: crate::link::after_first_line(old(self)@.inbound),
                    ..old(self)@
                }),
                None => final(self)@ == old(self)@,
            },
    {
        self.inbound.next_frame()
    }

    /// Takes a replica that has connected and sent its record.
    pub fn handle_accepted_stream(&mut self, info: ReplicaInfo, alone: bool) -> (out: Vec<Action>)
        requires
            old(self).wf(),
        ensures
            final(self).wf(),
            step_of(final(self)@, out@) == accepted_step(old(self)@, info, alone),
    {
        proof {
            lemma_replace_entry(self.connections_info.backend@, info);
        }
        ConnectionInfoDict::remove(&mut self.connections_info.backend, info.id);
        self.connections_info.backend.push(info.clone());
        self.predecessor_id = info.id;
        self.inbound.clear();
        if alone {
            return single(Action::Dial { peer: info, purpose: DialPurpose::Splice });
        }
        let effecting = match ConnectionInfoDict::get_own_info(
            &self.connections_info.backend,
            self.id,
        ) {
            Some(own) => own.clone(),
            None => {
                return single(Action::Exit);
            },
        };
        let mut out = single(Action::SendNewConnection(NewConMessage { from: info, effecting }));
        let sync = self.send_initial_sync();
        extend(&mut out, sync);
        proof {
            assert(actions_view(out@) =~= accepted_step(old(self)@, info, alone).actions);
        }
        out
    }

    /// Looks for a peer to join. No action means that none is left to try.
    pub fn try_connect(&mut self) -> (out: Vec<Action>)
        requires
            old(self).wf(),
        ensures
            final(self).wf(),
            step_of(final(self)@, out@) == try_connect_step(old(self)@),
    {
        match ConnectionInfoDict::first_active_peer(&self.connections_info.backend, self.id) {
            Some(peer) => {
                let peer = peer.clone();
                single(Action::Dial { peer, purpose: DialPurpose::Join })
            },
            None => {
                proof {
                    lemma_only_active(self.connections_info.backend@);
                }
                ConnectionInfoDict::retain_active(&mut self.connections_info.backend);
                nothing()
            },
        }
    }

    /// Tries to join; runs on its own where no peer is left to try.
    fn join(&mut self) -> (out: Vec<Action>)
        requires
            old(self).wf(),
        ensures
            final(self).wf(),
            step_of(final(self)@, out@) == join_step(old(self)@),
    {
        let out = self.try_connect();
        if out.len() == 0 {
            self.event_loop_until_connect()
        } else {
            out
        }
    }

    /// Takes the outcome of opening a link to the replica `id`.
    pub fn handle_dial_result(&mut self, id: u16, purpose: DialPurpose, connected: bool) -> (out:
        Vec<Action>)
        requires
            old(self).wf(),
        ensures
            final(self).wf(),
            step_of(final(self)@, out@) == dial_result_step(old(self)@, id, purpose, connected),
    {
        match purpose {
            DialPurpose::Join => {
                if connected {
                    proof {
                        lemma_only_active(self.connections_info.backend@);
                    }
                    self.successor_id = id;
                    self.connected = true;
                    self.is_primary = false;
                    ConnectionInfoDict::retain_active(&mut self.connections_info.backend);
                    match ConnectionInfoDict::get_own_info(&self.connections_info.backend, self.id) {
                        Some(own) => {
                            let mut out = single(Action::Announce(own.clone()));
                            extend(&mut out, single(Action::AcceptPredecessor));
                            proof {
                                assert(actions_view(out@) =~= dial_result_step(
                                    old(self)@,
                                    id,
                                    purpose,
                                    connected,
                                ).actions);
                            }
                            out
                        },
                        None => single(Action::Exit),
                    }
                } else {
                    proof {
                        lemma_with_active(self.connections_info.backend@, id, false);
                    }
                    ConnectionInfoDict::set_active(&mut self.connections_info.backend, id, false);
                    self.join()
                }
            },
            DialPurpose::Retarget => {
                if connected {
                    self.successor_id = id;
                    self.connected = true;
                }
                nothing()
            },
            DialPurpose::Reconnect { departed, announce } => {
                if connected {
                    self.connected = true;
                    let mut out = if departed == self.leader_id {
                        self.initiate_election()
                    } else {
                        nothing()
                    };
                    if announce {
                        self.announced.note(departed);
                        extend(&mut out, single(self.send_successor(disconnect_frame(departed))));
                    }
                    proof {
                        assert(actions_view(out@) =~= dial_result_step(
                            old(self)@,
                            id,
                            purpose,
                            connected,
                        ).actions);
                    }
                    out
                } else {
                    single(Action::Exit)
                }
            },
            DialPurpose::Splice => {
                if connected {
                    self.successor_id = id;
                    self.connected = true;
                    self.send_initial_sync()
                } else {
                    single(Action::Exit)
                }
            },
        }
    }

    /// Takes a frame from the predecessor, with its decoded JSON.
    pub fn handle_replica_msg(&mut self, msg: &[u8], body: Body) -> (out: Vec<Action>)
        requires
            old(self).wf(),
        ensures
            final(self).wf(),
            step_of(final(self)@, out@) == replica_msg_step(old(self)@, msg@, body@),
    {
        match parse_frame(msg) {
            Ok(Frame::Pixel(payload)) => match body {
                Body::Pixel(pixel) => self.handle_pixel_msg(payload.as_slice(), pixel),
                _ => nothing(),
            },
            Ok(Frame::AllPixels(arg)) => match body {
                Body::Pixels(pixels) => self.handle_all_pixels_msg(arg.as_slice(), pixels),
                _ => nothing(),
            },
            Ok(Frame::Candidate(k)) => self.take_token(Token::Candidate(k)),
            Ok(Frame::Leader(k)) => self.take_token(Token::Leader(k)),
            Ok(Frame::Disconnect(id)) => self.disconnect(id),
            Ok(Frame::NewConnection(arg)) => match body {
                Body::NewConnection(message) => self.handle_new_connection_msg(
                    arg.as_slice(),
                    message,
                ),
                _ => nothing(),
            },
            Ok(Frame::Sync(_)) => match body {
                Body::Sync(sync) => self.handle_sync_msg(sync),
                _ => nothing(),
            },
            Err(_) => nothing(),
        }
    }

    /// One turn of a replica that has a successor: takes a command of a
    /// session, a read on the link from the predecessor, or a replica that
    /// connects. Any other event is ignored. The error says that the
    /// predecessor is lost; the state is unchanged then.
    pub fn replica_stream_process(&mut self, event: Event) -> (turn: Result<Vec<Action>, LinkError>)
        requires
            old(self).wf(),
        ensures
            final(self).wf(),
            exists|fresh: u64| #[trigger] turn_is(old(self)@, event@, fresh, final(self)@, turn),
    {
        match event {
            Event::Command { cmd, now } => {
                let out = self.handle_command(cmd, now);
                proof {
                    let fresh = choose|fresh: u64|
                        step_of(self@, out@) == command_step(old(self)@, cmd@, now, fresh);
                    assert(turn_is(old(self)@, event@, fresh, self@, Ok(out)));
                }
                Ok(out)
            },
            Event::Received(chunk) => match self.handle_socket(chunk.as_slice()) {
                Ok(()) => {
                    let out = nothing();
                    proof {
                        assert(turn_is(old(self)@, event@, 0, self@, Ok(out)));
                    }
                    Ok(out)
                },
                Err(e) => {
                    proof {
                        assert(turn_is(old(self)@, event@, 0, self@, Err(e)));
                    }
                    Err(e)
                },
            },
            Event::Accepted(info) => {
                let out = self.handle_accepted_stream(info, false);
                proof {
                    assert(turn_is(old(self)@, event@, 0, self@, Ok(out)));
                }
                Ok(out)
            },
            _ => {
                let out = nothing();
                proof {
                    assert(turn_is(old(self)@, event@, 0, self@, Ok(out)));
                }
                Ok(out)
            },
        }
    }

    /// Takes any event and returns what is to be done. `fresh` below is the
    /// random id given to a session that attaches.
    pub fn run(&mut self, event: Event) -> (out: Vec<Action>)
        requires
            old(self).wf(),
        ensures
            final(self).wf(),
            exists|fresh: u64| step_of(final(self)@, out@) == run_step(old(self)@, event@, fresh),
    {
        match event {
            Event::Start => {
                let out = self.join();
                proof {
                    assert(step_of(self@, out@) == run_step(old(self)@, event@, 0));
                }
                out
            },
            Event::Frame { msg, body } => {
                let out = self.handle_replica_msg(msg.as_slice(), body);
                proof {
                    assert(step_of(self@, out@) == run_step(old(self)@, event@, 0));
                }
                out
            },
            Event::Dialed { id, purpose, connected } => {
                let out = self.handle_dial_result(id, purpose, connected);
                proof {
                    assert(step_of(self@, out@) == run_step(old(self)@, event@, 0));
                }
                out
            },
            Event::Stored { payload } => {
                let out = self.handle_pixel_stored(payload.as_slice());
                proof {
                    assert(step_of(self@, out@) == run_step(old(self)@, event@, 0));
                }
                out
            },
            Event::AckTimeout { payload } => {
                let out = self.handle_ack_timeout(payload.as_slice());
                proof {
                    assert(step_of(self@, out@) == run_step(old(self)@, event@, 0));
                }
                out
            },
            Event::SuccessorLost => {
                let out = self.handle_successor_lost();
                proof {
                    assert(step_of(self@, out@) == run_step(old(self)@, event@, 0));
                }
                out
            },
            Event::Command { cmd, now } => {
                if self.connected {
                    let ghost before = self@;
                    match self.replica_stream_process(Event::Command { cmd, now }) {
                        Ok(out) => {
                            proof {
                                let fresh = choose|fresh: u64| #[trigger]
                                    turn_is(before, event@, fresh, self@, Ok(out));
                                assert(step_of(self@, out@) == run_step(before, event@, fresh));
                            }
                            out
                        },
                        Err(e) => {
                            proof {
                                let fresh = choose|fresh: u64| #[trigger]
                                    turn_is(before, event@, fresh, self@, Err(e));
                                assert(false);
                            }
                            nothing()
                        },
                    }
                } else {
                    let out = self.handle_command(cmd, now);
                    proof {
                        let fresh = choose|fresh: u64|
                            step_of(self@, out@) == command_step(old(self)@, cmd@, now, fresh);
                        assert(step_of(self@, out@) == run_step(old(self)@, event@, fresh));
                    }
                    out
                }
            },
            Event::Received(chunk) => {
                if self.connected {
                    match self.replica_stream_process(Event::Received(chunk)) {
                        Ok(out) => {
                            proof {
                                let fresh = choose|fresh: u64| #[trigger]
                                    turn_is(old(self)@, event@, fresh, self@, Ok(out));
                                assert(step_of(self@, out@) == run_step(old(self)@, event@, 0));
                            }
                            out
                        },
                        Err(e) => {
                            proof {
                                let fresh = choose|fresh: u64| #[trigger]
                                    turn_is(old(self)@, event@, fresh, self@, Err(e));
                            }
                            let out = self.handle_predecessor_disconnect();
                            proof {
                                assert(step_of(self@, out@) == run_step(old(self)@, event@, 0));
                            }
                            out
                        },
                    }
                } else {
                    let out = nothing();
                    proof {
                        assert(step_of(self@, out@) == run_step(old(self)@, event@, 0));
                    }
                    out
                }
            },
            Event::Accepted(info) => {
                let alone = !self.connected;
                let out = self.handle_accepted_stream(info, alone);
                proof {
                    assert(step_of(self@, out@) == run_step(old(self)@, event@, 0));
                }
                out
            },
        }
    }
}

} // verus!
