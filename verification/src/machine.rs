//! The replica as a state machine over mathematical values.
//!
//! Each function here says what one kind of event does to the state of a
//! replica and which actions it asks for. The executable manager is held to
//! these functions; the laws of the ring are stated over them.

use vstd::prelude::*;
use crate::election::{election_start, election_step, ElectionState, ElectionStep, Token};
use crate::link::LinkError;
use crate::manifest::{
    entry_of, first_peer, has_active_peer, has_id, is_first_index, is_first_peer,
    lemma_without_id, only_active,
    predecessor_of, successor_of, unique_ids, with_active, without_id, DictView, NewConMessage,
    ReplicaInfo,
};
use crate::message::{ActionView, BodyView, CommandView, DialPurpose, EventView, SyncView};
use crate::pending::{
    after_return, after_settle, head_is, ledger_step, return_check, AckCheck, AckEvent, AckLedger,
    Notice, PendingAckView, ACK_TIMEOUT_MS,
};
use crate::pixel::Pixel;
use crate::protocol::{
    candidate_text, command_text, disconnect_text, leader_text, parse_election_spec,
    parse_frame_spec, parse_u16_spec, word_all_pixels, word_disconnect, word_election,
    word_new_connection, FrameView,
};
use crate::registry::{with_session, without_session, DeliveryView};

verus! {

/// The state of a replica.
pub struct ManagerView {
    pub id: u16,
    pub is_primary: bool,
    /// With this set, a secondary drops the pixels that reach it.
    pub debug: bool,
    pub election_running: bool,
    pub leader_id: u16,
    pub predecessor_id: u16,
    pub successor_id: u16,
    /// Whether a link to a successor stands.
    pub connected: bool,
    /// Set while a sync that this replica sent out is on its way round.
    pub sent_sync: bool,
    pub conn: DictView,
    pub sessions: Seq<u64>,
    pub pending: Seq<PendingAckView>,
    /// Bytes from the predecessor that are not yet taken as frames.
    pub inbound: Seq<u8>,
    /// The departures that this replica has announced to the ring itself,
    /// after a write to its successor had failed.
    pub announced: Set<u16>,
}

/// The state after an event, and the actions that the event asks for.
pub struct Step {
    pub next: ManagerView,
    pub actions: Seq<ActionView>,
}

/// Nothing changes and nothing is to be done.
pub open spec fn stay(s: ManagerView) -> Step {
    Step { next: s, actions: Seq::empty() }
}

/// The manifest names each replica once, and each session is listed once.
pub open spec fn view_wf(s: ManagerView) -> bool {
    unique_ids(s.conn.backend) && s.sessions.no_duplicates()
}

/// The bytes of `primary`.
pub open spec fn text_primary() -> Seq<u8> {
    seq![112, 114, 105, 109, 97, 114, 121]
}

/// The bytes of `replicated: `.
pub open spec fn prefix_replicated() -> Seq<u8> {
    seq![114, 101, 112, 108, 105, 99, 97, 116, 101, 100, 58, 32]
}

/// The bytes of `unreplicated: `.
pub open spec fn prefix_unreplicated() -> Seq<u8> {
    seq![117, 110, 114, 101, 112, 108, 105, 99, 97, 116, 101, 100, 58, 32]
}

/// `text` for every session, in order.
pub open spec fn notify(sessions: Seq<u64>, text: Seq<u8>) -> Seq<ActionView> {
    Seq::new(
        sessions.len(),
        |i: int| ActionView::Deliver(DeliveryView { conn: sessions[i], text }),
    )
}

/// The manifest with another backend list.
pub open spec fn with_backend(s: ManagerView, backend: Seq<ReplicaInfo>) -> ManagerView {
    ManagerView { conn: DictView { backend, ..s.conn }, ..s }
}

/// What the replica knows about the election.
pub open spec fn election_of(s: ManagerView) -> ElectionState {
    ElectionState {
        id: s.id,
        leader_id: s.leader_id,
        is_primary: s.is_primary,
        election_running: s.election_running,
    }
}

/// The frame that carries a token.
pub open spec fn token_text(token: Token) -> Seq<u8> {
    match token {
        Token::Candidate(k) => candidate_text(k),
        Token::Leader(k) => leader_text(k),
    }
}

/// The replica after a step of the election: the token to pass on goes to
/// the successor, and a replica that has become primary tells its sessions.
pub open spec fn apply_election(s: ManagerView, e: ElectionStep) -> Step {
    let forward = match e.forward {
        Some(token) => seq![ActionView::Send(token_text(token))],
        None => Seq::empty(),
    };
    let announce = if e.announce {
        notify(s.sessions, text_primary())
    } else {
        Seq::empty()
    };
    Step {
        next: ManagerView {
            leader_id: e.next.leader_id,
            is_primary: e.next.is_primary,
            election_running: e.next.election_running,
            ..s
        },
        actions: forward + announce,
    }
}

/// The replica starts an election.
pub open spec fn initiate_election_step(s: ManagerView) -> Step {
    apply_election(s, election_start(election_of(s)))
}

/// An election token arrives.
pub open spec fn token_step(s: ManagerView, token: Token) -> Step {
    apply_election(s, election_step(election_of(s), token))
}

/// The argument of an `/election` frame arrives. One of unknown kind is
/// dropped.
pub open spec fn election_msg_step(s: ManagerView, msg: Seq<u8>) -> Step {
    match parse_election_spec(msg) {
        Ok(FrameView::Candidate(k)) => token_step(s, Token::Candidate(k)),
        Ok(FrameView::Leader(k)) => token_step(s, Token::Leader(k)),
        _ => stay(s),
    }
}

/// A raw pixel arrives from the predecessor. A secondary stores it, unless
/// it is in debug mode and drops it. The primary stores it if it is the
/// update that it expects back; an older update in front of the queue is
/// given up.
pub open spec fn pixel_msg_step(s: ManagerView, msg: Seq<u8>, pixel: Pixel) -> Step {
    let store = seq![ActionView::Store { pixel, payload: msg }];
    if !s.is_primary {
        if s.debug {
            stay(s)
        } else {
            Step { next: s, actions: store }
        }
    } else {
        Step {
            next: ManagerView { pending: after_return(s.pending, msg), ..s },
            actions: if return_check(s.pending, msg) == AckCheck::Expected {
                store
            } else {
                Seq::empty()
            },
        }
    }
}

/// A pixel has been stored. A secondary passes it on; the primary takes it
/// off its queue and tells the sessions that it is replicated.
pub open spec fn pixel_stored_step(s: ManagerView, payload: Seq<u8>) -> Step {
    if !s.is_primary {
        if s.debug {
            stay(s)
        } else {
            Step { next: s, actions: seq![ActionView::Send(payload)] }
        }
    } else if head_is(s.pending, payload) {
        Step {
            next: ManagerView { pending: after_settle(s.pending, payload), ..s },
            actions: notify(s.sessions, prefix_replicated() + payload),
        }
    } else {
        stay(s)
    }
}

/// An `/all_pixels` frame arrives. The primary ignores it; a secondary
/// replaces its canvas and passes the frame on.
pub open spec fn all_pixels_step(s: ManagerView, msg: Seq<u8>, pixels: Seq<Pixel>) -> Step {
    if s.is_primary {
        stay(s)
    } else {
        Step {
            next: s,
            actions: seq![
                ActionView::ReplaceCanvas(pixels),
                ActionView::Send(command_text(word_all_pixels(), msg)),
            ],
        }
    }
}

/// A `/sync` frame arrives. A sync whose manifest names a replica twice is
/// dropped. A secondary takes over canvas, manifest and leader, notes who
/// sent the frame, and passes it on under its own name. The primary does
/// not pass it on: it takes over manifest and leader from a sync that it
/// did not send, and clears its mark when its own sync has come round.
pub open spec fn sync_step(s: ManagerView, sync: SyncView) -> Step {
    if !unique_ids(sync.conn.backend) {
        stay(s)
    } else if s.is_primary {
        if s.sent_sync {
            Step {
                next: ManagerView {
                    sent_sync: false,
                    predecessor_id: sync.predecessor_id,
                    ..s
                },
                actions: Seq::empty(),
            }
        } else {
            Step {
                next: ManagerView {
                    conn: sync.conn,
                    leader_id: sync.leader,
                    predecessor_id: sync.predecessor_id,
                    ..s
                },
                actions: Seq::empty(),
            }
        }
    } else {
        Step {
            next: ManagerView {
                conn: sync.conn,
                leader_id: sync.leader,
                predecessor_id: sync.predecessor_id,
                ..s
            },
            actions: seq![
                ActionView::ReplaceCanvas(sync.pixels),
                ActionView::SendSync(SyncView { predecessor_id: s.id, ..sync }),
            ],
        }
    }
}

/// A `/new_connection` frame arrives. The replica whose successor is the
/// member in front of which the newcomer enters opens a link to the
/// newcomer; every other replica passes the frame on.
pub open spec fn new_connection_step(s: ManagerView, msg: Seq<u8>, m: NewConMessage) -> Step {
    if m.effecting.id != s.successor_id {
        Step {
            next: s,
            actions: seq![ActionView::Send(command_text(word_new_connection(), msg))],
        }
    } else {
        Step {
            next: s,
            actions: seq![ActionView::Dial { peer: m.from, purpose: DialPurpose::Retarget }],
        }
    }
}

/// The replica on its own: primary, its own leader, without a successor.
pub open spec fn alone(s: ManagerView) -> ManagerView {
    ManagerView { is_primary: true, connected: false, leader_id: s.id, ..s }
}

/// The successor `departed` is gone and is struck from the manifest of `s`
/// already. The replica turns to the next active replica of the ring; where
/// there is none, it is alone from now on and tells its sessions that it is
/// primary.
pub open spec fn retarget_step(s: ManagerView, departed: u16, announce: bool) -> Step {
    let next_id = successor_of(s.conn.backend, s.id);
    if next_id != s.id && has_id(s.conn.backend, next_id) {
        Step {
            next: ManagerView { successor_id: next_id, ..s },
            actions: seq![
                ActionView::Dial {
                    peer: entry_of(s.conn.backend, next_id),
                    purpose: DialPurpose::Reconnect { departed, announce },
                },
            ],
        }
    } else {
        Step { next: alone(s), actions: notify(s.sessions, text_primary()) }
    }
}

/// A `/disconnect` frame about `gone` is the one that this replica sent out
/// itself: it has announced that departure, and its manifest has not named
/// `gone` again since.
pub open spec fn own_announcement(s: ManagerView, gone: u16) -> bool {
    s.announced.contains(gone) && !has_id(s.conn.backend, gone)
}

/// A `/disconnect` frame arrives: the replica `gone` has left. It is struck
/// from the manifest. If it was the successor, the replica turns to the
/// next one, and the frame ends here. Otherwise the frame is passed on.
///
/// One frame is taken off the ring by another rule. A replica that has lost
/// its successor by a failed write mends the ring first and announces the
/// departure afterwards, so that no replica has the departed one as
/// successor when the frame passes: that frame ends at the replica that
/// announced it.
pub open spec fn disconnect_step(s: ManagerView, gone: u16) -> Step {
    let pruned = with_backend(
        ManagerView { announced: s.announced.remove(gone), ..s },
        without_id(s.conn.backend, gone),
    );
    if gone == s.successor_id {
        retarget_step(pruned, gone, false)
    } else if own_announcement(s, gone) {
        stay(s)
    } else {
        Step { next: pruned, actions: seq![ActionView::Send(disconnect_text(gone))] }
    }
}

/// The argument of a `/disconnect` frame arrives. One that names no
/// replica is dropped: nothing changes.
pub open spec fn disconnect_msg_step(s: ManagerView, msg: Seq<u8>) -> Step {
    match parse_u16_spec(msg) {
        Some(gone) => disconnect_step(s, gone),
        None => stay(s),
    }
}

/// A write to the successor has failed. The successor is struck from the
/// manifest and the replica turns to the next one; once that link stands,
/// the departure is made known to the ring.
pub open spec fn successor_lost_step(s: ManagerView) -> Step {
    if !s.connected || s.successor_id == s.id {
        stay(s)
    } else {
        retarget_step(
            with_backend(
                ManagerView { connected: false, ..s },
                without_id(s.conn.backend, s.successor_id),
            ),
            s.successor_id,
            true,
        )
    }
}

/// The predecessor has closed its link. It is struck from the manifest. A
/// replica that is not in the manifest itself gives up. One without an
/// active peer is alone from now on and tells its sessions that it is
/// primary. Any other makes the departure known to the ring and waits for
/// its new predecessor to connect.
pub open spec fn predecessor_disconnect_step(s: ManagerView) -> Step {
    let backend = without_id(s.conn.backend, s.predecessor_id);
    let pruned = with_backend(ManagerView { inbound: Seq::empty(), ..s }, backend);
    if !has_id(backend, s.id) {
        Step { next: pruned, actions: seq![ActionView::Exit] }
    } else if !has_active_peer(backend, s.id) {
        Step { next: alone(pruned), actions: notify(s.sessions, text_primary()) }
    } else {
        Step {
            next: ManagerView { predecessor_id: predecessor_of(backend, s.id), ..pruned },
            actions: seq![
                ActionView::Send(disconnect_text(s.predecessor_id)),
                ActionView::AcceptPredecessor,
            ],
        }
    }
}

/// When an update submitted at `now` is given up.
pub open spec fn deadline_after(now: u64) -> u64 {
    if now + ACK_TIMEOUT_MS > u64::MAX {
        u64::MAX
    } else {
        (now + ACK_TIMEOUT_MS) as u64
    }
}

/// A session attaches and is given the id `conn`. A primary tells its
/// sessions, the new one among them, that it is primary.
pub open spec fn connect_step(s: ManagerView, conn: u64) -> Step {
    let sessions = with_session(s.sessions, conn);
    Step {
        next: ManagerView { sessions, ..s },
        actions: seq![ActionView::Registered { conn }] + (if s.is_primary {
            notify(sessions, text_primary())
        } else {
            Seq::empty()
        }),
    }
}

/// A session submits an update at time `now`. A replica without a successor
/// confirms it at once. A primary queues it, sets its timer and sends it
/// round the ring; a secondary only sends it on, and in debug mode drops
/// it.
pub open spec fn submit_step(s: ManagerView, conn: u64, msg: Seq<u8>, now: u64) -> Step {
    if !s.connected {
        Step { next: s, actions: notify(s.sessions, prefix_replicated() + msg) }
    } else if s.is_primary {
        let entry = PendingAckView { payload: msg, deadline: deadline_after(now), conn_id: conn };
        Step {
            next: ManagerView { pending: s.pending.push(entry), ..s },
            actions: seq![
                ActionView::StartTimer { payload: msg, deadline: deadline_after(now) },
                ActionView::Send(msg),
            ],
        }
    } else if s.debug {
        stay(s)
    } else {
        Step { next: s, actions: seq![ActionView::Send(msg)] }
    }
}

/// A local session asks for something. `fresh` is the id that a session
/// which attaches is given.
pub open spec fn command_step(s: ManagerView, cmd: CommandView, now: u64, fresh: u64) -> Step {
    match cmd {
        CommandView::Connect => connect_step(s, fresh),
        CommandView::Message { conn, msg } => submit_step(s, conn, msg, now),
        CommandView::Disconnect { conn } => Step {
            next: ManagerView { sessions: without_session(s.sessions, conn), ..s },
            actions: Seq::empty(),
        },
    }
}

/// The timer of the update `payload` fires. If the update is still the
/// oldest one pending, it is given up and the sessions are told.
pub open spec fn ack_timeout_step(s: ManagerView, payload: Seq<u8>) -> Step {
    if head_is(s.pending, payload) {
        Step {
            next: ManagerView { pending: after_settle(s.pending, payload), ..s },
            actions: notify(s.sessions, prefix_unreplicated() + payload),
        }
    } else {
        stay(s)
    }
}

/// A read on the link from the predecessor has returned `chunk`.
pub open spec fn socket_step(s: ManagerView, chunk: Seq<u8>) -> Result<ManagerView, LinkError> {
    if chunk.len() == 0 {
        Err(LinkError::PredecessorLost)
    } else {
        Ok(ManagerView { inbound: s.inbound + chunk, ..s })
    }
}

/// The replica sends out a sync of its own.
pub open spec fn initial_sync_step(s: ManagerView) -> Step {
    Step {
        next: ManagerView { sent_sync: true, ..s },
        actions: seq![
            ActionView::SendSnapshot { conn: s.conn, leader: s.leader_id, predecessor_id: s.id },
        ],
    }
}

/// A replica has connected and sent its record `info`. It enters the
/// manifest, in place of any entry of the same id, and is the predecessor
/// from now on. A replica that was alone opens a link to it in turn. Any
/// other tells the ring, so that the replica in front retargets, and sends
/// out a sync.
pub open spec fn accepted_step(s: ManagerView, info: ReplicaInfo, was_alone: bool) -> Step {
    let backend = without_id(s.conn.backend, info.id).push(info);
    let base = with_backend(
        ManagerView { predecessor_id: info.id, inbound: Seq::empty(), ..s },
        backend,
    );
    if was_alone {
        Step {
            next: base,
            actions: seq![ActionView::Dial { peer: info, purpose: DialPurpose::Splice }],
        }
    } else if has_id(backend, s.id) {
        let sync = initial_sync_step(base);
        Step {
            next: sync.next,
            actions: seq![
                ActionView::SendNewConnection(
                    NewConMessage { from: info, effecting: entry_of(backend, s.id) },
                ),
            ] + sync.actions,
        }
    } else {
        Step { next: base, actions: seq![ActionView::Exit] }
    }
}

/// The replica looks for a peer to join: the first active one in the
/// manifest. Where none is left, the inactive entries are dropped.
pub open spec fn try_connect_step(s: ManagerView) -> Step {
    if has_active_peer(s.conn.backend, s.id) {
        Step {
            next: s,
            actions: seq![
                ActionView::Dial {
                    peer: first_peer(s.conn.backend, s.id),
                    purpose: DialPurpose::Join,
                },
            ],
        }
    } else {
        Step { next: with_backend(s, only_active(s.conn.backend)), actions: Seq::empty() }
    }
}

/// The replica starts to run on its own.
pub open spec fn enter_alone_step(s: ManagerView) -> Step {
    Step { next: alone(s), actions: Seq::empty() }
}

/// The replica tries to join; where no peer is left to try, it runs on its
/// own.
pub open spec fn join_step(s: ManagerView) -> Step {
    let attempt = try_connect_step(s);
    if attempt.actions.len() == 0 {
        enter_alone_step(attempt.next)
    } else {
        attempt
    }
}

/// The outcome of opening a link to the replica `id`.
pub open spec fn dial_result_step(
    s: ManagerView,
    id: u16,
    purpose: DialPurpose,
    connected: bool,
) -> Step {
    match purpose {
        DialPurpose::Join => {
            if connected {
                let backend = only_active(s.conn.backend);
                let joined = with_backend(
                    ManagerView { successor_id: id, connected: true, is_primary: false, ..s },
                    backend,
                );
                if has_id(backend, s.id) {
                    Step {
                        next: joined,
                        actions: seq![
                            ActionView::Announce(entry_of(backend, s.id)),
                            ActionView::AcceptPredecessor,
                        ],
                    }
                } else {
                    Step { next: joined, actions: seq![ActionView::Exit] }
                }
            } else {
                join_step(with_backend(s, with_active(s.conn.backend, id, false)))
            }
        },
        DialPurpose::Retarget => {
            if connected {
                Step {
                    next: ManagerView { successor_id: id, connected: true, ..s },
                    actions: Seq::empty(),
                }
            } else {
                stay(s)
            }
        },
        DialPurpose::Reconnect { departed, announce } => {
            if connected {
                let linked = ManagerView { connected: true, ..s };
                let election = if departed == s.leader_id {
                    initiate_election_step(linked)
                } else {
                    stay(linked)
                };
                if announce {
                    Step {
                        next: ManagerView {
                            announced: s.announced.insert(departed),
                            ..election.next
                        },
                        actions: election.actions + seq![
                            ActionView::Send(disconnect_text(departed)),
                        ],
                    }
                } else {
                    election
                }
            } else {
                Step { next: s, actions: seq![ActionView::Exit] }
            }
        },
        DialPurpose::Splice => {
            if connected {
                initial_sync_step(ManagerView { successor_id: id, connected: true, ..s })
            } else {
                Step { next: s, actions: seq![ActionView::Exit] }
            }
        },
    }
}

/// A frame arrives from the predecessor, with its decoded JSON. A frame
/// that cannot be read, or whose JSON is missing or of another kind than
/// the frame asks for, is dropped.
pub open spec fn replica_msg_step(s: ManagerView, msg: Seq<u8>, body: BodyView) -> Step {
    match parse_frame_spec(msg) {
        Ok(FrameView::Pixel(payload)) => match body {
            BodyView::Pixel(pixel) => pixel_msg_step(s, payload, pixel),
            _ => stay(s),
        },
        Ok(FrameView::AllPixels(arg)) => match body {
            BodyView::Pixels(pixels) => all_pixels_step(s, arg, pixels),
            _ => stay(s),
        },
        Ok(FrameView::Candidate(k)) => token_step(s, Token::Candidate(k)),
        Ok(FrameView::Leader(k)) => token_step(s, Token::Leader(k)),
        Ok(FrameView::Disconnect(id)) => disconnect_step(s, id),
        Ok(FrameView::NewConnection(arg)) => match body {
            BodyView::NewConnection(m) => new_connection_step(s, arg, m),
            _ => stay(s),
        },
        Ok(FrameView::Sync(_)) => match body {
            BodyView::Sync(sync) => sync_step(s, sync),
            _ => stay(s),
        },
        Err(_) => stay(s),
    }
}

/// One turn of a replica that has a successor: a command of a session, a
/// read on the link from the predecessor, or a replica that connects.
pub open spec fn stream_step(s: ManagerView, e: EventView, fresh: u64) -> Result<Step, LinkError> {
    match e {
        EventView::Command { cmd, now } => Ok(command_step(s, cmd, now, fresh)),
        EventView::Received(chunk) => match socket_step(s, chunk) {
            Ok(next) => Ok(Step { next, actions: Seq::empty() }),
            Err(e) => Err(e),
        },
        EventView::Accepted(info) => Ok(accepted_step(s, info, false)),
        _ => Ok(stay(s)),
    }
}

/// What any event does to the replica.
pub open spec fn run_step(s: ManagerView, e: EventView, fresh: u64) -> Step {
    match e {
        EventView::Start => join_step(s),
        EventView::Frame { msg, body } => replica_msg_step(s, msg, body),
        EventView::Dialed { id, purpose, connected } => dial_result_step(s, id, purpose, connected),
        EventView::Stored { payload } => pixel_stored_step(s, payload),
        EventView::AckTimeout { payload } => ack_timeout_step(s, payload),
        EventView::SuccessorLost => successor_lost_step(s),
        _ => {
            if s.connected {
                match stream_step(s, e, fresh) {
                    Ok(step) => step,
                    Err(_) => predecessor_disconnect_step(s),
                }
            } else {
                match e {
                    EventView::Command { cmd, now } => command_step(s, cmd, now, fresh),
                    EventView::Accepted(info) => accepted_step(s, info, true),
                    _ => stay(s),
                }
            }
        },
    }
}

/// The frame is a command: it begins with `/`.
pub open spec fn is_command_frame(frame: Seq<u8>) -> bool {
    frame.len() > 0 && frame[0] == 47
}

/// No action sends a frame that is not a command.
pub open spec fn sends_commands_only(actions: Seq<ActionView>) -> bool {
    forall|i: int|
        0 <= i < actions.len() ==> (#[trigger] actions[i] matches ActionView::Send(frame)
            ==> is_command_frame(frame))
}

/// The frames of the election, of a departure and of a join are commands.
pub proof fn lemma_command_frames(id: u16, arg: Seq<u8>)
    ensures
        is_command_frame(candidate_text(id)),
        is_command_frame(leader_text(id)),
        is_command_frame(disconnect_text(id)),
        is_command_frame(command_text(word_all_pixels(), arg)),
        is_command_frame(command_text(word_new_connection(), arg)),
{
    assert(word_election()[0] == 47);
    assert(word_disconnect()[0] == 47);
    assert(word_all_pixels()[0] == 47);
    assert(word_new_connection()[0] == 47);
    assert(candidate_text(id)[0] == word_election()[0]);
    assert(leader_text(id)[0] == word_election()[0]);
    assert(disconnect_text(id)[0] == word_disconnect()[0]);
    assert(command_text(word_all_pixels(), arg)[0] == word_all_pixels()[0]);
    assert(command_text(word_new_connection(), arg)[0] == word_new_connection()[0]);
}

/// No forwarding in debug mode. Whatever happens to a secondary in debug
/// mode, no raw pixel leaves for its successor: every frame that it sends
/// is a command.
pub proof fn lemma_debug_forwards_no_pixel(s: ManagerView, e: EventView, fresh: u64)
    requires
        s.debug,
        !s.is_primary,
    ensures
        sends_commands_only(run_step(s, e, fresh).actions),
{
    let actions = run_step(s, e, fresh).actions;
    assert forall|i: int| 0 <= i < actions.len() implies (#[trigger] actions[i] matches ActionView::Send(
        frame,
    ) ==> is_command_frame(frame)) by {
        if actions[i] matches ActionView::Send(frame) {
            lemma_sent_frame(s, e, fresh, i);
        }
    }
}

/// The frame that an action of a step sends is a command, in the situation
/// of `lemma_debug_forwards_no_pixel`.
proof fn lemma_sent_frame(s: ManagerView, e: EventView, fresh: u64, i: int)
    requires
        s.debug,
        !s.is_primary,
        0 <= i < run_step(s, e, fresh).actions.len(),
        run_step(s, e, fresh).actions[i] is Send,
    ensures
        is_command_frame(run_step(s, e, fresh).actions[i]->Send_0),
{
    match e {
        EventView::Frame { msg, body } => {
            match parse_frame_spec(msg) {
                Ok(FrameView::AllPixels(arg)) => {
                    lemma_command_frames(0, arg);
                },
                Ok(FrameView::Candidate(k)) => {
                    lemma_command_frames(k, msg);
                    lemma_command_frames(s.id, msg);
                },
                Ok(FrameView::Leader(k)) => {
                    lemma_command_frames(k, msg);
                },
                Ok(FrameView::Disconnect(gone)) => {
                    lemma_command_frames(gone, msg);
                },
                Ok(FrameView::NewConnection(arg)) => {
                    lemma_command_frames(0, arg);
                },
                _ => {},
            }
        },
        EventView::Dialed { id, purpose, connected } => {
            match purpose {
                DialPurpose::Reconnect { departed, announce } => {
                    lemma_command_frames(s.id, Seq::empty());
                    lemma_command_frames(departed, Seq::empty());
                },
                _ => {},
            }
        },
        EventView::Received(_) => {
            lemma_command_frames(s.predecessor_id, Seq::empty());
        },
        _ => {},
    }
}

/// The election of the ring is the election of its replicas: what a token
/// does to a replica's view of the election, and the token that the replica
/// passes on, are those of `election_step`.
pub proof fn lemma_token_step_is_election_step(s: ManagerView, token: Token)
    ensures
        election_of(token_step(s, token).next) == election_step(election_of(s), token).next,
        match election_step(election_of(s), token).forward {
            Some(next) => token_step(s, token).actions.len() > 0 && token_step(s, token).actions[0]
                == ActionView::Send(token_text(next)),
            None => sends_commands_only(token_step(s, token).actions) && forall|i: int|
                0 <= i < token_step(s, token).actions.len() ==> !(#[trigger] token_step(
                    s,
                    token,
                ).actions[i] is Send),
        },
        election_of(initiate_election_step(s).next) == election_start(election_of(s)).next,
        initiate_election_step(s).actions == seq![ActionView::Send(candidate_text(s.id))],
{
    assert(initiate_election_step(s).actions =~= seq![ActionView::Send(candidate_text(s.id))]);
}

/// `j` is the first position after `i` of an active entry that does not
/// carry `id`.
pub open spec fn is_next_peer(b: Seq<ReplicaInfo>, id: u16, i: int, j: int) -> bool {
    &&& i < j < b.len()
    &&& b[j].id != id
    &&& b[j].active
    &&& forall|k: int| i < k < j ==> !(b[k].id != id && b[k].active)
}

/// A joining replica tries the active peers in the order of the manifest.
/// It asks first for a link to the first active peer, at position `i`.
/// Where that link stands, the peer is its successor and the replica is a
/// secondary. Where it fails, the peer is marked inactive and the replica
/// asks for a link to the next active peer after `i`; where there is none,
/// it keeps the active entries only and runs on its own, as primary and its
/// own leader.
pub proof fn lemma_join_tries_peers_in_order(s: ManagerView, i: int, j: int)
    requires
        view_wf(s),
        is_first_peer(s.conn.backend, s.id, i),
    ensures
        ({
            let b = s.conn.backend;
            let rest = with_active(b, b[i].id, false);
            let linked = dial_result_step(s, b[i].id, DialPurpose::Join, true);
            let failed = dial_result_step(s, b[i].id, DialPurpose::Join, false);
            &&& try_connect_step(s) == Step {
                next: s,
                actions: seq![ActionView::Dial { peer: b[i], purpose: DialPurpose::Join }],
            }
            &&& linked.next.successor_id == b[i].id && linked.next.connected
                && !linked.next.is_primary
            &&& is_next_peer(b, s.id, i, j) ==> failed == Step {
                next: with_backend(s, rest),
                actions: seq![ActionView::Dial { peer: b[j], purpose: DialPurpose::Join }],
            }
            &&& (forall|k: int| i < k < b.len() ==> !(b[k].id != s.id && b[k].active)) ==> failed
                == Step { next: alone(with_backend(s, only_active(rest))), actions: Seq::empty() }
        }),
{
    let b = s.conn.backend;
    let rest = with_active(b, b[i].id, false);
    assert(has_active_peer(b, s.id));
    let c = choose|c: int| is_first_peer(b, s.id, c);
    assert(c == i);
    crate::manifest::lemma_with_active(b, b[i].id, false);
    assert forall|k: int| 0 <= k < b.len() && k != i implies rest[k] == b[k] by {}
    assert(!rest[i].active);
    if is_next_peer(b, s.id, i, j) {
        assert(is_first_peer(rest, s.id, j)) by {
            assert forall|k: int| 0 <= k < j implies !(rest[k].id != s.id && rest[k].active) by {
                if k != i {
                    assert(rest[k] == b[k]);
                }
            }
        }
        assert(has_active_peer(rest, s.id));
        let d = choose|d: int| is_first_peer(rest, s.id, d);
        assert(d == j);
    }
    if forall|k: int| i < k < b.len() ==> !(b[k].id != s.id && b[k].active) {
        assert(!has_active_peer(rest, s.id)) by {
            if has_active_peer(rest, s.id) {
                let k = choose|k: int| 0 <= k < rest.len() && rest[k].id != s.id && rest[k].active;
                assert(k != i);
                assert(rest[k] == b[k]);
            }
        }
    }
}

/// A departure is passed on by every replica but the one in front of the
/// departed. A replica whose successor is another than `gone`, and for
/// which the frame is not its own announcement come back, strikes `gone`
/// from its manifest, keeping the other entries in their order, and sends
/// the one frame `/disconnect gone`. Nothing else changes: successor,
/// leader and election are as before. This holds whether or not the
/// manifest names `gone`.
pub proof fn lemma_departure_is_passed_on(s: ManagerView, gone: u16)
    requires
        gone != s.successor_id,
        !own_announcement(s, gone),
    ensures
        disconnect_step(s, gone).actions == seq![ActionView::Send(disconnect_text(gone))],
        disconnect_step(s, gone).next == with_backend(
            ManagerView { announced: s.announced.remove(gone), ..s },
            without_id(s.conn.backend, gone),
        ),
        !s.announced.contains(gone) ==> disconnect_step(s, gone).next == with_backend(
            s,
            without_id(s.conn.backend, gone),
        ),
        replica_msg_step(s, disconnect_text(gone), BodyView::Absent) == disconnect_step(s, gone),
{
    if !s.announced.contains(gone) {
        assert(s.announced.remove(gone) =~= s.announced);
    }
    crate::protocol::lemma_frames_round_trip(gone);
}

/// The announcement of a lost successor ends at the replica that made it.
/// A replica whose write to its successor has failed, and which has another
/// replica to turn to, asks for a link to that one; once the link stands,
/// its last frame is `/disconnect` with the id of the lost successor. When
/// that frame has done its round and arrives again, the replica sends
/// nothing and changes nothing.
pub proof fn lemma_own_announcement_ends(s: ManagerView)
    requires
        view_wf(s),
        s.connected,
        s.successor_id != s.id,
        successor_lost_step(s).actions.len() == 1,
        successor_lost_step(s).actions[0] is Dial,
    ensures
        ({
            let gone = s.successor_id;
            let lost = successor_lost_step(s);
            let purpose = DialPurpose::Reconnect { departed: gone, announce: true };
            let dialed = dial_result_step(lost.next, lost.next.successor_id, purpose, true);
            &&& lost.actions[0]->Dial_purpose == purpose
            &&& lost.actions[0]->Dial_peer.id == lost.next.successor_id
            &&& dialed.actions.last() == ActionView::Send(disconnect_text(gone))
            &&& dialed.next.connected
            &&& disconnect_step(dialed.next, gone) == stay(dialed.next)
            &&& replica_msg_step(dialed.next, disconnect_text(gone), BodyView::Absent) == stay(
                dialed.next,
            )
        }),
{
    let gone = s.successor_id;
    let pruned = without_id(s.conn.backend, gone);
    lemma_without_id(s.conn.backend, gone);
    let next_id = successor_of(pruned, s.id);
    if next_id != s.id && has_id(pruned, next_id) {
        let k = choose|k: int| 0 <= k < pruned.len() && pruned[k].id == next_id;
        assert(pruned[k].id != gone);
        crate::manifest::lemma_first_index_exists(pruned, next_id, pruned.len() as int);
        if has_id(pruned, gone) {
            let j = choose|j: int| 0 <= j < pruned.len() && pruned[j].id == gone;
            assert(pruned[j].id != gone);
        }
        crate::protocol::lemma_frames_round_trip(gone);
    } else {
        assert(notify(s.sessions, text_primary())[0] is Deliver);
    }
}

/// A join into a cluster of one. A replica that is alone and primary takes
/// in a newcomer whose id the manifest does not hold yet: it asks for a
/// link to the newcomer; once that stands, the newcomer is the last entry
/// of the manifest, predecessor and successor at once, the replica is still
/// primary, and it sends one sync with every pixel of its store, its
/// manifest, its leader and its own id. When that sync has come round, the
/// replica is primary as before and has cleared its mark.
pub proof fn lemma_lonely_replica_takes_newcomer(
    s: ManagerView,
    info: ReplicaInfo,
    back: SyncView,
    fresh: u64,
)
    requires
        view_wf(s),
        s.is_primary,
        !s.connected,
        !has_id(s.conn.backend, info.id),
        unique_ids(back.conn.backend),
    ensures
        ({
            let manifest = DictView { backend: s.conn.backend.push(info), ..s.conn };
            let accepted = run_step(s, EventView::Accepted(info), fresh);
            let linked = run_step(
                accepted.next,
                EventView::Dialed { id: info.id, purpose: DialPurpose::Splice, connected: true },
                fresh,
            );
            let round = sync_step(linked.next, back);
            &&& accepted.actions == seq![
                ActionView::Dial { peer: info, purpose: DialPurpose::Splice },
            ]
            &&& linked.next.conn == manifest
            &&& linked.next.predecessor_id == info.id
            &&& linked.next.successor_id == info.id
            &&& linked.next.connected
            &&& linked.next.is_primary
            &&& linked.next.leader_id == s.leader_id
            &&& linked.actions == seq![
                ActionView::SendSnapshot { conn: manifest, leader: s.leader_id, predecessor_id: s.id },
            ]
            &&& round.actions.len() == 0
            &&& round.next == (ManagerView {
                sent_sync: false,
                predecessor_id: back.predecessor_id,
                ..linked.next
            })
        }),
{
    lemma_without_id(s.conn.backend, info.id);
}

/// A join into a ring. A member takes in a newcomer whose id the manifest
/// does not hold yet: the newcomer is the last entry of the manifest and
/// the predecessor from now on, the successor stays, and two frames go to
/// the successor: `/new_connection` with the newcomer and the member's own
/// record, then one sync. The replica whose successor that member is asks
/// for a link to the newcomer when the frame reaches it, and has the
/// newcomer as successor once the link stands; every other replica passes
/// the frame on.
pub proof fn lemma_member_takes_newcomer(
    s: ManagerView,
    info: ReplicaInfo,
    other: ManagerView,
    arg: Seq<u8>,
)
    requires
        view_wf(s),
        has_id(s.conn.backend, s.id),
        !has_id(s.conn.backend, info.id),
    ensures
        ({
            let manifest = DictView { backend: s.conn.backend.push(info), ..s.conn };
            let own = entry_of(s.conn.backend, s.id);
            let accepted = accepted_step(s, info, false);
            let message = NewConMessage { from: info, effecting: own };
            let reached = new_connection_step(other, arg, message);
            &&& accepted.next.conn == manifest
            &&& accepted.next.predecessor_id == info.id
            &&& accepted.next.successor_id == s.successor_id
            &&& accepted.actions == seq![
                ActionView::SendNewConnection(message),
                ActionView::SendSnapshot { conn: manifest, leader: s.leader_id, predecessor_id: s.id },
            ]
            &&& own.id == s.id
            &&& reached.next == other
            &&& if other.successor_id == s.id {
                &&& reached.actions == seq![
                    ActionView::Dial { peer: info, purpose: DialPurpose::Retarget },
                ]
                &&& dial_result_step(other, info.id, DialPurpose::Retarget, true).next == (
                ManagerView { successor_id: info.id, connected: true, ..other })
            } else {
                reached.actions == seq![ActionView::Send(command_text(word_new_connection(), arg))]
            }
        }),
{
    let b = s.conn.backend;
    lemma_without_id(b, info.id);
    let after = b.push(info);
    crate::manifest::lemma_first_index_exists(b, s.id, b.len() as int);
    let first = choose|f: int| is_first_index(b, s.id, f);
    assert(is_first_index(after, s.id, first)) by {
        assert(after[first] == b[first]);
        assert forall|j: int| 0 <= j < first implies after[j].id != s.id by {
            assert(after[j] == b[j]);
        }
    }
    let chosen = choose|f: int| is_first_index(after, s.id, f);
    assert(chosen == first);
    assert(has_id(after, s.id)) by {
        assert(after[first].id == s.id);
    }
    assert(entry_of(after, s.id) == entry_of(b, s.id));
    let accepted = accepted_step(s, info, false);
    assert(accepted.actions =~= seq![
        ActionView::SendNewConnection(
            NewConMessage { from: info, effecting: entry_of(b, s.id) },
        ),
        ActionView::SendSnapshot {
            conn: DictView { backend: after, ..s.conn },
            leader: s.leader_id,
            predecessor_id: s.id,
        },
    ]);
}

/// What the sessions are told about the update `payload`.
pub open spec fn notice_text(notice: Notice, payload: Seq<u8>) -> Seq<u8> {
    match notice {
        Notice::Replicated => prefix_replicated() + payload,
        Notice::Unreplicated => prefix_unreplicated() + payload,
    }
}

/// The primary keeps the ledger. On a connected primary whose queue is that
/// of the ledger, a submission, a pixel that has come back (and, where it is
/// the one expected, is stored), and a timer that fires change the queue as
/// `ledger_step` says; and the sessions are told `replicated: P` or
/// `unreplicated: P` exactly when the ledger records that notice for `P`,
/// and are told nothing about an update otherwise.
pub proof fn lemma_primary_keeps_ledger(
    s: ManagerView,
    l: AckLedger,
    conn: u64,
    msg: Seq<u8>,
    pixel: Pixel,
    now: u64,
)
    requires
        s.is_primary,
        s.connected,
        l.queue == s.pending,
    ensures
        ({
            let entry = PendingAckView { payload: msg, deadline: deadline_after(now), conn_id: conn };
            let step = submit_step(s, conn, msg, now);
            let after = ledger_step(l, AckEvent::Submit(entry));
            &&& step.next.pending == after.queue
            &&& after.notices == l.notices
            &&& forall|i: int| 0 <= i < step.actions.len() ==> !(#[trigger] step.actions[i] is Deliver)
        }),
        ({
            let back = pixel_msg_step(s, msg, pixel);
            let stored = pixel_stored_step(back.next, msg);
            let after = ledger_step(l, AckEvent::Return(msg));
            if return_check(s.pending, msg) == AckCheck::Expected {
                &&& back.actions == seq![ActionView::Store { pixel, payload: msg }]
                &&& stored.next.pending == after.queue
                &&& stored.actions == notify(s.sessions, notice_text(Notice::Replicated, msg))
                &&& after.notices == l.notices.push((msg, Notice::Replicated))
            } else {
                &&& back.next.pending == after.queue
                &&& back.actions.len() == 0
                &&& after.notices == l.notices
            }
        }),
        l.timers.len() > 0 ==> ({
            let fired = ack_timeout_step(s, l.timers[0]);
            let after = ledger_step(l, AckEvent::Timeout);
            &&& fired.next.pending == after.queue
            &&& if head_is(s.pending, l.timers[0]) {
                &&& fired.actions == notify(
                    s.sessions,
                    notice_text(Notice::Unreplicated, l.timers[0]),
                )
                &&& after.notices == l.notices.push((l.timers[0], Notice::Unreplicated))
            } else {
                &&& fired.actions.len() == 0
                &&& after.notices == l.notices
            }
        }),
{
}

} // verus!
