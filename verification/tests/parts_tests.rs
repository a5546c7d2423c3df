use canvas_replica::config::{is_debug_enabled, is_primary, proc_id};
use canvas_replica::departure::Departures;
use canvas_replica::handler::{canvas_ws, starts_with, ClientMessage, Session, SessionAction, SessionEvent};
use canvas_replica::link::{frame_line, FrameBuffer};
use canvas_replica::manager::ConfigError;
use canvas_replica::pending::{AckCheck, PendingAck, PendingAcks};
use canvas_replica::registry::{Delivery, SessionRegistry};

fn entry(payload: &[u8], conn_id: u64) -> PendingAck {
    PendingAck { payload: payload.to_vec(), deadline: 5000, conn_id }
}

#[test]
fn frame_line_ends_with_a_line_feed() {
    assert_eq!(frame_line(b"/disconnect 2"), b"/disconnect 2\n".to_vec());
    assert_eq!(frame_line(b""), b"\n".to_vec());
}

#[test]
fn buffer_hands_out_complete_lines_only() {
    let mut buffer = FrameBuffer::new();
    buffer.extend(b"/election el");
    assert_eq!(buffer.next_frame(), None);
    buffer.extend(b"ection 3\n/disc");
    assert_eq!(buffer.next_frame(), Some(b"/election election 3".to_vec()));
    assert_eq!(buffer.next_frame(), None);
    buffer.extend(b"onnect 1\n\nrest");
    assert_eq!(buffer.next_frame(), Some(b"/disconnect 1".to_vec()));
    assert_eq!(buffer.next_frame(), Some(Vec::new()));
    assert_eq!(buffer.next_frame(), None);
    buffer.clear();
    buffer.extend(b"\n");
    assert_eq!(buffer.next_frame(), Some(Vec::new()));
}

#[test]
fn frames_survive_any_segmentation() {
    let frames: [&[u8]; 3] = [b"/sync {\"pixels\":[]}", b"{\"x\":1}", b"/election leader 9"];
    let mut stream = Vec::new();
    for f in frames {
        stream.extend(frame_line(f));
    }
    for chunk in 1..stream.len() + 1 {
        let mut buffer = FrameBuffer::new();
        let mut got: Vec<Vec<u8>> = Vec::new();
        for piece in stream.chunks(chunk) {
            buffer.extend(piece);
            while let Some(frame) = buffer.next_frame() {
                got.push(frame);
            }
        }
        assert_eq!(got, frames.iter().map(|f| f.to_vec()).collect::<Vec<_>>());
    }
}

#[test]
fn pending_updates_leave_in_the_order_in_which_they_came() {
    let mut acks = PendingAcks::new();
    assert_eq!(acks.len(), 0);
    acks.push(entry(b"a", 1));
    acks.push(entry(b"b", 2));
    assert_eq!(acks.len(), 2);
    assert!(acks.head_is(b"a"));
    assert!(!acks.head_is(b"b"));
    assert_eq!(acks.settle(b"b"), None);
    assert_eq!(acks.len(), 2);
    assert_eq!(acks.settle(b"a"), Some(entry(b"a", 1)));
    assert_eq!(acks.settle(b"a"), None);
    assert_eq!(acks.settle(b"b"), Some(entry(b"b", 2)));
    assert_eq!(acks.len(), 0);
    assert!(!acks.head_is(b""));
}

#[test]
fn returning_payload_is_checked_against_the_oldest_update() {
    let mut acks = PendingAcks::new();
    assert_eq!(acks.check_return(b"a"), AckCheck::Unexpected);
    acks.push(entry(b"a", 1));
    acks.push(entry(b"b", 2));
    assert_eq!(acks.check_return(b"a"), AckCheck::Expected);
    assert_eq!(acks.len(), 2);
    assert_eq!(acks.check_return(b"b"), AckCheck::Mismatch);
    assert_eq!(acks.len(), 1);
    assert!(acks.head_is(b"b"));
}

#[test]
fn update_is_settled_once() {
    let mut acks = PendingAcks::new();
    acks.push(entry(b"p", 7));
    assert_eq!(acks.check_return(b"p"), AckCheck::Expected);
    assert!(acks.settle(b"p").is_some());
    assert!(acks.settle(b"p").is_none());
    let mut acks = PendingAcks::new();
    acks.push(entry(b"p", 7));
    assert!(acks.settle(b"p").is_some());
    assert_eq!(acks.check_return(b"p"), AckCheck::Unexpected);
}

#[test]
fn registered_sessions_are_listed_in_order() {
    let mut registry = SessionRegistry::new();
    registry.register_as(5);
    registry.register_as(3);
    registry.register_as(5);
    assert_eq!(registry.len(), 2);
    assert_eq!(registry.get(0), 5);
    assert_eq!(registry.get(1), 3);
    assert!(registry.contains(3));
    assert!(!registry.contains(4));
}

#[test]
fn random_ids_are_registered() {
    let mut registry = SessionRegistry::new();
    let a = registry.register();
    assert!(registry.contains(a));
    let mut drawn = vec![a];
    for _ in 0..16 {
        let id = registry.register();
        assert!(registry.contains(id));
        drawn.push(id);
    }
    drawn.sort();
    drawn.dedup();
    assert_eq!(registry.len(), drawn.len());
    assert!(drawn.len() > 1);
}

#[test]
fn unregister_tolerates_unknown_ids() {
    let mut registry = SessionRegistry::new();
    registry.register_as(1);
    registry.register_as(2);
    registry.unregister(9);
    assert_eq!(registry.len(), 2);
    registry.unregister(1);
    assert_eq!(registry.len(), 1);
    assert_eq!(registry.get(0), 2);
    registry.unregister(1);
    assert_eq!(registry.len(), 1);
}

#[test]
fn broadcast_reaches_every_session() {
    let mut registry = SessionRegistry::new();
    assert_eq!(registry.broadcast(b"primary"), Vec::new());
    registry.register_as(8);
    registry.register_as(4);
    assert_eq!(
        registry.broadcast(b"primary"),
        vec![
            Delivery { conn: 8, text: b"primary".to_vec() },
            Delivery { conn: 4, text: b"primary".to_vec() },
        ]
    );
}

#[test]
fn send_to_reaches_registered_sessions_only() {
    let mut registry = SessionRegistry::new();
    registry.register_as(8);
    assert_eq!(registry.send_to(8, b"hi"), Some(Delivery { conn: 8, text: b"hi".to_vec() }));
    assert_eq!(registry.send_to(9, b"hi"), None);
}

#[test]
fn session_answers_pings_and_passes_text_on() {
    let mut session = Session::new(0);
    assert_eq!(
        canvas_ws(&mut session, SessionEvent::Client(ClientMessage::Ping(b"x".to_vec())), 10),
        SessionAction::Pong(b"x".to_vec())
    );
    assert_eq!(
        canvas_ws(&mut session, SessionEvent::Client(ClientMessage::Text(b"{}".to_vec())), 20),
        SessionAction::Submit(b"{}".to_vec())
    );
    assert_eq!(canvas_ws(&mut session, SessionEvent::Client(ClientMessage::Binary), 30), SessionAction::Ignore);
    assert_eq!(canvas_ws(&mut session, SessionEvent::Client(ClientMessage::Pong), 40), SessionAction::Ignore);
    assert_eq!(canvas_ws(&mut session, SessionEvent::Client(ClientMessage::Close), 50), SessionAction::Close);
    assert_eq!(canvas_ws(&mut session, SessionEvent::Client(ClientMessage::Other), 50), SessionAction::Close);
    assert_eq!(canvas_ws(&mut session, SessionEvent::ClientGone, 50), SessionAction::Close);
    assert_eq!(canvas_ws(&mut session, SessionEvent::ManagerGone, 50), SessionAction::Close);
}

#[test]
fn session_closes_after_five_silent_seconds() {
    let mut session = Session::new(1000);
    assert_eq!(canvas_ws(&mut session, SessionEvent::Tick, 3000), SessionAction::Ping);
    assert_eq!(canvas_ws(&mut session, SessionEvent::Tick, 6000), SessionAction::Ping);
    assert_eq!(canvas_ws(&mut session, SessionEvent::Tick, 6001), SessionAction::Close);
    assert_eq!(canvas_ws(&mut session, SessionEvent::Client(ClientMessage::Pong), 6001), SessionAction::Ignore);
    assert_eq!(canvas_ws(&mut session, SessionEvent::Tick, 11001), SessionAction::Ping);
    assert_eq!(canvas_ws(&mut session, SessionEvent::Tick, 11002), SessionAction::Close);
    assert_eq!(canvas_ws(&mut session, SessionEvent::Tick, 0), SessionAction::Ping);
}

#[test]
fn session_passes_the_notices_of_the_manager_on() {
    let mut session = Session::new(0);
    for text in [&b"primary"[..], b"replicated: {\"x\":1}", b"unreplicated: {\"x\":1}"] {
        assert_eq!(
            canvas_ws(&mut session, SessionEvent::Notice(text.to_vec()), 1),
            SessionAction::SendText(text.to_vec())
        );
    }
    for text in [&b"primary "[..], b"secondary", b"", b"replicate"] {
        assert_eq!(canvas_ws(&mut session, SessionEvent::Notice(text.to_vec()), 1), SessionAction::Ignore);
    }
}

#[test]
fn prefixes_are_recognised() {
    assert!(starts_with(b"replicated: x", b"replicated"));
    assert!(starts_with(b"abc", b""));
    assert!(starts_with(b"abc", b"abc"));
    assert!(!starts_with(b"ab", b"abc"));
    assert!(!starts_with(b"abd", b"abc"));
}

#[test]
fn replica_id_is_read_from_its_variable() {
    assert_eq!(proc_id(None), Ok(0));
    assert_eq!(proc_id(Some(b"0")), Ok(0));
    assert_eq!(proc_id(Some(b"7")), Ok(7));
    assert_eq!(proc_id(Some(b"65535")), Ok(65535));
}

#[test]
fn replica_id_that_is_no_id_is_refused() {
    assert_eq!(proc_id(Some(b"65536")), Err(ConfigError::UnreadableId));
    assert_eq!(proc_id(Some(b"seven")), Err(ConfigError::UnreadableId));
    assert_eq!(proc_id(Some(b"")), Err(ConfigError::UnreadableId));
    assert_eq!(proc_id(Some(b"-1")), Err(ConfigError::UnreadableId));
    assert_eq!(proc_id(Some(b" 1")), Err(ConfigError::UnreadableId));
}

#[test]
fn primary_flag_is_the_word_true() {
    assert!(is_primary(Some(b"true")));
    assert!(!is_primary(Some(b"True")));
    assert!(!is_primary(Some(b"1")));
    assert!(!is_primary(Some(b"false")));
    assert!(!is_primary(None));
}

#[test]
fn debug_flag_is_one_or_true_in_any_case() {
    assert!(is_debug_enabled(Some(b"1")));
    assert!(is_debug_enabled(Some(b"true")));
    assert!(is_debug_enabled(Some(b"TRUE")));
    assert!(is_debug_enabled(Some(b"tRuE")));
    assert!(!is_debug_enabled(Some(b"0")));
    assert!(!is_debug_enabled(Some(b"yes")));
    assert!(!is_debug_enabled(Some(b"true ")));
    assert!(!is_debug_enabled(Some(b"")));
    assert!(!is_debug_enabled(Some(b"11")));
    assert!(!is_debug_enabled(None));
}

#[test]
fn rest_of_the_buffer_can_be_taken_out() {
    let mut buffer = FrameBuffer::new();
    buffer.extend(b"a\nbc");
    assert_eq!(buffer.next_frame(), Some(b"a".to_vec()));
    assert_eq!(buffer.take_rest(), b"bc".to_vec());
    assert_eq!(buffer.take_rest(), Vec::<u8>::new());
    assert_eq!(buffer.next_frame(), None);
}

#[test]
fn departures_are_noted_once_and_forgotten_whole() {
    let mut gone = Departures::new();
    assert!(!gone.contains(3));
    gone.note(3);
    gone.note(7);
    gone.note(3);
    assert!(gone.contains(3));
    assert!(gone.contains(7));
    assert!(!gone.contains(0));
    gone.forget(3);
    assert!(!gone.contains(3));
    assert!(gone.contains(7));
    gone.forget(3);
    gone.forget(7);
    assert!(!gone.contains(7));
}
