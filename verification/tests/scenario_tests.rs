use std::collections::VecDeque;

use canvas_replica::link::frame_line;
use canvas_replica::manager::ReplicaManager;
use canvas_replica::manifest::{ConnectionInfo, ConnectionInfoDict, NewConMessage, ReplicaInfo};
use canvas_replica::message::{Action, Body, Command, Event, SyncMessage};
use canvas_replica::pixel::{Canvas, Pixel};
use canvas_replica::protocol::{new_connection_frame, parse_frame, sync_frame, Frame};

fn replica(id: u16) -> ReplicaInfo {
    ReplicaInfo {
        id,
        public_address: format!("public-{}", id),
        public_port: 8000 + id,
        address: format!("10.0.0.{}", id),
        socket_port: 9000 + id,
        active: true,
    }
}

fn manifest(ids: &[u16]) -> ConnectionInfoDict {
    ConnectionInfoDict {
        frontend: ConnectionInfo { address: "front".to_string(), port: 80 },
        proxy: ConnectionInfo { address: "proxy".to_string(), port: 81 },
        backend: ids.iter().map(|id| replica(*id)).collect(),
    }
}

fn number_after(text: &str, key: &str) -> Option<i32> {
    let at = text.find(key)? + key.len();
    let rest = &text[at..];
    let end = rest.find(|c: char| c != '-' && !c.is_ascii_digit()).unwrap_or(rest.len());
    rest[..end].parse().ok()
}

fn decode_pixel(payload: &[u8]) -> Option<Pixel> {
    let text = std::str::from_utf8(payload).ok()?;
    Some(Pixel {
        x: number_after(text, "\"x\":")?,
        y: number_after(text, "\"y\":")?,
        colour: number_after(text, "\"colour\":")?,
        updated: number_after(text, "\"updated\":")?,
    })
}

enum Wire {
    Bytes(Vec<u8>),
    Announce(ReplicaInfo),
    Closed,
}

struct Node {
    id: u16,
    mgr: ReplicaManager,
    canvas: Canvas,
    alive: bool,
    successor: Option<u16>,
    sessions: Vec<u64>,
    notices: Vec<(u64, Vec<u8>)>,
    timers: Vec<Vec<u8>>,
    stores: usize,
    exited: bool,
}

/// Replicas in one process: links are queues, the store is a `Canvas`, and
/// the JSON of `/sync` and `/new_connection` is a slot number.
struct Cluster {
    nodes: Vec<Node>,
    severed: Vec<(u16, u16)>,
    queue: VecDeque<(u16, Wire)>,
    syncs: Vec<Option<SyncMessage>>,
    joins: Vec<NewConMessage>,
}

impl Cluster {
    fn new() -> Cluster {
        Cluster {
            nodes: Vec::new(),
            severed: Vec::new(),
            queue: VecDeque::new(),
            syncs: Vec::new(),
            joins: Vec::new(),
        }
    }

    fn index(&self, id: u16) -> usize {
        self.nodes.iter().position(|n| n.id == id).unwrap()
    }

    fn node(&self, id: u16) -> &Node {
        &self.nodes[self.index(id)]
    }

    fn reachable(&self, from: u16, to: u16) -> bool {
        self.nodes.iter().any(|n| n.id == to && n.alive && !n.exited)
            && !self.severed.contains(&(from, to))
    }

    fn boot(&mut self, id: u16, ids: &[u16], primary: bool) {
        let mgr = ReplicaManager::new(id, primary, false, manifest(ids)).unwrap();
        self.nodes.push(Node {
            id,
            mgr,
            canvas: Canvas::new(),
            alive: true,
            successor: None,
            sessions: Vec::new(),
            notices: Vec::new(),
            timers: Vec::new(),
            stores: 0,
            exited: false,
        });
        self.event(id, Event::Start);
        self.pump();
    }

    fn event(&mut self, id: u16, event: Event) {
        let at = self.index(id);
        let actions = self.nodes[at].mgr.run(event);
        self.perform(id, actions);
    }

    fn send(&mut self, from: u16, wire: Wire) -> bool {
        let target = self.node(from).successor;
        match target {
            Some(to) if self.reachable(from, to) => {
                self.queue.push_back((to, wire));
                true
            }
            _ => false,
        }
    }

    fn perform(&mut self, id: u16, actions: Vec<Action>) {
        let at = self.index(id);
        for action in actions {
            let sent = match action {
                Action::Send(frame) => self.send(id, Wire::Bytes(frame_line(&frame))),
                Action::SendSync(sync) => {
                    let slot = format!("{}", self.syncs.len());
                    self.syncs.push(Some(sync));
                    self.send(id, Wire::Bytes(frame_line(&sync_frame(slot.as_bytes()))))
                }
                Action::SendSnapshot { conn, leader, predecessor_id } => {
                    let pixels = Pixel::all(&self.nodes[at].canvas);
                    let slot = format!("{}", self.syncs.len());
                    self.syncs.push(Some(SyncMessage { pixels, conn, leader, predecessor_id }));
                    self.send(id, Wire::Bytes(frame_line(&sync_frame(slot.as_bytes()))))
                }
                Action::SendNewConnection(message) => {
                    let slot = format!("{}", self.joins.len());
                    self.joins.push(message);
                    self.send(id, Wire::Bytes(frame_line(&new_connection_frame(slot.as_bytes()))))
                }
                Action::Announce(info) => self.send(id, Wire::Announce(info)),
                Action::Dial { peer, purpose } => {
                    let connected = self.reachable(id, peer.id);
                    if connected {
                        self.nodes[at].successor = Some(peer.id);
                    }
                    self.event(id, Event::Dialed { id: peer.id, purpose, connected });
                    true
                }
                Action::Store { pixel, payload } => {
                    Pixel::insert_pixel(&mut self.nodes[at].canvas, &pixel);
                    self.nodes[at].stores += 1;
                    self.event(id, Event::Stored { payload });
                    true
                }
                Action::ReplaceCanvas(pixels) => {
                    Pixel::update_all(&mut self.nodes[at].canvas, &pixels);
                    true
                }
                Action::Deliver(delivery) => {
                    self.nodes[at].notices.push((delivery.conn, delivery.text));
                    true
                }
                Action::Registered { conn } => {
                    self.nodes[at].sessions.push(conn);
                    true
                }
                Action::StartTimer { payload, .. } => {
                    self.nodes[at].timers.push(payload);
                    true
                }
                Action::AcceptPredecessor => true,
                Action::Exit => {
                    self.nodes[at].exited = true;
                    true
                }
            };
            if !sent {
                self.event(id, Event::SuccessorLost);
                return;
            }
        }
    }

    fn body_of(&mut self, frame: &[u8]) -> Body {
        let slot = |arg: &[u8]| std::str::from_utf8(arg).ok().and_then(|t| t.parse::<usize>().ok());
        match parse_frame(frame) {
            Ok(Frame::Pixel(payload)) => match decode_pixel(&payload) {
                Some(pixel) => Body::Pixel(pixel),
                None => Body::Absent,
            },
            Ok(Frame::Sync(arg)) => match slot(&arg).and_then(|i| self.syncs[i].take()) {
                Some(sync) => Body::Sync(sync),
                None => Body::Absent,
            },
            Ok(Frame::NewConnection(arg)) => match slot(&arg) {
                Some(i) => Body::NewConnection(self.joins[i].clone()),
                None => Body::Absent,
            },
            _ => Body::Absent,
        }
    }

    fn pump(&mut self) {
        let mut steps = 0;
        while let Some((to, wire)) = self.queue.pop_front() {
            steps += 1;
            assert!(steps < 10_000, "the ring does not come to rest");
            let at = self.index(to);
            if !self.nodes[at].alive || self.nodes[at].exited {
                continue;
            }
            match wire {
                Wire::Bytes(bytes) => {
                    self.event(to, Event::Received(bytes));
                    while let Some(frame) = self.nodes[at].mgr.next_frame() {
                        let body = self.body_of(&frame);
                        self.event(to, Event::Frame { msg: frame, body });
                    }
                }
                Wire::Announce(info) => self.event(to, Event::Accepted(info)),
                Wire::Closed => self.event(to, Event::Received(Vec::new())),
            }
        }
    }

    fn connect(&mut self, id: u16) -> u64 {
        self.event(id, Event::Command { cmd: Command::Connect, now: 0 });
        *self.node(id).sessions.last().unwrap()
    }

    fn submit(&mut self, id: u16, conn: u64, payload: &[u8]) {
        self.event(
            id,
            Event::Command { cmd: Command::Message { conn, msg: payload.to_vec() }, now: 0 },
        );
    }

    fn fire_timers(&mut self, id: u16) {
        let at = self.index(id);
        let timers: Vec<Vec<u8>> = self.nodes[at].timers.drain(..).collect();
        for payload in timers {
            self.event(id, Event::AckTimeout { payload });
        }
        self.pump();
    }

    fn kill(&mut self, id: u16) {
        let at = self.index(id);
        self.nodes[at].alive = false;
        if let Some(next) = self.nodes[at].successor {
            self.queue.push_back((next, Wire::Closed));
        }
        self.pump();
    }

    fn notices_of(&self, id: u16, conn: u64) -> Vec<Vec<u8>> {
        self.node(id).notices.iter().filter(|(c, _)| *c == conn).map(|(_, t)| t.clone()).collect()
    }

    /// The ring 1 -> 2 -> 3 -> 1 with replica 1 as primary.
    fn three() -> Cluster {
        let mut cluster = Cluster::new();
        cluster.boot(1, &[1, 2, 3], true);
        cluster.boot(2, &[1, 2, 3], false);
        cluster.boot(3, &[1, 2, 3], false);
        cluster
    }
}

const PIXEL: &[u8] = b"{\"x\":0,\"y\":0,\"colour\":7,\"updated\":1}";

fn text(prefix: &str, payload: &[u8]) -> Vec<u8> {
    let mut out = prefix.as_bytes().to_vec();
    out.extend_from_slice(payload);
    out
}

#[test]
fn three_replicas_form_a_ring() {
    let cluster = Cluster::three();
    for (id, succ, pred) in [(1u16, 2u16, 3u16), (2, 3, 1), (3, 1, 2)] {
        let node = cluster.node(id);
        assert_eq!(node.mgr.successor_id(), succ);
        assert_eq!(node.successor, Some(succ));
        assert_eq!(node.mgr.predecessor_id(), pred);
        assert_eq!(node.mgr.leader_id(), 1);
        assert_eq!(node.mgr.is_primary(), id == 1);
        assert!(node.mgr.is_connected());
        assert_eq!(node.mgr.connections_info(), &manifest(&[1, 2, 3]));
        assert!(!node.exited);
    }
}

#[test]
fn three_replica_steady_state() {
    let mut cluster = Cluster::three();
    let conn = cluster.connect(1);
    cluster.submit(1, conn, PIXEL);
    cluster.pump();
    for id in [1u16, 2, 3] {
        assert_eq!(
            cluster.node(id).canvas.get(0, 0),
            Some(Pixel { x: 0, y: 0, colour: 7, updated: 1 })
        );
        assert_eq!(cluster.node(id).canvas.len(), 1);
        assert_eq!(cluster.node(id).stores, 1);
    }
    assert_eq!(
        cluster.notices_of(1, conn),
        vec![b"primary".to_vec(), text("replicated: ", PIXEL)]
    );
    assert_eq!(cluster.node(1).mgr.pending_len(), 0);
    cluster.fire_timers(1);
    assert_eq!(cluster.notices_of(1, conn).len(), 2);
}

#[test]
fn leader_crash() {
    let mut cluster = Cluster::three();
    let on_b = cluster.connect(2);
    let on_c = cluster.connect(3);
    cluster.kill(1);
    for id in [2u16, 3] {
        assert_eq!(cluster.node(id).mgr.leader_id(), 3);
        assert_eq!(cluster.node(id).mgr.is_primary(), id == 3);
        assert!(!cluster.node(id).mgr.election_running());
        assert_eq!(cluster.node(id).mgr.connections_info(), &manifest(&[2, 3]));
        assert!(!cluster.node(id).exited);
    }
    assert_eq!(cluster.node(2).mgr.successor_id(), 3);
    assert_eq!(cluster.node(3).mgr.successor_id(), 2);
    assert_eq!(cluster.node(2).mgr.predecessor_id(), 3);
    assert_eq!(cluster.notices_of(3, on_c), vec![b"primary".to_vec()]);
    assert_eq!(cluster.notices_of(2, on_b), Vec::<Vec<u8>>::new());
    let late = cluster.connect(3);
    assert_eq!(cluster.notices_of(3, late), vec![b"primary".to_vec()]);
}

#[test]
fn unreplicated_timeout() {
    let mut cluster = Cluster::three();
    let conn = cluster.connect(1);
    cluster.severed.push((2, 3));
    cluster.submit(1, conn, PIXEL);
    cluster.pump();
    assert_eq!(cluster.notices_of(1, conn), vec![b"primary".to_vec()]);
    assert_eq!(cluster.node(1).mgr.pending_len(), 1);
    cluster.fire_timers(1);
    assert_eq!(
        cluster.notices_of(1, conn),
        vec![b"primary".to_vec(), text("unreplicated: ", PIXEL)]
    );
    assert_eq!(cluster.node(1).canvas.get(0, 0), None);
    assert_eq!(cluster.node(1).canvas.len(), 0);
    assert_eq!(cluster.node(1).mgr.pending_len(), 0);
    assert_eq!(cluster.node(2).mgr.successor_id(), 1);
    assert_eq!(cluster.node(2).mgr.connections_info(), &manifest(&[1, 2]));
    assert_eq!(cluster.node(1).mgr.connections_info(), &manifest(&[1, 2]));
}

#[test]
fn join_into_a_one_replica_cluster() {
    let mut cluster = Cluster::new();
    cluster.boot(1, &[1], true);
    assert!(cluster.node(1).mgr.is_primary());
    assert!(!cluster.node(1).mgr.is_connected());
    let conn = cluster.connect(1);
    for (x, colour, updated) in [(0, 7, 1), (1, 8, 2), (0, 9, 3)] {
        Pixel::insert_pixel(
            &mut cluster.nodes[0].canvas,
            &Pixel { x, y: 0, colour, updated },
        );
    }
    cluster.boot(2, &[1, 2], false);
    let a = cluster.node(1);
    let b = cluster.node(2);
    assert_eq!(a.mgr.predecessor_id(), 2);
    assert_eq!(a.mgr.successor_id(), 2);
    assert!(a.mgr.is_primary());
    assert!(a.mgr.is_connected());
    assert!(!b.mgr.is_primary());
    assert_eq!(b.mgr.leader_id(), 1);
    assert_eq!(b.mgr.predecessor_id(), 1);
    assert_eq!(b.mgr.successor_id(), 1);
    assert_eq!(b.canvas.len(), 2);
    assert_eq!(b.canvas.get(0, 0), Some(Pixel { x: 0, y: 0, colour: 9, updated: 3 }));
    assert_eq!(b.canvas.get(1, 0), Some(Pixel { x: 1, y: 0, colour: 8, updated: 2 }));
    assert_eq!(a.canvas.get(0, 0), b.canvas.get(0, 0));
    assert_eq!(a.canvas.get(1, 0), b.canvas.get(1, 0));
    assert_eq!(a.canvas.len(), b.canvas.len());
    assert_eq!(a.mgr.connections_info(), &manifest(&[1, 2]));
    assert_eq!(b.mgr.connections_info(), &manifest(&[1, 2]));
    assert_eq!(cluster.notices_of(1, conn), vec![b"primary".to_vec()]);
}

#[test]
fn lww_collision() {
    let newer: &[u8] = b"{\"x\":5,\"y\":5,\"colour\":1,\"updated\":10}";
    let older: &[u8] = b"{\"x\":5,\"y\":5,\"colour\":2,\"updated\":9}";
    for order in [[newer, older], [older, newer]] {
        let mut cluster = Cluster::three();
        let first = cluster.connect(1);
        let second = cluster.connect(1);
        cluster.submit(1, first, order[0]);
        cluster.submit(1, second, order[1]);
        cluster.pump();
        for id in [1u16, 2, 3] {
            assert_eq!(
                cluster.node(id).canvas.get(5, 5),
                Some(Pixel { x: 5, y: 5, colour: 1, updated: 10 })
            );
            assert_eq!(cluster.node(id).canvas.len(), 1);
        }
        assert_eq!(cluster.node(1).mgr.pending_len(), 0);
        assert!(cluster.notices_of(1, first).contains(&text("replicated: ", order[0])));
        assert!(cluster.notices_of(1, first).contains(&text("replicated: ", order[1])));
    }
}

#[test]
fn mid_ring_join_re_splice() {
    let mut cluster = Cluster::three();
    cluster.boot(4, &[2, 1, 3, 4], false);
    let successors: Vec<(u16, u16)> =
        [1u16, 4, 2, 3].iter().map(|id| (*id, cluster.node(*id).mgr.successor_id())).collect();
    assert_eq!(successors, vec![(1, 4), (4, 2), (2, 3), (3, 1)]);
    for id in [1u16, 2, 3, 4] {
        assert_eq!(cluster.node(id).successor, Some(cluster.node(id).mgr.successor_id()));
        assert!(cluster.node(id).mgr.is_connected());
        assert_eq!(cluster.node(id).mgr.is_primary(), id == 1);
        assert!(!cluster.node(id).exited);
    }
    assert_eq!(cluster.node(2).mgr.predecessor_id(), 4);
    let conn = cluster.connect(1);
    cluster.submit(1, conn, PIXEL);
    cluster.pump();
    for id in [1u16, 2, 3, 4] {
        assert_eq!(cluster.node(id).stores, 1);
        assert_eq!(
            cluster.node(id).canvas.get(0, 0),
            Some(Pixel { x: 0, y: 0, colour: 7, updated: 1 })
        );
    }
    assert_eq!(
        cluster.notices_of(1, conn),
        vec![b"primary".to_vec(), text("replicated: ", PIXEL)]
    );
}

#[test]
fn every_submission_ends_in_exactly_one_notice() {
    let mut cluster = Cluster::three();
    let conn = cluster.connect(1);
    let payloads: Vec<Vec<u8>> = (0..5)
        .map(|i| format!("{{\"x\":{},\"y\":0,\"colour\":1,\"updated\":{}}}", i, i + 1).into_bytes())
        .collect();
    for p in &payloads[..3] {
        cluster.submit(1, conn, p);
    }
    cluster.pump();
    cluster.fire_timers(1);
    cluster.severed.push((2, 3));
    cluster.submit(1, conn, &payloads[3]);
    cluster.pump();
    cluster.fire_timers(1);
    cluster.submit(1, conn, &payloads[4]);
    cluster.pump();
    cluster.fire_timers(1);
    let notices = cluster.notices_of(1, conn);
    for (i, p) in payloads.iter().enumerate() {
        let replicated = notices.iter().filter(|n| **n == text("replicated: ", p)).count();
        let unreplicated = notices.iter().filter(|n| **n == text("unreplicated: ", p)).count();
        assert_eq!(replicated + unreplicated, 1);
        assert_eq!(unreplicated == 1, i == 3);
    }
    assert_eq!(notices.len(), 6);
}

#[test]
fn update_overtaken_after_a_failure_in_the_ring_gets_no_notice() {
    let mut cluster = Cluster::three();
    let conn = cluster.connect(1);
    let lost: &[u8] = b"{\"x\":1,\"y\":0,\"colour\":1,\"updated\":1}";
    let later: &[u8] = b"{\"x\":2,\"y\":0,\"colour\":1,\"updated\":2}";
    cluster.severed.push((2, 3));
    cluster.submit(1, conn, lost);
    cluster.submit(1, conn, later);
    cluster.pump();
    cluster.fire_timers(1);
    assert_eq!(
        cluster.notices_of(1, conn),
        vec![b"primary".to_vec(), text("unreplicated: ", later)]
    );
    assert_eq!(cluster.node(1).mgr.pending_len(), 0);
}

#[test]
fn election_with_two_initiators_elects_the_greatest_id() {
    let mut cluster = Cluster::three();
    cluster.boot(4, &[3, 1, 2, 4], false);
    let starters = [3u16, 2];
    for id in starters {
        let at = cluster.index(id);
        let actions = cluster.nodes[at].mgr.initiate_election();
        cluster.perform(id, actions);
    }
    cluster.pump();
    for id in [1u16, 2, 3, 4] {
        assert_eq!(cluster.node(id).mgr.leader_id(), 4);
        assert_eq!(cluster.node(id).mgr.is_primary(), id == 4);
        assert!(!cluster.node(id).mgr.election_running());
    }
}

/// The ring 1 -> 2 -> 3 -> 4 -> 1 with replica 1 as primary.
fn four() -> Cluster {
    let mut cluster = Cluster::new();
    for id in [1u16, 2, 3, 4] {
        cluster.boot(id, &[1, 2, 3, 4], id == 1);
    }
    cluster
}

#[test]
fn departure_seen_by_the_successor_goes_round_to_the_replica_in_front() {
    let mut cluster = four();
    cluster.kill(3);
    for id in [1u16, 2, 4] {
        assert_eq!(cluster.node(id).mgr.connections_info(), &manifest(&[1, 2, 4]));
        assert_eq!(cluster.node(id).mgr.leader_id(), 1);
        assert!(!cluster.node(id).exited);
    }
    assert_eq!(cluster.node(2).mgr.successor_id(), 4);
    assert_eq!(cluster.node(2).successor, Some(4));
    assert_eq!(cluster.node(4).mgr.predecessor_id(), 2);
}

#[test]
fn departure_seen_by_a_failed_write_goes_round_once_and_comes_to_rest() {
    let mut cluster = four();
    let conn = cluster.connect(1);
    let at = cluster.index(3);
    cluster.nodes[at].alive = false;
    cluster.submit(1, conn, PIXEL);
    cluster.pump();
    for id in [1u16, 2, 4] {
        assert_eq!(cluster.node(id).mgr.connections_info(), &manifest(&[1, 2, 4]));
        assert!(!cluster.node(id).exited);
    }
    assert_eq!(cluster.node(2).mgr.successor_id(), 4);
    assert!(cluster.node(2).mgr.is_connected());
    assert!(cluster.queue.is_empty());
    cluster.fire_timers(1);
    assert_eq!(cluster.notices_of(1, conn).last(), Some(&text("unreplicated: ", PIXEL)));
    let again: &[u8] = b"{\"x\":3,\"y\":0,\"colour\":1,\"updated\":5}";
    cluster.submit(1, conn, again);
    cluster.pump();
    assert_eq!(cluster.notices_of(1, conn).last(), Some(&text("replicated: ", again)));
}

#[test]
fn departure_announced_from_both_sides_comes_to_rest() {
    let mut cluster = four();
    let at = cluster.index(3);
    cluster.nodes[at].alive = false;
    cluster.event(2, Event::SuccessorLost);
    cluster.queue.push_back((4, Wire::Closed));
    cluster.pump();
    for id in [1u16, 2, 4] {
        assert_eq!(cluster.node(id).mgr.connections_info(), &manifest(&[1, 2, 4]));
        assert!(!cluster.node(id).exited);
        assert!(!cluster.node(id).mgr.election_running());
    }
    assert_eq!(cluster.node(2).mgr.successor_id(), 4);
    assert_eq!(cluster.node(4).mgr.predecessor_id(), 2);
    assert!(cluster.queue.is_empty());
}
