//! Leader election on the one-way ring.
//!
//! A replica that starts an election sends a candidate token with its own id
//! to its successor. A replica passes on a token with a greater id than its
//! own, answers a smaller one with its own candidacy unless it is a candidate
//! already, and, when its own id comes back, announces itself as leader. The
//! announcement goes round once; whoever sees its own id in it is primary.

use vstd::prelude::*;

verus! {

/// What a replica knows about the election.
pub struct ElectionState {
    pub id: u16,
    pub leader_id: u16,
    pub is_primary: bool,
    pub election_running: bool,
}

/// An election frame.
pub enum Token {
    /// `/election election <id>`
    Candidate(u16),
    /// `/election leader <id>`
    Leader(u16),
}

/// What a replica does with a token.
pub struct ElectionStep {
    pub next: ElectionState,
    /// The token to send to the successor, if any.
    pub forward: Option<Token>,
    /// Whether to tell the local sessions that this replica is primary now.
    pub announce: bool,
}

/// A replica starts an election.
pub open spec fn election_start(s: ElectionState) -> ElectionStep {
    ElectionStep {
        next: ElectionState { election_running: true, ..s },
        forward: Some(Token::Candidate(s.id)),
        announce: false,
    }
}

/// A replica receives a token from its predecessor.
pub open spec fn election_step(s: ElectionState, token: Token) -> ElectionStep {
    match token {
        Token::Leader(k) => {
            if k == s.id {
                ElectionStep {
                    next: ElectionState {
                        leader_id: k,
                        is_primary: true,
                        election_running: false,
                        ..s
                    },
                    forward: None,
                    announce: true,
                }
            } else {
                ElectionStep {
                    next: ElectionState {
                        leader_id: k,
                        is_primary: false,
                        election_running: false,
                        ..s
                    },
                    forward: Some(Token::Leader(k)),
                    announce: false,
                }
            }
        },
        Token::Candidate(k) => {
            if k > s.id {
                ElectionStep { next: s, forward: Some(Token::Candidate(k)), announce: false }
            } else if k == s.id {
                ElectionStep { next: s, forward: Some(Token::Leader(s.id)), announce: false }
            } else if !s.election_running {
                ElectionStep {
                    next: ElectionState { election_running: true, ..s },
                    forward: Some(Token::Candidate(s.id)),
                    announce: false,
                }
            } else {
                ElectionStep { next: s, forward: None, announce: false }
            }
        },
    }
}

/// A token on its way to the replica at position `to`.
pub struct InFlight {
    pub token: Token,
    pub to: int,
}

/// A ring of replicas with the election frames that are on their way. The
/// replica at position `p` sends to the one at `next_pos(p)`. Each frame in
/// flight has a number of its own; `sent` counts the frames sent so far.
pub struct Ring {
    pub nodes: Seq<ElectionState>,
    pub flying: Map<int, InFlight>,
    pub sent: int,
}

/// What happens on the ring.
pub enum RingEvent {
    /// The replica at this position starts an election.
    Start(int),
    /// The frame with this number reaches the replica it was sent to. Frames
    /// may arrive in any order.
    Deliver(int),
}

/// The position after `p` on a ring of `n`.
pub open spec fn next_pos(p: int, n: int) -> int {
    if p + 1 >= n {
        0
    } else {
        p + 1
    }
}

/// `p` lies after `from` and before `to`, going round the ring from `from`.
/// With `to == from` that is every position but `from`.
pub open spec fn strictly_between(from: int, to: int, p: int) -> bool {
    if from < to {
        from < p && p < to
    } else {
        p > from || p < to
    }
}

/// The event can happen on this ring.
pub open spec fn ring_event_ok(r: Ring, e: RingEvent) -> bool {
    match e {
        RingEvent::Start(p) => 0 <= p < r.nodes.len(),
        RingEvent::Deliver(key) => r.flying.contains_key(key),
    }
}

/// `r` with the state of the replica at `p` replaced, the frame `taken`
/// removed, and `forward` sent on from `p`.
pub open spec fn ring_after(
    r: Ring,
    p: int,
    step: ElectionStep,
    taken: Option<int>,
    ) -> Ring {
    let rest = match taken {
        Some(key) => r.flying.remove(key),
        None => r.flying,
    };
    match step.forward {
        Some(token) => Ring {
            nodes: r.nodes.update(p, step.next),
            flying: rest.insert(
                r.sent,
                InFlight { token, to: next_pos(p, r.nodes.len() as int) },
            ),
            sent: r.sent + 1,
        },
        None => Ring { nodes: r.nodes.update(p, step.next), flying: rest, sent: r.sent },
    }
}

/// The ring after an event.
pub open spec fn ring_step(r: Ring, e: RingEvent) -> Ring {
    match e {
        RingEvent::Start(p) => ring_after(r, p, election_start(r.nodes[p]), None),
        RingEvent::Deliver(key) => {
            let p = r.flying[key].to;
            ring_after(r, p, election_step(r.nodes[p], r.flying[key].token), Some(key))
        },
    }
}

/// No election frame is on its way.
pub open spec fn quiescent(r: Ring) -> bool {
    r.flying.dom() == Set::<int>::empty()
}

/// All replicas name the same leader, and exactly one of them is primary.
pub open spec fn agreed(nodes: Seq<ElectionState>) -> bool {
    &&& forall|p: int| 0 <= p < nodes.len() ==> (#[trigger] nodes[p]).leader_id == nodes[0].leader_id
    &&& exists|q: int|
        0 <= q < nodes.len() && (#[trigger] nodes[q]).is_primary && forall|p: int|
            0 <= p < nodes.len() && p != q ==> !(#[trigger] nodes[p]).is_primary
}

/// A candidate token `k` on its way to `to` was sent out by the replica at
/// `origin`, whose id it carries, and every replica that it has passed
/// since has a smaller id.
pub open spec fn candidate_from(nodes: Seq<ElectionState>, k: u16, to: int, origin: int) -> bool {
    &&& 0 <= origin < nodes.len()
    &&& nodes[origin].id == k
    &&& forall|p: int|
        0 <= p < nodes.len() && strictly_between(origin, to, p) ==> (#[trigger] nodes[p]).id < k
}

/// An announcement `k` on its way to `to` carries the greatest id of the
/// ring, that of the replica at `origin`, and every replica that it has
/// passed names `k` as leader and is not primary.
pub open spec fn leader_from(nodes: Seq<ElectionState>, k: u16, to: int, origin: int) -> bool {
    &&& 0 <= origin < nodes.len()
    &&& nodes[origin].id == k
    &&& forall|p: int| 0 <= p < nodes.len() ==> (#[trigger] nodes[p]).id <= k
    &&& forall|p: int|
        0 <= p < nodes.len() && strictly_between(origin, to, p) ==> (#[trigger] nodes[p]).leader_id
            == k && !nodes[p].is_primary
}

/// What holds of a frame in flight.
pub open spec fn token_inv(nodes: Seq<ElectionState>, f: InFlight) -> bool {
    &&& 0 <= f.to < nodes.len()
    &&& f.token matches Token::Candidate(k) ==> exists|origin: int| #[trigger]
        candidate_from(nodes, k, f.to, origin)
    &&& f.token matches Token::Leader(k) ==> exists|origin: int| #[trigger]
        leader_from(nodes, k, f.to, origin)
}

/// A candidate token whose origin is known is well.
proof fn lemma_candidate_ok(nodes: Seq<ElectionState>, to: int, k: u16, origin: int)
    requires
        0 <= to < nodes.len(),
        candidate_from(nodes, k, to, origin),
    ensures
        token_inv(nodes, InFlight { token: Token::Candidate(k), to }),
{
    let f = InFlight { token: Token::Candidate(k), to };
    assert(candidate_from(nodes, k, f.to, origin));
    assert(exists|o: int| #[trigger] candidate_from(nodes, k, f.to, o));
    assert(f.token matches Token::Candidate(kk) ==> kk == k);
    assert(!(f.token is Leader));
}

/// An announcement whose origin is known is well.
proof fn lemma_leader_ok(nodes: Seq<ElectionState>, to: int, k: u16, origin: int)
    requires
        0 <= to < nodes.len(),
        leader_from(nodes, k, to, origin),
    ensures
        token_inv(nodes, InFlight { token: Token::Leader(k), to }),
{
    let f = InFlight { token: Token::Leader(k), to };
    assert(leader_from(nodes, k, f.to, origin));
    assert(exists|o: int| #[trigger] leader_from(nodes, k, f.to, o));
    assert(f.token matches Token::Leader(kk) ==> kk == k);
    assert(!(f.token is Candidate));
}

/// The ids on the ring are distinct.
pub open spec fn distinct_ids(nodes: Seq<ElectionState>) -> bool {
    forall|i: int, j: int|
        0 <= i < nodes.len() && 0 <= j < nodes.len() && i != j ==> (#[trigger] nodes[i]).id != (
        #[trigger] nodes[j]).id
}

/// An announcement is on its way.
pub open spec fn announcing(r: Ring) -> bool {
    exists|key: int| #[trigger] r.flying.contains_key(key) && r.flying[key].token is Leader
}

/// All replicas name the same leader, and none of them is primary: the
/// ring as its primary leaves it behind.
pub open spec fn leaderless(nodes: Seq<ElectionState>) -> bool {
    forall|p: int|
        0 <= p < nodes.len() ==> (#[trigger] nodes[p]).leader_id == nodes[0].leader_id
            && !nodes[p].is_primary
}

/// No replica is a candidate.
pub open spec fn none_running(nodes: Seq<ElectionState>) -> bool {
    forall|p: int| 0 <= p < nodes.len() ==> !(#[trigger] nodes[p]).election_running
}

/// A candidate token that carries `id` or a greater id is on its way.
pub open spec fn candidate_covers(flying: Map<int, InFlight>, id: u16) -> bool {
    exists|key: int| #[trigger]
        flying.contains_key(key) && flying[key].token is Candidate
            && flying[key].token->Candidate_0 >= id
}

/// The election is under way and has not yet come to an announcement: the
/// ring is still without a leader, and for every candidate a token that is
/// at least its own is on its way.
pub open spec fn electing(r: Ring) -> bool {
    &&& leaderless(r.nodes)
    &&& forall|p: int|
        0 <= p < r.nodes.len() && (#[trigger] r.nodes[p]).election_running ==> candidate_covers(
            r.flying,
            r.nodes[p].id,
        )
}

/// What holds of the ring at all times.
pub open spec fn ring_inv(r: Ring) -> bool {
    &&& r.nodes.len() > 0
    &&& distinct_ids(r.nodes)
    &&& forall|key: int| #[trigger] r.flying.contains_key(key) ==> key < r.sent
    &&& forall|key: int| #[trigger] r.flying.contains_key(key) ==> token_inv(r.nodes, r.flying[key])
    &&& agreed(r.nodes) || announcing(r) || electing(r)
}

/// A ring at rest is well in two cases: where the replicas agree, and where
/// the primary has left, so that the others still name one leader, none of
/// them is primary and none a candidate.
pub proof fn lemma_ring_init(r: Ring)
    requires
        r.nodes.len() > 0,
        distinct_ids(r.nodes),
        agreed(r.nodes) || (leaderless(r.nodes) && none_running(r.nodes)),
        quiescent(r),
    ensures
        ring_inv(r),
{
    assert forall|key: int| !r.flying.contains_key(key) by {
        assert(!Set::<int>::empty().contains(key));
    }
}

/// A replica that starts an election keeps an election that is under way
/// under way.
proof fn lemma_electing_start(r: Ring, p: int)
    requires
        ring_inv(r),
        0 <= p < r.nodes.len(),
        electing(r),
    ensures
        electing(ring_step(r, RingEvent::Start(p))),
{
    let after = ring_step(r, RingEvent::Start(p));
    assert(!r.flying.contains_key(r.sent));
    assert forall|q: int| 0 <= q < after.nodes.len() implies (#[trigger] after.nodes[q]).leader_id
        == after.nodes[0].leader_id && !after.nodes[q].is_primary by {
        assert(r.nodes[q].leader_id == r.nodes[0].leader_id && !r.nodes[q].is_primary);
        assert(!r.nodes[0].is_primary);
    }
    assert forall|q: int|
        0 <= q < after.nodes.len() && (#[trigger] after.nodes[q]).election_running implies candidate_covers(
        after.flying,
        after.nodes[q].id,
    ) by {
        if q == p {
            assert(after.flying.contains_key(r.sent));
        } else {
            assert(r.nodes[q].election_running);
            let key = choose|key: int| #[trigger]
                r.flying.contains_key(key) && r.flying[key].token is Candidate
                    && r.flying[key].token->Candidate_0 >= r.nodes[q].id;
            assert(after.flying.contains_key(key));
        }
    }
}

/// A candidate token that arrives while the election is under way leaves it
/// under way, or brings the announcement.
proof fn lemma_electing_candidate(r: Ring, taken: int)
    requires
        ring_inv(r),
        r.flying.contains_key(taken),
        r.flying[taken].token is Candidate,
        electing(r),
    ensures
        electing(ring_step(r, RingEvent::Deliver(taken))) || announcing(
            ring_step(r, RingEvent::Deliver(taken)),
        ),
{
    let after = ring_step(r, RingEvent::Deliver(taken));
    let f = r.flying[taken];
    let p = f.to;
    let k = f.token->Candidate_0;
    assert(token_inv(r.nodes, f));
    let step = election_step(r.nodes[p], f.token);
    assert(!r.flying.contains_key(r.sent));
    if k == r.nodes[p].id {
        assert(after.flying.contains_key(r.sent));
        assert(after.flying[r.sent].token is Leader);
    } else {
        assert forall|q: int| 0 <= q < after.nodes.len() implies (
        #[trigger] after.nodes[q]).leader_id == after.nodes[0].leader_id
            && !after.nodes[q].is_primary by {
            assert(r.nodes[q].leader_id == r.nodes[0].leader_id && !r.nodes[q].is_primary);
            assert(!r.nodes[0].is_primary);
        }
        // The token that covers the replica at `p`, where that is a candidate
        // already and so takes the arriving token out of the ring.
        let own = choose|key: int| #[trigger]
            r.flying.contains_key(key) && r.flying[key].token is Candidate
                && r.flying[key].token->Candidate_0 >= r.nodes[p].id;
        assert forall|q: int|
            0 <= q < after.nodes.len() && (#[trigger] after.nodes[q]).election_running implies candidate_covers(
            after.flying,
            after.nodes[q].id,
        ) by {
            if q == p && !r.nodes[p].election_running {
                assert(after.flying.contains_key(r.sent));
            } else {
                assert(r.nodes[q].election_running);
                assert(after.nodes[q].id == r.nodes[q].id);
                let key = choose|key: int| #[trigger]
                    r.flying.contains_key(key) && r.flying[key].token is Candidate
                        && r.flying[key].token->Candidate_0 >= r.nodes[q].id;
                if key != taken {
                    assert(after.flying.contains_key(key));
                } else if step.forward is Some {
                    assert(after.flying.contains_key(r.sent));
                } else {
                    assert(r.nodes[p].election_running);
                    assert(own != taken);
                    assert(after.flying.contains_key(own));
                }
            }
        }
    }
}

/// A frame that neither changes what a replica says of leader and primary
/// nor touches an id stays well when a replica's state is replaced.
proof fn lemma_token_kept(
    nodes: Seq<ElectionState>,
    p: int,
    next: ElectionState,
    f: InFlight,
    )
    requires
        0 <= p < nodes.len(),
        token_inv(nodes, f),
        next.id == nodes[p].id,
        f.token is Leader ==> (next.leader_id == nodes[p].leader_id && next.is_primary
            == nodes[p].is_primary) || (next.leader_id == f.token->Leader_0 && (!next.is_primary
            || next.id == f.token->Leader_0)),
        distinct_ids(nodes),
    ensures
        token_inv(nodes.update(p, next), f),
{
    let after = nodes.update(p, next);
    match f.token {
        Token::Candidate(k) => {
            let origin = choose|origin: int| candidate_from(nodes, k, f.to, origin);
            assert(candidate_from(after, k, f.to, origin)) by {
                assert forall|x: int|
                    0 <= x < after.len() && strictly_between(origin, f.to, x) implies (
                #[trigger] after[x]).id < k by {
                    assert(nodes[x].id < k);
                }
            }
        },
        Token::Leader(k) => {
            let origin = choose|origin: int| leader_from(nodes, k, f.to, origin);
            assert(leader_from(after, k, f.to, origin)) by {
                assert forall|x: int| 0 <= x < after.len() implies (#[trigger] after[x]).id
                    <= k by {
                    assert(nodes[x].id <= k);
                }
                assert forall|x: int|
                    0 <= x < after.len() && strictly_between(origin, f.to, x) implies (
                #[trigger] after[x]).leader_id == k && !after[x].is_primary by {
                    assert(nodes[x].leader_id == k && !nodes[x].is_primary);
                    if x == p && next.id == k {
                        assert(nodes[origin].id == nodes[p].id);
                    }
                }
            }
        },
    }
}

/// Agreement is kept while no replica changes what it says of leader and
/// primary.
proof fn lemma_agreed_kept(nodes: Seq<ElectionState>, p: int, next: ElectionState)
    requires
        0 <= p < nodes.len(),
        agreed(nodes),
        next.leader_id == nodes[p].leader_id,
        next.is_primary == nodes[p].is_primary,
    ensures
        agreed(nodes.update(p, next)),
{
    let after = nodes.update(p, next);
    let q = choose|q: int|
        0 <= q < nodes.len() && (#[trigger] nodes[q]).is_primary && forall|x: int|
            0 <= x < nodes.len() && x != q ==> !(#[trigger] nodes[x]).is_primary;
    assert forall|x: int| 0 <= x < after.len() implies (#[trigger] after[x]).leader_id
        == after[0].leader_id by {
        assert(nodes[x].leader_id == nodes[0].leader_id);
    }
    assert(after[q].is_primary);
    assert forall|x: int| 0 <= x < after.len() && x != q implies !(#[trigger] after[x]).is_primary by {
        assert(!nodes[x].is_primary);
    }
}

/// Every event keeps the ring well.
pub proof fn lemma_ring_step(r: Ring, e: RingEvent)
    requires
        ring_inv(r),
        ring_event_ok(r, e),
    ensures
        ring_inv(ring_step(r, e)),
{
    let n = r.nodes.len() as int;
    let after = ring_step(r, e);
    match e {
        RingEvent::Start(p) => {
            let step = election_start(r.nodes[p]);
            assert(after.nodes == r.nodes.update(p, step.next));
            let sent = InFlight { token: Token::Candidate(r.nodes[p].id), to: next_pos(p, n) };
            assert(candidate_from(after.nodes, r.nodes[p].id, sent.to, p));
            assert forall|key: int| #[trigger] after.flying.contains_key(key) implies token_inv(
                after.nodes,
                after.flying[key],
            ) by {
                if key != r.sent {
                    assert(r.flying.contains_key(key));
                    lemma_token_kept(r.nodes, p, step.next, r.flying[key]);
                    assert(after.flying[key] == r.flying[key]);
                    assert(token_inv(after.nodes, after.flying[key]));
                } else {
                    assert(after.flying[key] == sent);
                    lemma_candidate_ok(after.nodes, sent.to, r.nodes[p].id, p);
                }
            }
            assert(distinct_ids(after.nodes)) by {
                assert forall|i: int, j: int|
                    0 <= i < after.nodes.len() && 0 <= j < after.nodes.len() && i != j implies (
                #[trigger] after.nodes[i]).id != (#[trigger] after.nodes[j]).id by {
                    assert(r.nodes[i].id != r.nodes[j].id);
                }
            }
            if agreed(r.nodes) {
                lemma_agreed_kept(r.nodes, p, step.next);
            } else if announcing(r) {
                let key = choose|key: int| #[trigger]
                    r.flying.contains_key(key) && r.flying[key].token is Leader;
                assert(after.flying.contains_key(key));
            } else {
                lemma_electing_start(r, p);
            }
        },
        RingEvent::Deliver(taken) => {
            let f = r.flying[taken];
            let p = f.to;
            assert(token_inv(r.nodes, f));
            let step = election_step(r.nodes[p], f.token);
            assert(after.nodes == r.nodes.update(p, step.next));
            assert(distinct_ids(after.nodes)) by {
                assert forall|i: int, j: int|
                    0 <= i < after.nodes.len() && 0 <= j < after.nodes.len() && i != j implies (
                #[trigger] after.nodes[i]).id != (#[trigger] after.nodes[j]).id by {
                    assert(r.nodes[i].id != r.nodes[j].id);
                }
            }
            match f.token {
                Token::Candidate(k) => {
                    let origin = choose|origin: int| candidate_from(r.nodes, k, p, origin);
                    assert forall|key: int| #[trigger]
                        after.flying.contains_key(key) implies token_inv(
                        after.nodes,
                        after.flying[key],
                    ) by {
                        assert(!r.flying.contains_key(r.sent));
                        if key != r.sent {
                            assert(r.flying.contains_key(key));
                            lemma_token_kept(r.nodes, p, step.next, r.flying[key]);
                        } else {
                            let to = next_pos(p, n);
                            assert(step.forward is Some);
                            assert(after.flying[key] == InFlight { token: step.forward->0, to });
                            assert(0 <= to < n);
                            if k > r.nodes[p].id {
                                assert(candidate_from(after.nodes, k, to, origin)) by {
                                    assert forall|x: int|
                                        0 <= x < n && strictly_between(
                                            origin,
                                            to,
                                            x,
                                        ) implies (#[trigger] after.nodes[x]).id < k by {
                                        if x != p {
                                            assert(strictly_between(origin, p, x));
                                            assert(r.nodes[x].id < k);
                                        }
                                    }
                                }
                                lemma_candidate_ok(after.nodes, to, k, origin);
                            } else if k == r.nodes[p].id {
                                assert(origin == p);
                                assert(leader_from(after.nodes, k, to, p)) by {
                                    assert forall|x: int| 0 <= x < n implies (
                                    #[trigger] after.nodes[x]).id <= k by {
                                        if x != p {
                                            assert(strictly_between(p, p, x));
                                            assert(r.nodes[x].id < k);
                                        }
                                    }
                                }
                                lemma_leader_ok(after.nodes, to, k, p);
                            } else {
                                assert(candidate_from(after.nodes, r.nodes[p].id, to, p));
                                lemma_candidate_ok(after.nodes, to, r.nodes[p].id, p);
                            }
                        }
                    }
                    if agreed(r.nodes) {
                        lemma_agreed_kept(r.nodes, p, step.next);
                    } else if announcing(r) {
                        let key = choose|key: int| #[trigger]
                            r.flying.contains_key(key) && r.flying[key].token is Leader;
                        assert(after.flying.contains_key(key));
                    } else {
                        lemma_electing_candidate(r, taken);
                    }
                },
                Token::Leader(k) => {
                    let origin = choose|origin: int| leader_from(r.nodes, k, p, origin);
                    assert forall|key: int| #[trigger]
                        after.flying.contains_key(key) implies token_inv(
                        after.nodes,
                        after.flying[key],
                    ) by {
                        assert(!r.flying.contains_key(r.sent));
                        if key != r.sent || step.forward is None {
                            assert(r.flying.contains_key(key));
                            let g = r.flying[key];
                            assert(token_inv(r.nodes, g));
                            if g.token is Leader {
                                let other = choose|other: int|
                                    leader_from(r.nodes, g.token->Leader_0, g.to, other);
                                assert(r.nodes[other].id <= k);
                                assert(r.nodes[origin].id <= g.token->Leader_0);
                            }
                            lemma_token_kept(r.nodes, p, step.next, g);
                        } else {
                            let to = next_pos(p, n);
                            assert(after.flying[key] == InFlight { token: step.forward->0, to });
                            assert(0 <= to < n);
                            assert(p != origin);
                            assert(leader_from(after.nodes, k, to, origin)) by {
                                assert forall|x: int| 0 <= x < n implies (
                                #[trigger] after.nodes[x]).id <= k by {
                                    assert(r.nodes[x].id <= k);
                                }
                                assert forall|x: int|
                                    0 <= x < n && strictly_between(origin, to, x) implies (
                                #[trigger] after.nodes[x]).leader_id == k
                                    && !after.nodes[x].is_primary by {
                                    if x != p {
                                        assert(strictly_between(origin, p, x));
                                        assert(r.nodes[x].leader_id == k);
                                    }
                                }
                            }
                            lemma_leader_ok(after.nodes, to, k, origin);
                        }
                    }
                    if k == r.nodes[p].id {
                        assert(origin == p);
                        assert(agreed(after.nodes)) by {
                            assert forall|x: int| 0 <= x < n implies (
                            #[trigger] after.nodes[x]).leader_id == after.nodes[0].leader_id by {
                                if x != p {
                                    assert(strictly_between(p, p, x));
                                    assert(r.nodes[x].leader_id == k);
                                }
                                if 0 != p {
                                    assert(strictly_between(p, p, 0));
                                    assert(r.nodes[0].leader_id == k);
                                }
                            }
                            assert(after.nodes[p].is_primary);
                            assert forall|x: int| 0 <= x < n && x != p implies !(
                            #[trigger] after.nodes[x]).is_primary by {
                                assert(strictly_between(p, p, x));
                                assert(!r.nodes[x].is_primary);
                            }
                        }
                    } else {
                        assert(after.flying.contains_key(r.sent));
                        assert(after.flying[r.sent].token is Leader);
                    }
                },
            }
        },
    }
}

/// Leader uniqueness. On a ring that is well, whenever no election frame is
/// on its way, all replicas name the same leader and exactly one of them is
/// primary; or else the primary has left and no election has been started
/// since: the replicas name one leader, none is primary and none a
/// candidate.
pub proof fn lemma_leader_unique_when_quiescent(r: Ring)
    requires
        ring_inv(r),
        quiescent(r),
    ensures
        agreed(r.nodes) || (leaderless(r.nodes) && none_running(r.nodes)),
{
    if announcing(r) {
        let key = choose|key: int| #[trigger]
            r.flying.contains_key(key) && r.flying[key].token is Leader;
        assert(r.flying.dom().contains(key));
    }
    if !agreed(r.nodes) {
        assert forall|p: int| 0 <= p < r.nodes.len() implies !(
        #[trigger] r.nodes[p]).election_running by {
            if r.nodes[p].election_running {
                let key = choose|key: int| #[trigger]
                    r.flying.contains_key(key) && r.flying[key].token is Candidate
                        && r.flying[key].token->Candidate_0 >= r.nodes[p].id;
                assert(r.flying.dom().contains(key));
            }
        }
    }
}

/// An election ends in agreement. On a ring that is well, once a replica
/// has started an election, the election frames do not come to rest before
/// all replicas name the same leader and exactly one of them is primary.
pub proof fn lemma_election_ends_in_agreement(r: Ring, p: int)
    requires
        ring_inv(r),
        quiescent(r),
        0 <= p < r.nodes.len(),
        r.nodes[p].election_running,
    ensures
        agreed(r.nodes),
{
    lemma_leader_unique_when_quiescent(r);
}

/// Every announcement that is on its way names the greatest id of the ring.
pub proof fn lemma_announced_leader_is_greatest(r: Ring, key: int)
    requires
        ring_inv(r),
        r.flying.contains_key(key),
        r.flying[key].token is Leader,
    ensures
        forall|p: int|
            0 <= p < r.nodes.len() ==> (#[trigger] r.nodes[p]).id <= r.flying[key].token->Leader_0,
        exists|p: int|
            0 <= p < r.nodes.len() && (#[trigger] r.nodes[p]).id == r.flying[key].token->Leader_0,
{
    let f = r.flying[key];
    assert(token_inv(r.nodes, f));
    let origin = choose|origin: int| leader_from(r.nodes, f.token->Leader_0, f.to, origin);
    assert(r.nodes[origin].id == f.token->Leader_0);
}

} // verus!
