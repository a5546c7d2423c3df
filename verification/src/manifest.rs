//! The static cluster description and the ring that it defines.
//!
//! The order of the backend list is the order of the ring: the successor of a
//! replica is the next active entry after it, wrapping round; its predecessor
//! is the previous one.

use vstd::prelude::*;

verus! {

/// Where a front end or proxy listens.
#[derive(Debug, PartialEq, Eq)]
pub struct ConnectionInfo {
    pub address: String,
    pub port: u16,
}

/// One replica of the cluster.
#[derive(Debug, PartialEq, Eq)]
pub struct ReplicaInfo {
    pub id: u16,
    pub public_address: String,
    pub public_port: u16,
    /// Address on which the replica accepts its ring predecessor.
    pub address: String,
    /// Port on which the replica accepts its ring predecessor.
    pub socket_port: u16,
    pub active: bool,
}

/// The whole manifest. `backend` is ordered; its order defines the ring.
#[derive(Debug, PartialEq, Eq)]
pub struct ConnectionInfoDict {
    pub frontend: ConnectionInfo,
    pub proxy: ConnectionInfo,
    pub backend: Vec<ReplicaInfo>,
}

/// A joining replica `from`, and the member `effecting` in front of which it
/// enters the ring: whoever has `effecting` as successor retargets to `from`.
#[derive(Debug, PartialEq, Eq)]
pub struct NewConMessage {
    pub from: ReplicaInfo,
    pub effecting: ReplicaInfo,
}

impl Clone for ConnectionInfo {
    fn clone(&self) -> (copy: Self)
        ensures
            copy == *self,
    {
        ConnectionInfo { address: self.address.clone(), port: self.port }
    }
}

impl Clone for ReplicaInfo {
    fn clone(&self) -> (copy: Self)
        ensures
            copy == *self,
    {
        ReplicaInfo {
            id: self.id,
            public_address: self.public_address.clone(),
            public_port: self.public_port,
            address: self.address.clone(),
            socket_port: self.socket_port,
            active: self.active,
        }
    }
}

impl Clone for NewConMessage {
    fn clone(&self) -> (copy: Self)
        ensures
            copy == *self,
    {
        NewConMessage { from: self.from.clone(), effecting: self.effecting.clone() }
    }
}

/// The manifest as a mathematical object.
pub struct DictView {
    pub frontend: ConnectionInfo,
    pub proxy: ConnectionInfo,
    pub backend: Seq<ReplicaInfo>,
}

impl View for ConnectionInfoDict {
    type V = DictView;

    open spec fn view(&self) -> DictView {
        DictView { frontend: self.frontend, proxy: self.proxy, backend: self.backend@ }
    }
}

impl Clone for ConnectionInfoDict {
    fn clone(&self) -> (copy: Self)
        ensures
            copy@ == self@,
    {
        ConnectionInfoDict {
            frontend: self.frontend.clone(),
            proxy: self.proxy.clone(),
            backend: clone_backend(&self.backend),
        }
    }
}

/// A copy of a backend list.
pub fn clone_backend(backend: &Vec<ReplicaInfo>) -> (copy: Vec<ReplicaInfo>)
    ensures
        copy@ == backend@,
{
    let mut copy: Vec<ReplicaInfo> = Vec::new();
    let mut i: usize = 0;
    while i < backend.len()
        invariant
            i <= backend@.len(),
            copy@ == backend@.subrange(0, i as int),
        decreases backend@.len() - i,
    {
        copy.push(backend[i].clone());
        proof {
            assert(copy@ =~= backend@.subrange(0, i + 1));
        }
        i += 1;
    }
    proof {
        assert(copy@ =~= backend@);
    }
    copy
}

/// No two entries carry the same id.
pub open spec fn unique_ids(b: Seq<ReplicaInfo>) -> bool {
    forall|i: int, j: int| 0 <= i < b.len() && 0 <= j < b.len() && i != j ==> b[i].id != b[j].id
}

/// Some entry carries `id`.
pub open spec fn has_id(b: Seq<ReplicaInfo>, id: u16) -> bool {
    exists|i: int| 0 <= i < b.len() && b[i].id == id
}

/// `i` is the first position that carries `id`.
pub open spec fn is_first_index(b: Seq<ReplicaInfo>, id: u16, i: int) -> bool {
    &&& 0 <= i < b.len()
    &&& b[i].id == id
    &&& forall|j: int| 0 <= j < i ==> b[j].id != id
}

/// `i` is the last position that carries `id`.
pub open spec fn is_last_index(b: Seq<ReplicaInfo>, id: u16, i: int) -> bool {
    &&& 0 <= i < b.len()
    &&& b[i].id == id
    &&& forall|j: int| i < j < b.len() ==> b[j].id != id
}

/// The position `d` steps after `i` on a ring of `n` positions, for `0 <= d <= n`.
pub open spec fn clockwise(i: int, d: int, n: int) -> int {
    if i + d >= n {
        i + d - n
    } else {
        i + d
    }
}

/// The position `d` steps before `i` on a ring of `n` positions, for `0 <= d <= n`.
pub open spec fn counter_clockwise(i: int, d: int, n: int) -> int {
    if i - d < 0 {
        i - d + n
    } else {
        i - d
    }
}

/// The nearest active entry after position `i` lies `d` steps clockwise.
/// After a whole turn (`d == b.len()`) that entry is the one at `i` itself.
pub open spec fn is_next_active(b: Seq<ReplicaInfo>, i: int, d: int) -> bool {
    &&& 1 <= d <= b.len()
    &&& b[clockwise(i, d, b.len() as int)].active
    &&& forall|e: int| 1 <= e < d ==> !b[#[trigger] clockwise(i, e, b.len() as int)].active
}

/// The nearest active entry before position `i` lies `d` steps counter-clockwise.
pub open spec fn is_prev_active(b: Seq<ReplicaInfo>, i: int, d: int) -> bool {
    &&& 1 <= d <= b.len()
    &&& b[counter_clockwise(i, d, b.len() as int)].active
    &&& forall|e: int|
        1 <= e < d ==> !b[#[trigger] counter_clockwise(i, e, b.len() as int)].active
}

/// The ring successor of `id`: the id of the next active entry after the
/// first entry that carries `id`, wrapping round. It is `id` itself where no
/// entry carries `id` or none is active.
pub open spec fn successor_of(b: Seq<ReplicaInfo>, id: u16) -> u16 {
    if exists|i: int| is_first_index(b, id, i) {
        let i = choose|i: int| is_first_index(b, id, i);
        if exists|d: int| is_next_active(b, i, d) {
            let d = choose|d: int| is_next_active(b, i, d);
            b[clockwise(i, d, b.len() as int)].id
        } else {
            id
        }
    } else {
        id
    }
}

/// The ring predecessor of `id`: the id of the nearest active entry before
/// the last entry that carries `id`, wrapping round. It is `id` itself where
/// no entry carries `id` or none is active.
pub open spec fn predecessor_of(b: Seq<ReplicaInfo>, id: u16) -> u16 {
    if exists|i: int| is_last_index(b, id, i) {
        let i = choose|i: int| is_last_index(b, id, i);
        if exists|d: int| is_prev_active(b, i, d) {
            let d = choose|d: int| is_prev_active(b, i, d);
            b[counter_clockwise(i, d, b.len() as int)].id
        } else {
            id
        }
    } else {
        id
    }
}

/// The entries of `b` that do not carry `id`, in order.
pub open spec fn without_id(b: Seq<ReplicaInfo>, id: u16) -> Seq<ReplicaInfo>
    decreases b.len(),
{
    if b.len() == 0 {
        b
    } else if b.last().id == id {
        without_id(b.drop_last(), id)
    } else {
        without_id(b.drop_last(), id).push(b.last())
    }
}

/// The active entries of `b`, in order.
pub open spec fn only_active(b: Seq<ReplicaInfo>) -> Seq<ReplicaInfo>
    decreases b.len(),
{
    if b.len() == 0 {
        b
    } else if b.last().active {
        only_active(b.drop_last()).push(b.last())
    } else {
        only_active(b.drop_last())
    }
}

/// `b` with the `active` flag of every entry that carries `id` set to `active`.
pub open spec fn with_active(b: Seq<ReplicaInfo>, id: u16, active: bool) -> Seq<ReplicaInfo> {
    Seq::new(
        b.len(),
        |i: int|
            if b[i].id == id {
                ReplicaInfo { active, ..b[i] }
            } else {
                b[i]
            },
    )
}

/// Some entry other than those that carry `id` is active.
pub open spec fn has_active_peer(b: Seq<ReplicaInfo>, id: u16) -> bool {
    exists|i: int| 0 <= i < b.len() && b[i].id != id && b[i].active
}

/// The first entry that carries `id`.
pub open spec fn entry_of(b: Seq<ReplicaInfo>, id: u16) -> ReplicaInfo {
    b[choose|i: int| is_first_index(b, id, i)]
}

/// `i` is the first position of an active entry that does not carry `id`.
pub open spec fn is_first_peer(b: Seq<ReplicaInfo>, id: u16, i: int) -> bool {
    &&& 0 <= i < b.len()
    &&& b[i].id != id
    &&& b[i].active
    &&& forall|j: int| 0 <= j < i ==> !(b[j].id != id && b[j].active)
}

/// The first active entry that does not carry `id`.
pub open spec fn first_peer(b: Seq<ReplicaInfo>, id: u16) -> ReplicaInfo {
    b[choose|i: int| is_first_peer(b, id, i)]
}

/// Removing entries keeps every remaining entry, and nothing else.
pub proof fn lemma_without_id(b: Seq<ReplicaInfo>, id: u16)
    ensures
        without_id(b, id).len() <= b.len(),
        forall|k: int|
            0 <= k < without_id(b, id).len() ==> (#[trigger] without_id(b, id)[k]).id != id
                && b.contains(without_id(b, id)[k]),
        forall|i: int|
            0 <= i < b.len() && b[i].id != id ==> without_id(b, id).contains(#[trigger] b[i]),
        unique_ids(b) ==> unique_ids(without_id(b, id)),
        !has_id(b, id) ==> without_id(b, id) == b,
    decreases b.len(),
{
    if b.len() > 0 {
        let init = b.drop_last();
        lemma_without_id(init, id);
        let out = without_id(b, id);
        let sub = without_id(init, id);
        assert forall|k: int| 0 <= k < out.len() implies (#[trigger] out[k]).id != id
            && b.contains(out[k]) by {
            if k < sub.len() {
                assert(out[k] == sub[k]);
                assert(init.contains(sub[k]));
                let w = choose|w: int| 0 <= w < init.len() && init[w] == sub[k];
                assert(b[w] == sub[k]);
            } else {
                assert(out[k] == b[b.len() - 1]);
            }
        }
        assert forall|i: int| 0 <= i < b.len() && b[i].id != id implies out.contains(
            #[trigger] b[i],
        ) by {
            if i < init.len() {
                assert(init[i] == b[i]);
                assert(sub.contains(init[i]));
                let w = choose|w: int| 0 <= w < sub.len() && sub[w] == init[i];
                assert(out[w] == b[i]);
            } else {
                assert(out[out.len() - 1] == b[i]);
            }
        }
        if unique_ids(b) {
            assert(unique_ids(init)) by {
                assert forall|i: int, j: int|
                    0 <= i < init.len() && 0 <= j < init.len() && i != j implies init[i].id
                    != init[j].id by {
                    assert(init[i] == b[i] && init[j] == b[j]);
                }
            }
            assert forall|i: int, j: int|
                0 <= i < out.len() && 0 <= j < out.len() && i != j implies out[i].id
                != out[j].id by {
                if i < sub.len() && j < sub.len() {
                    assert(out[i] == sub[i] && out[j] == sub[j]);
                } else {
                    let inner = if i < sub.len() {
                        i
                    } else {
                        j
                    };
                    assert(out[inner] == sub[inner]);
                    assert(init.contains(sub[inner]));
                    let w = choose|w: int| 0 <= w < init.len() && init[w] == sub[inner];
                    assert(b[w].id != b[b.len() - 1].id);
                }
            }
        }
        if !has_id(b, id) {
            assert(!has_id(init, id)) by {
                if has_id(init, id) {
                    let w = choose|w: int| 0 <= w < init.len() && init[w].id == id;
                    assert(b[w].id == id);
                }
            }
            assert(b[b.len() - 1].id != id);
            assert(out =~= b);
        }
    }
}

/// Setting flags changes no id.
pub proof fn lemma_with_active(b: Seq<ReplicaInfo>, id: u16, active: bool)
    ensures
        with_active(b, id, active).len() == b.len(),
        forall|i: int| 0 <= i < b.len() ==> (#[trigger] with_active(b, id, active)[i]).id == b[i].id,
        unique_ids(b) ==> unique_ids(with_active(b, id, active)),
{
    let out = with_active(b, id, active);
    if unique_ids(b) {
        assert forall|i: int, j: int|
            0 <= i < out.len() && 0 <= j < out.len() && i != j implies out[i].id != out[j].id by {
            assert(out[i].id == b[i].id && out[j].id == b[j].id);
        }
    }
}

/// An entry enters a manifest in place of any entry of the same id.
pub proof fn lemma_replace_entry(b: Seq<ReplicaInfo>, info: ReplicaInfo)
    requires
        unique_ids(b),
    ensures
        unique_ids(without_id(b, info.id).push(info)),
{
    lemma_without_id(b, info.id);
    let kept = without_id(b, info.id);
    let out = kept.push(info);
    assert forall|i: int, j: int|
        0 <= i < out.len() && 0 <= j < out.len() && i != j implies out[i].id != out[j].id by {
        if i < kept.len() {
            assert(out[i] == kept[i]);
        }
        if j < kept.len() {
            assert(out[j] == kept[j]);
        }
    }
}

/// Keeping the active entries keeps each of them, and nothing else.
pub proof fn lemma_only_active(b: Seq<ReplicaInfo>)
    ensures
        only_active(b).len() <= b.len(),
        forall|k: int|
            0 <= k < only_active(b).len() ==> (#[trigger] only_active(b)[k]).active && b.contains(
                only_active(b)[k],
            ),
        forall|i: int| 0 <= i < b.len() && b[i].active ==> only_active(b).contains(#[trigger] b[i]),
        unique_ids(b) ==> unique_ids(only_active(b)),
    decreases b.len(),
{
    if b.len() > 0 {
        let init = b.drop_last();
        lemma_only_active(init);
        let out = only_active(b);
        let sub = only_active(init);
        assert forall|k: int| 0 <= k < out.len() implies (#[trigger] out[k]).active && b.contains(
            out[k],
        ) by {
            if k < sub.len() {
                assert(out[k] == sub[k]);
                assert(init.contains(sub[k]));
                let w = choose|w: int| 0 <= w < init.len() && init[w] == sub[k];
                assert(b[w] == sub[k]);
            } else {
                assert(out[k] == b[b.len() - 1]);
            }
        }
        assert forall|i: int| 0 <= i < b.len() && b[i].active implies out.contains(
            #[trigger] b[i],
        ) by {
            if i < init.len() {
                assert(init[i] == b[i]);
                assert(sub.contains(init[i]));
                let w = choose|w: int| 0 <= w < sub.len() && sub[w] == init[i];
                assert(out[w] == b[i]);
            } else {
                assert(out[out.len() - 1] == b[i]);
            }
        }
        if unique_ids(b) {
            assert(unique_ids(init)) by {
                assert forall|i: int, j: int|
                    0 <= i < init.len() && 0 <= j < init.len() && i != j implies init[i].id
                    != init[j].id by {
                    assert(init[i] == b[i] && init[j] == b[j]);
                }
            }
            assert forall|i: int, j: int|
                0 <= i < out.len() && 0 <= j < out.len() && i != j implies out[i].id
                != out[j].id by {
                if i < sub.len() && j < sub.len() {
                    assert(out[i] == sub[i] && out[j] == sub[j]);
                } else {
                    let inner = if i < sub.len() {
                        i
                    } else {
                        j
                    };
                    assert(out[inner] == sub[inner]);
                    assert(init.contains(sub[inner]));
                    let w = choose|w: int| 0 <= w < init.len() && init[w] == sub[inner];
                    assert(b[w].id != b[b.len() - 1].id);
                }
            }
        }
    }
}

/// From an active position, some number of steps clockwise reaches the next
/// active entry.
pub proof fn lemma_next_active_exists(b: Seq<ReplicaInfo>, i: int, d: int)
    requires
        0 <= i < b.len(),
        1 <= d <= b.len(),
        b[clockwise(i, d, b.len() as int)].active,
    ensures
        exists|c: int| is_next_active(b, i, c),
    decreases d,
{
    if exists|e: int| 1 <= e < d && b[clockwise(i, e, b.len() as int)].active {
        let e = choose|e: int| 1 <= e < d && b[clockwise(i, e, b.len() as int)].active;
        lemma_next_active_exists(b, i, e);
    } else {
        assert(is_next_active(b, i, d));
    }
}

/// From an active position, some number of steps counter-clockwise reaches the
/// previous active entry.
pub proof fn lemma_prev_active_exists(b: Seq<ReplicaInfo>, i: int, d: int)
    requires
        0 <= i < b.len(),
        1 <= d <= b.len(),
        b[counter_clockwise(i, d, b.len() as int)].active,
    ensures
        exists|c: int| is_prev_active(b, i, c),
    decreases d,
{
    if exists|e: int| 1 <= e < d && b[counter_clockwise(i, e, b.len() as int)].active {
        let e = choose|e: int| 1 <= e < d && b[counter_clockwise(i, e, b.len() as int)].active;
        lemma_prev_active_exists(b, i, e);
    } else {
        assert(is_prev_active(b, i, d));
    }
}

/// Ring closure. In a manifest that names each replica once, every active
/// replica is the predecessor of its successor and the successor of its
/// predecessor.
pub proof fn lemma_ring_closure(b: Seq<ReplicaInfo>, r: u16)
    requires
        unique_ids(b),
        exists|i: int| 0 <= i < b.len() && b[i].id == r && b[i].active,
    ensures
        predecessor_of(b, successor_of(b, r)) == r,
        successor_of(b, predecessor_of(b, r)) == r,
{
    let n = b.len() as int;
    let i = choose|i: int| 0 <= i < b.len() && b[i].id == r && b[i].active;
    assert(is_first_index(b, r, i));
    assert(is_last_index(b, r, i));
    let first = choose|f: int| is_first_index(b, r, f);
    let last = choose|l: int| is_last_index(b, r, l);
    assert(first == i && last == i);
    assert(clockwise(i, n, n) == i);
    assert(counter_clockwise(i, n, n) == i);

    // Forward, then back.
    lemma_next_active_exists(b, i, n);
    let d = choose|d: int| is_next_active(b, i, d);
    let j = clockwise(i, d, n);
    assert(successor_of(b, r) == b[j].id);
    assert(is_last_index(b, b[j].id, j));
    let back_from = choose|l: int| is_last_index(b, b[j].id, l);
    assert(back_from == j);
    assert(counter_clockwise(j, d, n) == i);
    assert(is_prev_active(b, j, d)) by {
        assert forall|e: int| 1 <= e < d implies !b[#[trigger] counter_clockwise(j, e, n)].active by {
            assert(counter_clockwise(j, e, n) == clockwise(i, d - e, n));
        }
    }
    let back = choose|c: int| is_prev_active(b, j, c);
    assert(back == d) by {
        if back < d {
            assert(counter_clockwise(j, back, n) == clockwise(i, d - back, n));
        }
        if d < back {
            assert(!b[counter_clockwise(j, d, n)].active);
        }
    }

    // Back, then forward.
    lemma_prev_active_exists(b, i, n);
    let p = choose|p: int| is_prev_active(b, i, p);
    let k = counter_clockwise(i, p, n);
    assert(predecessor_of(b, r) == b[k].id);
    assert(is_first_index(b, b[k].id, k));
    let forward_from = choose|f: int| is_first_index(b, b[k].id, f);
    assert(forward_from == k);
    assert(clockwise(k, p, n) == i);
    assert(is_next_active(b, k, p)) by {
        assert forall|e: int| 1 <= e < p implies !b[#[trigger] clockwise(k, e, n)].active by {
            assert(clockwise(k, e, n) == counter_clockwise(i, p - e, n));
        }
    }
    let forward = choose|c: int| is_next_active(b, k, c);
    assert(forward == p) by {
        if forward < p {
            assert(clockwise(k, forward, n) == counter_clockwise(i, p - forward, n));
        }
        if p < forward {
            assert(!b[clockwise(k, p, n)].active);
        }
    }
}

/// The replica reached from `id` by going to the successor `k` times.
pub open spec fn successor_after(b: Seq<ReplicaInfo>, id: u16, k: nat) -> u16
    decreases k,
{
    if k == 0 {
        id
    } else {
        successor_after(b, successor_of(b, id), (k - 1) as nat)
    }
}

/// How many steps clockwise lead from position `i` to position `j`.
pub open spec fn steps_between(i: int, j: int, n: int) -> int {
    if j >= i {
        j - i
    } else {
        j - i + n
    }
}

/// No two active replicas have the same successor.
pub proof fn lemma_successor_injective(b: Seq<ReplicaInfo>, r: u16, q: u16)
    requires
        unique_ids(b),
        exists|i: int| 0 <= i < b.len() && b[i].id == r && b[i].active,
        exists|i: int| 0 <= i < b.len() && b[i].id == q && b[i].active,
        successor_of(b, r) == successor_of(b, q),
    ensures
        r == q,
{
    lemma_ring_closure(b, r);
    lemma_ring_closure(b, q);
}

/// The ring is connected. In a manifest that names each replica once,
/// every active replica is reached from every other by going from
/// successor to successor, in no more steps than lie between them. With
/// `lemma_successor_injective`, a frame that goes round from an active
/// replica passes every active replica once before it is back.
pub proof fn lemma_ring_connected(b: Seq<ReplicaInfo>, i: int, j: int)
    requires
        unique_ids(b),
        0 <= i < b.len(),
        0 <= j < b.len(),
        b[i].active,
        b[j].active,
    ensures
        exists|k: nat|
            k <= steps_between(i, j, b.len() as int) && #[trigger] successor_after(b, b[i].id, k)
                == b[j].id,
    decreases steps_between(i, j, b.len() as int),
{
    let n = b.len() as int;
    let d = steps_between(i, j, n);
    if d == 0 {
        assert(successor_after(b, b[i].id, 0) == b[j].id);
    } else {
        assert(clockwise(i, d, n) == j);
        lemma_next_active_exists(b, i, d);
        let c = choose|c: int| is_next_active(b, i, c);
        assert(c <= d) by {
            if d < c {
                assert(!b[clockwise(i, d, n)].active);
            }
        }
        let next = clockwise(i, c, n);
        assert(is_first_index(b, b[i].id, i));
        let first = choose|f: int| is_first_index(b, b[i].id, f);
        assert(first == i);
        assert(successor_of(b, b[i].id) == b[next].id);
        assert(steps_between(next, j, n) == d - c);
        lemma_ring_connected(b, next, j);
        let k = choose|k: nat|
            k <= steps_between(next, j, n) && #[trigger] successor_after(b, b[next].id, k)
                == b[j].id;
        assert(successor_after(b, b[i].id, k + 1) == b[j].id);
    }
}

/// The successor and the predecessor of a replica are active members of the
/// manifest, unless the replica is unknown or nothing is active.
pub proof fn lemma_neighbours_are_active(b: Seq<ReplicaInfo>, r: u16)
    requires
        has_id(b, r),
        exists|i: int| 0 <= i < b.len() && b[i].active,
    ensures
        exists|i: int| 0 <= i < b.len() && b[i].active && b[i].id == successor_of(b, r),
        exists|i: int| 0 <= i < b.len() && b[i].active && b[i].id == predecessor_of(b, r),
{
    let n = b.len() as int;
    let a = choose|a: int| 0 <= a < b.len() && b[a].active;
    lemma_first_index_exists(b, r, n);
    let i = choose|i: int| is_first_index(b, r, i);
    let da = if a > i {
        a - i
    } else {
        a - i + n
    };
    assert(clockwise(i, da, n) == a);
    lemma_next_active_exists(b, i, da);
    let d = choose|d: int| is_next_active(b, i, d);
    assert(b[clockwise(i, d, n)].active);

    lemma_last_index_exists(b, r, 0);
    let l = choose|l: int| is_last_index(b, r, l);
    let db = if a < l {
        l - a
    } else {
        l - a + n
    };
    assert(counter_clockwise(l, db, n) == a);
    lemma_prev_active_exists(b, l, db);
    let p = choose|p: int| is_prev_active(b, l, p);
    assert(b[counter_clockwise(l, p, n)].active);
}

/// An id that occurs before position `upto` has a first position.
pub proof fn lemma_first_index_exists(b: Seq<ReplicaInfo>, id: u16, upto: int)
    requires
        0 <= upto <= b.len(),
        exists|i: int| 0 <= i < upto && b[i].id == id,
    ensures
        exists|i: int| is_first_index(b, id, i),
    decreases upto,
{
    let i = choose|i: int| 0 <= i < upto && b[i].id == id;
    if exists|j: int| 0 <= j < i && b[j].id == id {
        lemma_first_index_exists(b, id, i);
    } else {
        assert(is_first_index(b, id, i));
    }
}

/// Where some replica other than `id` is active, there is a first one: the
/// first peer is an entry of the manifest, is active and does not carry
/// `id`, and no entry before it is an active peer.
pub proof fn lemma_first_peer_exists(b: Seq<ReplicaInfo>, id: u16)
    requires
        has_active_peer(b, id),
    ensures
        exists|i: int| is_first_peer(b, id, i),
        b.contains(first_peer(b, id)),
        first_peer(b, id).id != id,
        first_peer(b, id).active,
{
    let i = choose|i: int| 0 <= i < b.len() && b[i].id != id && b[i].active;
    lemma_first_peer_before(b, id, i);
    let f = choose|f: int| is_first_peer(b, id, f);
    assert(b[f] == first_peer(b, id));
}

/// An active peer at position `at` has a first active peer at or before it.
proof fn lemma_first_peer_before(b: Seq<ReplicaInfo>, id: u16, at: int)
    requires
        0 <= at < b.len(),
        b[at].id != id,
        b[at].active,
    ensures
        exists|i: int| is_first_peer(b, id, i),
    decreases at,
{
    if exists|j: int| 0 <= j < at && b[j].id != id && b[j].active {
        let j = choose|j: int| 0 <= j < at && b[j].id != id && b[j].active;
        lemma_first_peer_before(b, id, j);
    } else {
        assert(is_first_peer(b, id, at));
    }
}

/// An id that occurs from position `from` on has a last position.
pub proof fn lemma_last_index_exists(b: Seq<ReplicaInfo>, id: u16, from: int)
    requires
        0 <= from <= b.len(),
        exists|i: int| from <= i < b.len() && b[i].id == id,
    ensures
        exists|i: int| is_last_index(b, id, i),
    decreases b.len() - from,
{
    let i = choose|i: int| from <= i < b.len() && b[i].id == id;
    if exists|j: int| i < j < b.len() && b[j].id == id {
        lemma_last_index_exists(b, id, i + 1);
    } else {
        assert(is_last_index(b, id, i));
    }
}

impl ConnectionInfoDict {
    /// The manifest names each replica once.
    pub open spec fn wf(&self) -> bool {
        unique_ids(self.backend@)
    }

    /// Address and port on which replica `id` accepts its ring predecessor.
    /// `None` exactly when no entry carries `id`.
    pub fn get_socket_addr(backend: &Vec<ReplicaInfo>, id: u16) -> (addr: Option<(String, u16)>)
        ensures
            addr is Some <==> has_id(backend@, id),
            addr matches Some(a) ==> a.0 == entry_of(backend@, id).address && a.1 == entry_of(
                backend@,
                id,
            ).socket_port,
    {
        match Self::get_own_info(backend, id) {
            Some(info) => Some((info.address.clone(), info.socket_port)),
            None => None,
        }
    }

    /// The id of the next active replica after `id` on the ring.
    pub fn get_successor_id(backend: &Vec<ReplicaInfo>, id: u16) -> (succ: u16)
        ensures
            succ == successor_of(backend@, id),
    {
        let n = backend.len();
        let mut i: usize = 0;
        while i < n && backend[i].id != id
            invariant
                n == backend@.len(),
                i <= n,
                forall|j: int| 0 <= j < i ==> backend@[j].id != id,
            decreases n - i,
        {
            i += 1;
        }
        if i == n {
            return id;
        }
        assert(is_first_index(backend@, id, i as int));
        let to_end = n - i;
        let mut k: usize = 0;
        while k < n
            invariant
                n == backend@.len(),
                i < n,
                to_end == n - i,
                k <= n,
                is_first_index(backend@, id, i as int),
                forall|e: int| 1 <= e <= k ==> !backend@[#[trigger] clockwise(i as int, e, n as int)].active,
            decreases n - k,
        {
            let d = k + 1;
            let j = if d >= to_end {
                d - to_end
            } else {
                i + d
            };
            assert(j == clockwise(i as int, d as int, n as int));
            if backend[j].active {
                assert(is_next_active(backend@, i as int, d as int));
                proof {
                    let first = choose|f: int| is_first_index(backend@, id, f);
                    assert(first == i);
                    let c = choose|c: int| is_next_active(backend@, i as int, c);
                    assert(c == d) by {
                        if c < d {
                            assert(!backend@[clockwise(i as int, c, n as int)].active);
                        }
                        if d < c {
                            assert(!backend@[clockwise(i as int, d as int, n as int)].active);
                        }
                    }
                }
                return backend[j].id;
            }
            k += 1;
        }
        proof {
            let first = choose|f: int| is_first_index(backend@, id, f);
            assert(first == i);
            assert forall|d: int| !is_next_active(backend@, i as int, d) by {
                if 1 <= d <= n {
                    assert(!backend@[clockwise(i as int, d, n as int)].active);
                }
            }
        }
        id
    }

    /// The id of the nearest active replica before `id` on the ring.
    pub fn get_predecessor_id(backend: &Vec<ReplicaInfo>, id: u16) -> (pred: u16)
        ensures
            pred == predecessor_of(backend@, id),
    {
        let n = backend.len();
        let mut i: usize = n;
        while i > 0 && backend[i - 1].id != id
            invariant
                n == backend@.len(),
                i <= n,
                forall|j: int| i <= j < n ==> backend@[j].id != id,
            decreases i,
        {
            i -= 1;
        }
        if i == 0 {
            return id;
        }
        let i = i - 1;
        assert(is_last_index(backend@, id, i as int));
        let mut k: usize = 0;
        while k < n
            invariant
                n == backend@.len(),
                i < n,
                k <= n,
                is_last_index(backend@, id, i as int),
                forall|e: int|
                    1 <= e <= k ==> !backend@[#[trigger] counter_clockwise(
                        i as int,
                        e,
                        n as int,
                    )].active,
            decreases n - k,
        {
            let d = k + 1;
            let j = if d > i {
                n - (d - i)
            } else {
                i - d
            };
            assert(j == counter_clockwise(i as int, d as int, n as int));
            if backend[j].active {
                assert(is_prev_active(backend@, i as int, d as int));
                proof {
                    let last = choose|l: int| is_last_index(backend@, id, l);
                    assert(last == i);
                    let c = choose|c: int| is_prev_active(backend@, i as int, c);
                    assert(c == d) by {
                        if c < d {
                            assert(!backend@[counter_clockwise(i as int, c, n as int)].active);
                        }
                        if d < c {
                            assert(!backend@[counter_clockwise(i as int, d as int, n as int)].active);
                        }
                    }
                }
                return backend[j].id;
            }
            k += 1;
        }
        proof {
            let last = choose|l: int| is_last_index(backend@, id, l);
            assert(last == i);
            assert forall|d: int| !is_prev_active(backend@, i as int, d) by {
                if 1 <= d <= n {
                    assert(!backend@[counter_clockwise(i as int, d, n as int)].active);
                }
            }
        }
        id
    }

    /// The first entry that carries `id`. `None` exactly when there is none.
    pub fn get_own_info(backend: &Vec<ReplicaInfo>, id: u16) -> (info: Option<&ReplicaInfo>)
        ensures
            info is Some <==> has_id(backend@, id),
            info matches Some(r) ==> *r == entry_of(backend@, id),
    {
        let mut i: usize = 0;
        while i < backend.len()
            invariant
                i <= backend@.len(),
                forall|j: int| 0 <= j < i ==> backend@[j].id != id,
            decreases backend@.len() - i,
        {
            if backend[i].id == id {
                assert(is_first_index(backend@, id, i as int));
                proof {
                    let c = choose|c: int| is_first_index(backend@, id, c);
                    assert(c == i);
                }
                return Some(&backend[i]);
            }
            i += 1;
        }
        None
    }

    /// Sets the `active` flag of every entry that carries `id`.
    pub fn set_active(backend: &mut Vec<ReplicaInfo>, id: u16, active: bool)
        ensures
            final(backend)@ == with_active(old(backend)@, id, active),
    {
        let mut i: usize = 0;
        while i < backend.len()
            invariant
                i <= backend@.len(),
                backend@.len() == old(backend)@.len(),
                forall|j: int| 0 <= j < i ==> backend@[j] == with_active(old(backend)@, id, active)[j],
                forall|j: int| i <= j < backend@.len() ==> backend@[j] == old(backend)@[j],
            decreases backend@.len() - i,
        {
            if backend[i].id == id {
                let mut entry = backend[i].clone();
                entry.active = active;
                backend.set(i, entry);
            }
            i += 1;
        }
        proof {
            assert(backend@ =~= with_active(old(backend)@, id, active));
        }
    }

    /// Drops every entry that is not active.
    pub fn retain_active(backend: &mut Vec<ReplicaInfo>)
        ensures
            final(backend)@ == only_active(old(backend)@),
    {
        let mut kept: Vec<ReplicaInfo> = Vec::new();
        let mut i: usize = 0;
        while i < backend.len()
            invariant
                i <= backend@.len(),
                backend@ == old(backend)@,
                kept@ == only_active(backend@.subrange(0, i as int)),
            decreases backend@.len() - i,
        {
            proof {
                assert(backend@.subrange(0, i + 1).drop_last() =~= backend@.subrange(0, i as int));
            }
            if backend[i].active {
                kept.push(backend[i].clone());
            }
            i += 1;
        }
        proof {
            assert(backend@.subrange(0, i as int) =~= backend@);
        }
        *backend = kept;
    }

    /// Drops every entry that carries `id`.
    pub fn remove(backend: &mut Vec<ReplicaInfo>, id: u16)
        ensures
            final(backend)@ == without_id(old(backend)@, id),
    {
        let mut kept: Vec<ReplicaInfo> = Vec::new();
        let mut i: usize = 0;
        while i < backend.len()
            invariant
                i <= backend@.len(),
                backend@ == old(backend)@,
                kept@ == without_id(backend@.subrange(0, i as int), id),
            decreases backend@.len() - i,
        {
            proof {
                assert(backend@.subrange(0, i + 1).drop_last() =~= backend@.subrange(0, i as int));
            }
            if backend[i].id != id {
                kept.push(backend[i].clone());
            }
            i += 1;
        }
        proof {
            assert(backend@.subrange(0, i as int) =~= backend@);
        }
        *backend = kept;
    }

    /// Whether no id occurs twice.
    pub fn has_unique_ids(backend: &Vec<ReplicaInfo>) -> (unique: bool)
        ensures
            unique == unique_ids(backend@),
    {
        let mut i: usize = 0;
        while i < backend.len()
            invariant
                i <= backend@.len(),
                forall|a: int, b: int| 0 <= a < b < i ==> backend@[a].id != backend@[b].id,
            decreases backend@.len() - i,
        {
            let mut j: usize = 0;
            while j < i
                invariant
                    j <= i < backend@.len(),
                    forall|a: int| 0 <= a < j ==> backend@[a].id != backend@[i as int].id,
                decreases i - j,
            {
                if backend[j].id == backend[i].id {
                    return false;
                }
                j += 1;
            }
            i += 1;
        }
        proof {
            assert forall|a: int, b: int|
                0 <= a < backend@.len() && 0 <= b < backend@.len() && a != b implies backend@[a].id
                != backend@[b].id by {
                if a < b {
                } else {
                    assert(backend@[b].id != backend@[a].id);
                }
            }
        }
        true
    }

    /// The first active entry that does not carry `id`: the peer to try
    /// first. `None` exactly when there is none.
    pub fn first_active_peer(backend: &Vec<ReplicaInfo>, id: u16) -> (peer: Option<&ReplicaInfo>)
        ensures
            peer is Some <==> has_active_peer(backend@, id),
            peer matches Some(r) ==> *r == first_peer(backend@, id) && r.id != id && r.active
                && backend@.contains(*r),
    {
        let mut i: usize = 0;
        while i < backend.len()
            invariant
                i <= backend@.len(),
                forall|j: int| 0 <= j < i ==> !(backend@[j].id != id && backend@[j].active),
            decreases backend@.len() - i,
        {
            if backend[i].id != id && backend[i].active {
                proof {
                    assert(is_first_peer(backend@, id, i as int));
                    let c = choose|c: int| is_first_peer(backend@, id, c);
                    assert(c == i);
                }
                return Some(&backend[i]);
            }
            i += 1;
        }
        None
    }

    /// Whether a replica other than `id` is active.
    pub fn has_active_peer(backend: &Vec<ReplicaInfo>, id: u16) -> (found: bool)
        ensures
            found == has_active_peer(backend@, id),
    {
        let mut i: usize = 0;
        while i < backend.len()
            invariant
                i <= backend@.len(),
                forall|j: int| 0 <= j < i ==> !(backend@[j].id != id && backend@[j].active),
            decreases backend@.len() - i,
        {
            if backend[i].id != id && backend[i].active {
                return true;
            }
            i += 1;
        }
        false
    }
}

} // verus!
