//! Updates that the primary has sent round the ring and that have not come
//! back yet.
//!
//! The primary keeps them in the order in which it sent them. A payload that
//! returns from the predecessor is checked against the oldest entry; an entry
//! that is still the oldest when its timer fires is given up.

use vstd::prelude::*;
use std::collections::VecDeque;

verus! {

/// How long the primary waits for an update to come back, in milliseconds.
pub const ACK_TIMEOUT_MS: u64 = 5000;

/// One update on its way round the ring.
#[derive(Debug, PartialEq, Eq)]
pub struct PendingAck {
    pub payload: Vec<u8>,
    /// When the update is given up, in milliseconds on the caller's clock.
    pub deadline: u64,
    /// The session that submitted the update.
    pub conn_id: u64,
}

/// A pending update as a mathematical object.
pub struct PendingAckView {
    pub payload: Seq<u8>,
    pub deadline: u64,
    pub conn_id: u64,
}

impl View for PendingAck {
    type V = PendingAckView;

    open spec fn view(&self) -> PendingAckView {
        PendingAckView { payload: self.payload@, deadline: self.deadline, conn_id: self.conn_id }
    }
}

/// How a payload that returns from the ring relates to the queue.
#[derive(Clone, Copy, Debug, PartialEq, Eq)]
pub enum AckCheck {
    /// It is the oldest pending update: it has gone round.
    Expected,
    /// Nothing is pending.
    Unexpected,
    /// Another update is the oldest one: a confirmation was lost or overtaken.
    Mismatch,
}

/// The oldest pending update carries `payload`.
pub open spec fn head_is(q: Seq<PendingAckView>, payload: Seq<u8>) -> bool {
    q.len() > 0 && q[0].payload == payload
}

/// How `payload`, returning from the ring, relates to the queue `q`.
pub open spec fn return_check(q: Seq<PendingAckView>, payload: Seq<u8>) -> AckCheck {
    if q.len() == 0 {
        AckCheck::Unexpected
    } else if q[0].payload == payload {
        AckCheck::Expected
    } else {
        AckCheck::Mismatch
    }
}

/// The queue after `payload` has returned from the ring: an oldest entry
/// that is not the returning one is dropped, since its confirmation will not
/// come any more.
pub open spec fn after_return(q: Seq<PendingAckView>, payload: Seq<u8>) -> Seq<PendingAckView> {
    if q.len() > 0 && q[0].payload != payload {
        q.subrange(1, q.len() as int)
    } else {
        q
    }
}

/// The queue after the update `payload` has been settled, as replicated or as
/// given up: it leaves the queue if it is the oldest entry.
pub open spec fn after_settle(q: Seq<PendingAckView>, payload: Seq<u8>) -> Seq<PendingAckView> {
    if head_is(q, payload) {
        q.subrange(1, q.len() as int)
    } else {
        q
    }
}

/// The payloads of a queue, in order.
pub open spec fn payloads(q: Seq<PendingAckView>) -> Seq<Seq<u8>> {
    Seq::new(q.len(), |i: int| q[i].payload)
}

/// The queue of pending updates, oldest first.
pub struct PendingAcks {
    queue: VecDeque<PendingAck>,
}

impl View for PendingAcks {
    type V = Seq<PendingAckView>;

    closed spec fn view(&self) -> Seq<PendingAckView> {
        Seq::new(self.queue@.len(), |i: int| self.queue@[i]@)
    }
}

impl PendingAcks {
    /// An empty queue.
    pub fn new() -> (acks: PendingAcks)
        ensures
            acks@ == Seq::<PendingAckView>::empty(),
    {
        let acks = PendingAcks { queue: VecDeque::new() };
        proof {
            assert(acks@ =~= Seq::<PendingAckView>::empty());
        }
        acks
    }

    /// Number of pending updates.
    pub fn len(&self) -> (n: usize)
        ensures
            n == self@.len(),
    {
        self.queue.len()
    }

    /// Appends an update that has just been sent.
    pub fn push(&mut self, entry: PendingAck)
        ensures
            final(self)@ == old(self)@.push(entry@),
    {
        self.queue.push_back(entry);
        proof {
            assert(self@ =~= old(self)@.push(entry@));
        }
    }

    /// Whether the oldest pending update carries `payload`.
    pub fn head_is(&self, payload: &[u8]) -> (is_head: bool)
        ensures
            is_head == head_is(self@, payload@),
    {
        if self.queue.len() == 0 {
            return false;
        }
        crate::protocol::bytes_equal(self.queue[0].payload.as_slice(), payload)
    }

    /// Checks a payload that has returned from the ring against the queue.
    /// On a mismatch the oldest entry is dropped.
    pub fn check_return(&mut self, payload: &[u8]) -> (check: AckCheck)
        ensures
            check == return_check(old(self)@, payload@),
            final(self)@ == after_return(old(self)@, payload@),
    {
        if self.queue.len() == 0 {
            AckCheck::Unexpected
        } else if self.head_is(payload) {
            AckCheck::Expected
        } else {
            let _ = self.queue.pop_front();
            proof {
                assert(self@ =~= old(self)@.subrange(1, old(self)@.len() as int));
            }
            AckCheck::Mismatch
        }
    }

    /// Settles the update `payload`: takes it out if it is the oldest entry.
    /// Returns the entry; `None` exactly when the oldest entry is another
    /// one or nothing is pending, and the queue is unchanged then.
    pub fn settle(&mut self, payload: &[u8]) -> (entry: Option<PendingAck>)
        ensures
            entry is Some <==> head_is(old(self)@, payload@),
            entry matches Some(e) ==> e@ == old(self)@[0],
            final(self)@ == after_settle(old(self)@, payload@),
    {
        if self.head_is(payload) {
            let entry = self.queue.pop_front();
            proof {
                assert(self@ =~= old(self)@.subrange(1, old(self)@.len() as int));
            }
            entry
        } else {
            None
        }
    }
}

/// What a session is told about an update.
pub enum Notice {
    Replicated,
    Unreplicated,
}

/// The primary's bookkeeping of its updates, with its history: every payload
/// ever submitted, the timers that have not fired yet, oldest first, and the
/// notices that sessions were given so far.
pub struct AckLedger {
    pub queue: Seq<PendingAckView>,
    pub timers: Seq<Seq<u8>>,
    pub submitted: Seq<Seq<u8>>,
    pub notices: Seq<(Seq<u8>, Notice)>,
}

/// What happens to the ledger.
pub enum AckEvent {
    /// A session submits an update; the primary queues it and starts its timer.
    Submit(PendingAckView),
    /// A payload returns from the ring and is stored.
    Return(Seq<u8>),
    /// The oldest timer fires.
    Timeout,
}

/// Some notice about `payload` was given.
pub open spec fn notified(notices: Seq<(Seq<u8>, Notice)>, payload: Seq<u8>) -> bool {
    exists|i: int| 0 <= i < notices.len() && (#[trigger] notices[i]).0 == payload
}

/// Exactly one notice about `payload` was given.
pub open spec fn notified_once(notices: Seq<(Seq<u8>, Notice)>, payload: Seq<u8>) -> bool {
    exists|i: int|
        0 <= i < notices.len() && (#[trigger] notices[i]).0 == payload && forall|j: int|
            0 <= j < notices.len() && j != i ==> (#[trigger] notices[j]).0 != payload
}

/// The update `payload` is in the queue.
pub open spec fn is_pending(queue: Seq<PendingAckView>, payload: Seq<u8>) -> bool {
    exists|i: int| 0 <= i < queue.len() && (#[trigger] queue[i]).payload == payload
}

/// The ledger before anything was submitted.
pub open spec fn ledger_init() -> AckLedger {
    AckLedger {
        queue: Seq::empty(),
        timers: Seq::empty(),
        submitted: Seq::empty(),
        notices: Seq::empty(),
    }
}

/// The events that the law speaks of: payloads are not submitted twice,
/// what returns from the ring is the oldest pending update, and a timer
/// fires only if one is set.
pub open spec fn ledger_event_ok(l: AckLedger, e: AckEvent) -> bool {
    match e {
        AckEvent::Submit(entry) => !l.submitted.contains(entry.payload),
        AckEvent::Return(payload) => head_is(l.queue, payload),
        AckEvent::Timeout => l.timers.len() > 0,
    }
}

/// The ledger after an event.
pub open spec fn ledger_step(l: AckLedger, e: AckEvent) -> AckLedger {
    match e {
        AckEvent::Submit(entry) => AckLedger {
            queue: l.queue.push(entry),
            timers: l.timers.push(entry.payload),
            submitted: l.submitted.push(entry.payload),
            notices: l.notices,
        },
        AckEvent::Return(payload) => {
            let checked = after_return(l.queue, payload);
            if return_check(l.queue, payload) == AckCheck::Expected {
                AckLedger {
                    queue: after_settle(checked, payload),
                    notices: l.notices.push((payload, Notice::Replicated)),
                    ..l
                }
            } else {
                AckLedger { queue: checked, ..l }
            }
        },
        AckEvent::Timeout => {
            let payload = l.timers[0];
            let timers = l.timers.subrange(1, l.timers.len() as int);
            if head_is(l.queue, payload) {
                AckLedger {
                    queue: after_settle(l.queue, payload),
                    timers,
                    notices: l.notices.push((payload, Notice::Unreplicated)),
                    ..l
                }
            } else {
                AckLedger { timers, ..l }
            }
        },
    }
}

/// What holds of the ledger at all times: the pending updates are the
/// youngest of those whose timer is set; an update is pending or has had its
/// notice, never both; and no update has had two.
pub open spec fn ledger_inv(l: AckLedger) -> bool {
    let settled = l.timers.len() - l.queue.len();
    &&& l.timers.no_duplicates()
    &&& settled >= 0
    &&& payloads(l.queue) == l.timers.subrange(settled, l.timers.len() as int)
    &&& forall|j: int| 0 <= j < settled ==> notified(l.notices, #[trigger] l.timers[j])
    &&& forall|i: int, j: int|
        0 <= i < l.notices.len() && 0 <= j < l.notices.len() && i != j ==> (#[trigger] l.notices[i]).0
            != (#[trigger] l.notices[j]).0
    &&& forall|i: int| 0 <= i < l.queue.len() ==> !notified(l.notices, (#[trigger] l.queue[i]).payload)
    &&& forall|p: Seq<u8>| #[trigger]
        l.submitted.contains(p) <==> l.timers.contains(p) || notified(l.notices, p)
}

/// The ledger starts out well.
pub proof fn lemma_ledger_init()
    ensures
        ledger_inv(ledger_init()),
{
    let l = ledger_init();
    assert(payloads(l.queue) =~= l.timers.subrange(0, 0));
}

/// Every event that the law speaks of keeps the ledger well.
pub proof fn lemma_ledger_step(l: AckLedger, e: AckEvent)
    requires
        ledger_inv(l),
        ledger_event_ok(l, e),
    ensures
        ledger_inv(ledger_step(l, e)),
{
    let n = ledger_step(l, e);
    let settled = l.timers.len() - l.queue.len();
    assert forall|i: int| 0 <= i < l.queue.len() implies (#[trigger] l.queue[i]).payload
        == l.timers[settled + i] by {
        assert(payloads(l.queue)[i] == l.queue[i].payload);
    }
    match e {
        AckEvent::Submit(entry) => {
            let p = entry.payload;
            assert(!l.timers.contains(p) && !notified(l.notices, p));
            assert(n.timers.no_duplicates()) by {
                assert forall|i: int, j: int|
                    0 <= i < n.timers.len() && 0 <= j < n.timers.len() && i != j implies n.timers[i]
                    != n.timers[j] by {
                    if i < l.timers.len() {
                        assert(l.timers.contains(l.timers[i]));
                    }
                    if j < l.timers.len() {
                        assert(l.timers.contains(l.timers[j]));
                    }
                }
            }
            assert(payloads(n.queue) =~= n.timers.subrange(settled, n.timers.len() as int));
            assert forall|j: int| 0 <= j < settled implies notified(n.notices, #[trigger] n.timers[j]) by {
                assert(notified(l.notices, l.timers[j]));
            }
            assert forall|i: int| 0 <= i < n.queue.len() implies !notified(n.notices,
                (#[trigger] n.queue[i]).payload,
            ) by {
                if i < l.queue.len() {
                    assert(!notified(l.notices, l.queue[i].payload));
                }
            }
            assert forall|q: Seq<u8>| #[trigger]
                n.submitted.contains(q) <==> n.timers.contains(q) || notified(n.notices, q) by {
                assert(notified(n.notices, q) == notified(l.notices, q));
                if q == p {
                    assert(n.submitted[n.submitted.len() - 1] == q);
                    assert(n.timers[n.timers.len() - 1] == q);
                } else {
                    if l.submitted.contains(q) {
                        let w = choose|w: int| 0 <= w < l.submitted.len() && l.submitted[w] == q;
                        assert(n.submitted[w] == q);
                    }
                    if n.submitted.contains(q) {
                        let w = choose|w: int| 0 <= w < n.submitted.len() && n.submitted[w] == q;
                        assert(l.submitted[w] == q);
                    }
                    if l.timers.contains(q) {
                        let w = choose|w: int| 0 <= w < l.timers.len() && l.timers[w] == q;
                        assert(n.timers[w] == q);
                    }
                    if n.timers.contains(q) {
                        let w = choose|w: int| 0 <= w < n.timers.len() && n.timers[w] == q;
                        assert(l.timers[w] == q);
                    }
                }
            }
        },
        AckEvent::Return(p) => {
            assert(l.queue[0].payload == l.timers[settled]);
            assert(!notified(l.notices, l.queue[0].payload));
            lemma_settle_head(l, n, p, Notice::Replicated);
        },
        AckEvent::Timeout => {
            let p = l.timers[0];
            if head_is(l.queue, p) {
                assert(settled == 0) by {
                    if settled > 0 {
                        assert(l.queue[0].payload == l.timers[settled]);
                    }
                }
                assert(!notified(l.notices, l.queue[0].payload));
                let mid = AckLedger {
                    queue: n.queue,
                    notices: n.notices,
                    ..l
                };
                lemma_settle_head(l, mid, p, Notice::Unreplicated);
                lemma_drop_timer(mid, n);
            } else {
                assert(settled > 0) by {
                    if settled == 0 {
                        if l.queue.len() > 0 {
                            assert(l.queue[0].payload == l.timers[0]);
                        }
                    }
                }
                lemma_drop_timer(l, n);
            }
        },
    }
}

/// Settling the oldest pending update with a notice keeps the ledger well.
proof fn lemma_settle_head(l: AckLedger, n: AckLedger, p: Seq<u8>, notice: Notice)
    requires
        ledger_inv(l),
        head_is(l.queue, p),
        n == (AckLedger {
            queue: l.queue.subrange(1, l.queue.len() as int),
            notices: l.notices.push((p, notice)),
            ..l
        }),
    ensures
        ledger_inv(n),
        n.timers.len() - n.queue.len() > 0,
{
    let settled = l.timers.len() - l.queue.len();
    assert forall|i: int| 0 <= i < l.queue.len() implies (#[trigger] l.queue[i]).payload
        == l.timers[settled + i] by {
        assert(payloads(l.queue)[i] == l.queue[i].payload);
    }
    assert(!notified(l.notices, l.queue[0].payload));
    assert(payloads(n.queue) =~= n.timers.subrange(settled + 1, n.timers.len() as int));
    assert(n.notices[n.notices.len() - 1].0 == p);
    assert forall|q: Seq<u8>| notified(l.notices, q) implies notified(n.notices, q) by {
        let w = choose|w: int| 0 <= w < l.notices.len() && (#[trigger] l.notices[w]).0 == q;
        assert(n.notices[w].0 == q);
    }
    assert forall|q: Seq<u8>| notified(n.notices, q) implies notified(l.notices, q) || q == p by {
        let w = choose|w: int| 0 <= w < n.notices.len() && (#[trigger] n.notices[w]).0 == q;
        if w < l.notices.len() {
            assert(l.notices[w].0 == q);
        }
    }
    assert forall|j: int| 0 <= j < settled + 1 implies notified(n.notices, #[trigger] n.timers[j]) by {
        if j < settled {
            assert(notified(l.notices, l.timers[j]));
        }
    }
    assert forall|i: int, j: int|
        0 <= i < n.notices.len() && 0 <= j < n.notices.len() && i != j implies (
    #[trigger] n.notices[i]).0 != (#[trigger] n.notices[j]).0 by {
        if i < l.notices.len() && j < l.notices.len() {
            assert(n.notices[i] == l.notices[i] && n.notices[j] == l.notices[j]);
        } else {
            let inner = if i < l.notices.len() {
                i
            } else {
                j
            };
            assert(n.notices[inner] == l.notices[inner]);
            if l.notices[inner].0 == p {
                assert(notified(l.notices, p));
            }
        }
    }
    assert forall|i: int| 0 <= i < n.queue.len() implies !notified(n.notices,
        (#[trigger] n.queue[i]).payload,
    ) by {
        assert(n.queue[i] == l.queue[i + 1]);
        assert(!notified(l.notices, l.queue[i + 1].payload));
        assert(l.timers[settled + i + 1] != l.timers[settled]);
    }
    assert forall|q: Seq<u8>| #[trigger]
        n.submitted.contains(q) <==> n.timers.contains(q) || notified(n.notices, q) by {
        if q == p {
            assert(l.timers.contains(l.timers[settled]));
        }
    }
}

/// Dropping the oldest timer, once its update is settled, keeps the ledger
/// well.
proof fn lemma_drop_timer(l: AckLedger, n: AckLedger)
    requires
        ledger_inv(l),
        l.timers.len() - l.queue.len() > 0,
        n == (AckLedger { timers: l.timers.subrange(1, l.timers.len() as int), ..l }),
    ensures
        ledger_inv(n),
{
    let settled = l.timers.len() - l.queue.len();
    assert(n.timers.no_duplicates()) by {
        assert forall|i: int, j: int|
            0 <= i < n.timers.len() && 0 <= j < n.timers.len() && i != j implies n.timers[i]
            != n.timers[j] by {
            assert(n.timers[i] == l.timers[i + 1] && n.timers[j] == l.timers[j + 1]);
        }
    }
    assert(payloads(n.queue) =~= n.timers.subrange(settled - 1, n.timers.len() as int));
    assert forall|j: int| 0 <= j < settled - 1 implies notified(n.notices, #[trigger] n.timers[j]) by {
        assert(n.timers[j] == l.timers[j + 1]);
        assert(notified(l.notices, l.timers[j + 1]));
    }
    assert forall|i: int| 0 <= i < n.queue.len() implies !notified(n.notices,
        (#[trigger] n.queue[i]).payload,
    ) by {
        assert(!notified(l.notices, l.queue[i].payload));
    }
    assert forall|q: Seq<u8>| #[trigger]
        n.submitted.contains(q) <==> n.timers.contains(q) || notified(n.notices, q) by {
        assert(notified(n.notices, q) == notified(l.notices, q));
        assert(notified(l.notices, l.timers[0]));
        if l.timers.contains(q) {
            let w = choose|w: int| 0 <= w < l.timers.len() && l.timers[w] == q;
            if w > 0 {
                assert(n.timers[w - 1] == q);
            }
        }
        if n.timers.contains(q) {
            let w = choose|w: int| 0 <= w < n.timers.len() && n.timers[w] == q;
            assert(l.timers[w + 1] == q);
        }
    }
}

/// Acknowledgement dichotomy. While payloads are not submitted twice and
/// what returns from the ring is the oldest pending update, every submitted
/// update is either still pending, with its timer set and no notice given,
/// or has had exactly one notice, `replicated` or `unreplicated`. Once its
/// timer has fired it is of the second kind.
pub proof fn lemma_ack_dichotomy(l: AckLedger, p: Seq<u8>)
    requires
        ledger_inv(l),
        l.submitted.contains(p),
    ensures
        is_pending(l.queue, p) ==> l.timers.contains(p) && !notified(l.notices, p),
        !is_pending(l.queue, p) ==> notified_once(l.notices, p),
        !l.timers.contains(p) ==> notified_once(l.notices, p),
{
    let settled = l.timers.len() - l.queue.len();
    assert forall|i: int| 0 <= i < l.queue.len() implies (#[trigger] l.queue[i]).payload
        == l.timers[settled + i] by {
        assert(payloads(l.queue)[i] == l.queue[i].payload);
    }
    if is_pending(l.queue, p) {
        let i = choose|i: int| 0 <= i < l.queue.len() && (#[trigger] l.queue[i]).payload == p;
        assert(l.timers[settled + i] == p);
        assert(!notified(l.notices, l.queue[i].payload));
    } else {
        if l.timers.contains(p) {
            let w = choose|w: int| 0 <= w < l.timers.len() && l.timers[w] == p;
            if w >= settled {
                assert(l.queue[w - settled].payload == p);
            }
            assert(notified(l.notices, l.timers[w]));
        }
        assert(notified(l.notices, p));
        let i = choose|i: int| 0 <= i < l.notices.len() && (#[trigger] l.notices[i]).0 == p;
        assert forall|j: int| 0 <= j < l.notices.len() && j != i implies (
        #[trigger] l.notices[j]).0 != p by {}
    }
}

} // verus!
