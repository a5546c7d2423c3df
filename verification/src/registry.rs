//! The sessions attached to this replica.
//!
//! The registry knows sessions by their connection id. It decides who is to
//! receive a notification; handing the text to the session's channel is left
//! to the embedding program, which keeps the channel of each id.

use vstd::prelude::*;

verus! {

/// A text for one local session.
#[derive(Debug, PartialEq, Eq)]
pub struct Delivery {
    pub conn: u64,
    pub text: Vec<u8>,
}

/// A delivery as a mathematical object.
pub struct DeliveryView {
    pub conn: u64,
    pub text: Seq<u8>,
}

impl View for Delivery {
    type V = DeliveryView;

    open spec fn view(&self) -> DeliveryView {
        DeliveryView { conn: self.conn, text: self.text@ }
    }
}

/// The views of a list of deliveries.
pub open spec fn deliveries_view(d: Seq<Delivery>) -> Seq<DeliveryView> {
    Seq::new(d.len(), |i: int| d[i]@)
}

/// `text` for each of `sessions`, in order.
pub open spec fn broadcast_to(sessions: Seq<u64>, text: Seq<u8>) -> Seq<DeliveryView> {
    Seq::new(sessions.len(), |i: int| DeliveryView { conn: sessions[i], text })
}

/// `sessions` with `conn` registered: appended, unless it is there already.
pub open spec fn with_session(sessions: Seq<u64>, conn: u64) -> Seq<u64> {
    if sessions.contains(conn) {
        sessions
    } else {
        sessions.push(conn)
    }
}

/// `sessions` without `conn`, in order.
pub open spec fn without_session(sessions: Seq<u64>, conn: u64) -> Seq<u64>
    decreases sessions.len(),
{
    if sessions.len() == 0 {
        sessions
    } else if sessions.last() == conn {
        without_session(sessions.drop_last(), conn)
    } else {
        without_session(sessions.drop_last(), conn).push(sessions.last())
    }
}

/// Unregistering removes the session and no other, and keeps the rest apart.
pub proof fn lemma_without_session(sessions: Seq<u64>, conn: u64)
    ensures
        !without_session(sessions, conn).contains(conn),
        forall|c: u64|
            c != conn ==> (without_session(sessions, conn).contains(c) <==> sessions.contains(c)),
        sessions.no_duplicates() ==> without_session(sessions, conn).no_duplicates(),
        !sessions.contains(conn) ==> without_session(sessions, conn) == sessions,
    decreases sessions.len(),
{
    if sessions.len() > 0 {
        let init = sessions.drop_last();
        let last = sessions.last();
        lemma_without_session(init, conn);
        let out = without_session(sessions, conn);
        let sub = without_session(init, conn);
        assert forall|c: u64| c != conn implies (out.contains(c) <==> sessions.contains(c)) by {
            if sessions.contains(c) {
                let i = choose|i: int| 0 <= i < sessions.len() && sessions[i] == c;
                if i < init.len() {
                    assert(init[i] == c);
                    assert(init.contains(c));
                    assert(sub.contains(c));
                    let w = choose|w: int| 0 <= w < sub.len() && sub[w] == c;
                    assert(out[w] == c);
                } else {
                    assert(out[out.len() - 1] == c);
                }
            }
            if out.contains(c) {
                let i = choose|i: int| 0 <= i < out.len() && out[i] == c;
                if i < sub.len() {
                    assert(sub[i] == c);
                    assert(sub.contains(c));
                    assert(init.contains(c));
                    let w = choose|w: int| 0 <= w < init.len() && init[w] == c;
                    assert(sessions[w] == c);
                } else {
                    assert(sessions[sessions.len() - 1] == c);
                }
            }
        }
        if out.contains(conn) {
            let i = choose|i: int| 0 <= i < out.len() && out[i] == conn;
            if i < sub.len() {
                assert(sub[i] == conn);
                assert(sub.contains(conn));
            }
        }
        if sessions.no_duplicates() {
            assert(init.no_duplicates());
            if last != conn {
                assert(!sub.contains(last)) by {
                    if sub.contains(last) {
                        assert(init.contains(last));
                        let w = choose|w: int| 0 <= w < init.len() && init[w] == last;
                        assert(sessions[w] == sessions[sessions.len() - 1]);
                    }
                }
                assert forall|i: int, j: int|
                    0 <= i < out.len() && 0 <= j < out.len() && i != j implies out[i] != out[j] by {
                    if i < sub.len() && j < sub.len() {
                        assert(out[i] == sub[i] && out[j] == sub[j]);
                    } else {
                        let inner = if i < sub.len() {
                            i
                        } else {
                            j
                        };
                        assert(out[inner] == sub[inner]);
                        assert(sub.contains(sub[inner]));
                    }
                }
            }
        }
        if !sessions.contains(conn) {
            assert(!init.contains(conn)) by {
                if init.contains(conn) {
                    let w = choose|w: int| 0 <= w < init.len() && init[w] == conn;
                    assert(sessions[w] == conn);
                }
            }
            assert(sessions[sessions.len() - 1] != conn);
            assert(out =~= sessions);
        }
    }
}

/// Draws a connection id: one call of `gen::<u64>` on `rand::thread_rng()`.
/// The value is random, so nothing is claimed of it.
#[verifier::external_body]
fn random_conn_id() -> (conn: u64) {
    rand::Rng::gen::<u64>(&mut rand::thread_rng())
}

/// The table of local sessions, in the order in which they registered.
///
/// The ids are kept in a list, not in a hash table: a broadcast then names
/// its deliveries in an order that is a function of the registrations alone,
/// where the walk through a hash table would differ from process to process.
pub struct SessionRegistry {
    ids: Vec<u64>,
}

impl View for SessionRegistry {
    type V = Seq<u64>;

    closed spec fn view(&self) -> Seq<u64> {
        self.ids@
    }
}

impl SessionRegistry {
    /// Each session is listed once.
    pub open spec fn wf(&self) -> bool {
        self@.no_duplicates()
    }

    /// A registry without sessions.
    pub fn new() -> (registry: SessionRegistry)
        ensures
            registry.wf(),
            registry@ == Seq::<u64>::empty(),
    {
        SessionRegistry { ids: Vec::new() }
    }

    /// Number of registered sessions.
    pub fn len(&self) -> (n: usize)
        ensures
            n == self@.len(),
    {
        self.ids.len()
    }

    /// The session at position `i`, in the order of registration.
    pub fn get(&self, i: usize) -> (conn: u64)
        requires
            i < self@.len(),
        ensures
            conn == self@[i as int],
    {
        self.ids[i]
    }

    /// Whether `conn` is registered.
    pub fn contains(&self, conn: u64) -> (found: bool)
        ensures
            found == self@.contains(conn),
    {
        let mut i: usize = 0;
        while i < self.ids.len()
            invariant
                i <= self.ids@.len(),
                forall|j: int| 0 <= j < i ==> self.ids@[j] != conn,
            decreases self.ids@.len() - i,
        {
            if self.ids[i] == conn {
                return true;
            }
            i += 1;
        }
        false
    }

    /// Registers a session under a random id and returns the id. An id that
    /// is registered already stays registered once.
    pub fn register(&mut self) -> (conn: u64)
        requires
            old(self).wf(),
        ensures
            final(self).wf(),
            final(self)@ == with_session(old(self)@, conn),
    {
        let conn = random_conn_id();
        self.register_as(conn);
        conn
    }

    /// Registers a session under the id `conn`.
    pub fn register_as(&mut self, conn: u64)
        requires
            old(self).wf(),
        ensures
            final(self).wf(),
            final(self)@ == with_session(old(self)@, conn),
    {
        if !self.contains(conn) {
            self.ids.push(conn);
            proof {
                let before = old(self)@;
                let after = self@;
                assert forall|i: int, j: int|
                    0 <= i < after.len() && 0 <= j < after.len() && i != j implies after[i]
                    != after[j] by {
                    if i < before.len() {
                        assert(after[i] == before[i]);
                    }
                    if j < before.len() {
                        assert(after[j] == before[j]);
                    }
                }
            }
        }
    }

    /// Removes a session. An id that is not registered is ignored.
    pub fn unregister(&mut self, conn: u64)
        requires
            old(self).wf(),
        ensures
            final(self).wf(),
            final(self)@ == without_session(old(self)@, conn),
    {
        let mut kept: Vec<u64> = Vec::new();
        let mut i: usize = 0;
        while i < self.ids.len()
            invariant
                i <= self.ids@.len(),
                self.ids@ == old(self).ids@,
                kept@ == without_session(self.ids@.subrange(0, i as int), conn),
            decreases self.ids@.len() - i,
        {
            proof {
                assert(self.ids@.subrange(0, i + 1).drop_last() =~= self.ids@.subrange(0, i as int));
            }
            if self.ids[i] != conn {
                kept.push(self.ids[i]);
            }
            i += 1;
        }
        proof {
            assert(self.ids@.subrange(0, i as int) =~= self.ids@);
            lemma_without_session(old(self)@, conn);
        }
        self.ids = kept;
    }

    /// One delivery of `text` for every registered session, in order.
    pub fn broadcast(&self, text: &[u8]) -> (out: Vec<Delivery>)
        ensures
            deliveries_view(out@) == broadcast_to(self@, text@),
    {
        let mut out: Vec<Delivery> = Vec::new();
        let mut i: usize = 0;
        while i < self.ids.len()
            invariant
                i <= self.ids@.len(),
                out@.len() == i,
                forall|j: int|
                    0 <= j < i ==> (#[trigger] out@[j])@ == (DeliveryView {
                        conn: self.ids@[j],
                        text: text@,
                    }),
            decreases self.ids@.len() - i,
        {
            let copy = crate::protocol::copy_range(text, 0, text.len());
            proof {
                assert(copy@ =~= text@);
            }
            out.push(Delivery { conn: self.ids[i], text: copy });
            i += 1;
        }
        proof {
            assert(deliveries_view(out@) =~= broadcast_to(self@, text@));
        }
        out
    }

    /// A delivery of `text` for `conn`; `None` exactly when `conn` is not
    /// registered.
    pub fn send_to(&self, conn: u64, text: &[u8]) -> (out: Option<Delivery>)
        ensures
            out is Some <==> self@.contains(conn),
            out matches Some(d) ==> d@ == (DeliveryView { conn, text: text@ }),
    {
        if self.contains(conn) {
            let copy = crate::protocol::copy_range(text, 0, text.len());
            proof {
                assert(copy@ =~= text@);
            }
            Some(Delivery { conn, text: copy })
        } else {
            None
        }
    }
}

} // verus!
