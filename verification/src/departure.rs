//! The departures that a replica has made known to the ring itself.
//!
//! A replica whose write to its successor fails strikes the successor, turns
//! to the next replica and sends `/disconnect <id>` round the ring. By then
//! no replica has the departed one as its successor, so none would take the
//! frame off the ring. Its sender therefore remembers the id, and takes the
//! frame off when it has done its round.

use vstd::prelude::*;

verus! {

/// The ids of the departures that this replica has announced.
pub struct Departures {
    ids: Vec<u16>,
}

impl View for Departures {
    type V = Set<u16>;

    closed spec fn view(&self) -> Set<u16> {
        self.ids@.to_set()
    }
}

impl Departures {
    /// No departure.
    pub fn new() -> (made: Departures)
        ensures
            made@ == Set::<u16>::empty(),
    {
        let made = Departures { ids: Vec::new() };
        proof {
            assert(made@ =~= Set::<u16>::empty());
        }
        made
    }

    /// Whether the departure of `id` is among them.
    pub fn contains(&self, id: u16) -> (found: bool)
        ensures
            found == self@.contains(id),
    {
        let mut i: usize = 0;
        while i < self.ids.len()
            invariant
                i <= self.ids@.len(),
                forall|j: int| 0 <= j < i ==> self.ids@[j] != id,
            decreases self.ids@.len() - i,
        {
            if self.ids[i] == id {
                return true;
            }
            i += 1;
        }
        false
    }

    /// Adds the departure of `id`.
    pub fn note(&mut self, id: u16)
        ensures
            final(self)@ == old(self)@.insert(id),
    {
        if !self.contains(id) {
            self.ids.push(id);
            proof {
                let before = old(self).ids@;
                let after = self.ids@;
                assert(after[before.len() as int] == id);
                assert forall|x: u16| after.contains(x) <==> before.contains(x) || x == id by {
                    if before.contains(x) {
                        let j = choose|j: int| 0 <= j < before.len() && before[j] == x;
                        assert(after[j] == x);
                    }
                }
            }
        }
        proof {
            assert(self@ =~= old(self)@.insert(id));
        }
    }

    /// Takes the departure of `id` out.
    pub fn forget(&mut self, id: u16)
        ensures
            final(self)@ == old(self)@.remove(id),
    {
        let mut kept: Vec<u16> = Vec::new();
        let mut i: usize = 0;
        while i < self.ids.len()
            invariant
                i <= self.ids@.len(),
                forall|k: int| 0 <= k < kept@.len() ==> kept@[k] != id && self.ids@.contains(kept@[k]),
                forall|j: int| 0 <= j < i && self.ids@[j] != id ==> kept@.contains(self.ids@[j]),
            decreases self.ids@.len() - i,
        {
            if self.ids[i] != id {
                let ghost before = kept@;
                kept.push(self.ids[i]);
                proof {
                    assert(kept@[before.len() as int] == self.ids@[i as int]);
                    assert forall|j: int| 0 <= j < i && self.ids@[j] != id implies kept@.contains(
                        self.ids@[j],
                    ) by {
                        let k = choose|k: int| 0 <= k < before.len() && before[k] == self.ids@[j];
                        assert(kept@[k] == self.ids@[j]);
                    }
                }
            }
            i += 1;
        }
        self.ids = kept;
        proof {
            assert(self@ =~= old(self)@.remove(id));
        }
    }
}

} // verus!
