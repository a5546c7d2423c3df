//! Framing of the byte stream between two replicas.
//!
//! Each frame is sent as one line: the text of the frame, then a line feed.
//! The receiver collects whatever the stream hands over and takes complete
//! lines out of it, so a frame arrives whole however the stream was cut up
//! on the way.

use vstd::prelude::*;

verus! {

/// The line feed that ends a frame.
pub const LINE_FEED: u8 = 10;

/// Why the link to the predecessor is given up.
#[derive(Clone, Copy, Debug, PartialEq, Eq)]
pub enum LinkError {
    /// A read returned no bytes: the predecessor has closed the stream.
    PredecessorLost,
}

/// `i` is the position of the first line feed in `s`.
pub open spec fn is_line_end(s: Seq<u8>, i: int) -> bool {
    &&& 0 <= i < s.len()
    &&& s[i] == 10
    &&& forall|j: int| 0 <= j < i ==> s[j] != 10
}

/// `s` holds a complete line.
pub open spec fn has_line(s: Seq<u8>) -> bool {
    exists|i: int| is_line_end(s, i)
}

/// The first line of `s`, without its line feed.
pub open spec fn first_line(s: Seq<u8>) -> Seq<u8> {
    s.subrange(0, choose|i: int| is_line_end(s, i))
}

/// What follows the first line of `s`.
pub open spec fn after_first_line(s: Seq<u8>) -> Seq<u8> {
    s.subrange((choose|i: int| is_line_end(s, i)) + 1, s.len() as int)
}

/// The bytes that carry `frame` on the wire.
pub open spec fn line_of(frame: Seq<u8>) -> Seq<u8> {
    frame.push(10u8)
}

/// A frame that holds no line feed comes out of the stream as it went in,
/// whatever follows it.
pub proof fn lemma_line_round_trip(frame: Seq<u8>, rest: Seq<u8>)
    requires
        forall|j: int| 0 <= j < frame.len() ==> frame[j] != 10,
    ensures
        has_line(line_of(frame) + rest),
        first_line(line_of(frame) + rest) == frame,
        after_first_line(line_of(frame) + rest) == rest,
{
    let s = line_of(frame) + rest;
    let n = frame.len() as int;
    assert(s[n] == 10);
    assert forall|j: int| 0 <= j < n implies s[j] != 10 by {
        assert(s[j] == frame[j]);
    }
    assert(is_line_end(s, n));
    let c = choose|i: int| is_line_end(s, i);
    assert(c == n);
    assert(s.subrange(0, n) =~= frame);
    assert(s.subrange(n + 1, s.len() as int) =~= rest);
}

/// The bytes received from the predecessor that are not yet taken as frames.
pub struct FrameBuffer {
    pending: Vec<u8>,
}

impl View for FrameBuffer {
    type V = Seq<u8>;

    closed spec fn view(&self) -> Seq<u8> {
        self.pending@
    }
}

impl FrameBuffer {
    /// An empty buffer.
    pub fn new() -> (buffer: FrameBuffer)
        ensures
            buffer@ == Seq::<u8>::empty(),
    {
        FrameBuffer { pending: Vec::new() }
    }

    /// Forgets what was received: the stream has been replaced.
    pub fn clear(&mut self)
        ensures
            final(self)@ == Seq::<u8>::empty(),
    {
        self.pending = Vec::new();
    }

    /// Takes everything out of the buffer, complete lines or not.
    pub fn take_rest(&mut self) -> (rest: Vec<u8>)
        ensures
            rest@ == old(self)@,
            final(self)@ == Seq::<u8>::empty(),
    {
        let mut rest: Vec<u8> = Vec::new();
        std::mem::swap(&mut self.pending, &mut rest);
        rest
    }

    /// Takes in what a read returned.
    pub fn extend(&mut self, chunk: &[u8])
        ensures
            final(self)@ == old(self)@ + chunk@,
    {
        let mut i: usize = 0;
        while i < chunk.len()
            invariant
                i <= chunk@.len(),
                self.pending@ == old(self).pending@ + chunk@.subrange(0, i as int),
            decreases chunk@.len() - i,
        {
            self.pending.push(chunk[i]);
            proof {
                assert(self.pending@ =~= old(self).pending@ + chunk@.subrange(0, i + 1));
            }
            i += 1;
        }
        proof {
            assert(chunk@.subrange(0, i as int) =~= chunk@);
        }
    }

    /// Takes the first complete line out of the buffer. `None` exactly when
    /// no line feed has arrived yet; the buffer is unchanged then.
    pub fn next_frame(&mut self) -> (frame: Option<Vec<u8>>)
        ensures
            frame is Some <==> has_line(old(self)@),
            match frame {
                Some(line) => line@ == first_line(old(self)@) && final(self)@ == after_first_line(
                    old(self)@,
                ),
                None => final(self)@ == old(self)@,
            },
    {
        let n = self.pending.len();
        let mut i: usize = 0;
        while i < n && self.pending[i] != 10
            invariant
                n == self.pending@.len(),
                self.pending@ == old(self).pending@,
                i <= n,
                forall|j: int| 0 <= j < i ==> self.pending@[j] != 10,
            decreases n - i,
        {
            i += 1;
        }
        if i == n {
            proof {
                assert forall|k: int| !is_line_end(self.pending@, k) by {
                    if 0 <= k < n {
                        assert(self.pending@[k] != 10);
                    }
                }
            }
            return None;
        }
        proof {
            assert(is_line_end(self.pending@, i as int));
            let c = choose|c: int| is_line_end(self.pending@, c);
            assert(c == i);
        }
        let line = crate::protocol::copy_range(self.pending.as_slice(), 0, i);
        let rest = crate::protocol::copy_range(self.pending.as_slice(), i + 1, n);
        self.pending = rest;
        Some(line)
    }
}

/// The bytes to write for one frame: its text and a line feed.
pub fn frame_line(frame: &[u8]) -> (line: Vec<u8>)
    ensures
        line@ == line_of(frame@),
{
    let mut line = crate::protocol::copy_range(frame, 0, frame.len());
    proof {
        assert(line@ =~= frame@);
    }
    line.push(LINE_FEED);
    line
}

} // verus!
