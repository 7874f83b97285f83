//! The message channel as the client sees it: an ordered script of incoming
//! frames with a read cursor, and a record of every frame sent. An operation
//! owns the channel exclusively for its whole duration, so replies can never
//! interleave between two operations.
//!
//! A live transport is driven by handing each arriving frame to the same
//! parsing and accumulation functions these operations are built from.

use vstd::prelude::*;
use crate::{Error, Frame};
use crate::transfer::{bin_prefix_bytes, bin_prefix_ends_at_text, bin_frames_bytes,
    lemma_bin_prefix_split};

verus! {

/// Two frames of the same kind carrying the same bytes.
pub open spec fn frame_matches(a: Frame, b: Frame) -> bool {
    match (a, b) {
        (Frame::Text(x), Frame::Text(y)) => x@ == y@,
        (Frame::Binary(x), Frame::Binary(y)) => x@ == y@,
        _ => false,
    }
}

/// The sent record grew by exactly one text frame with the given body.
pub open spec fn pushed_text(before: Seq<Frame>, after: Seq<Frame>, body: Seq<u8>) -> bool {
    &&& after.len() == before.len() + 1
    &&& after.take(before.len() as int) == before
    &&& after.last() matches Frame::Text(t) && t@ == body
}

/// An ordered, message-framed channel: what the target will send, what has
/// been consumed of it, and what the client has sent.
pub struct Channel {
    pub incoming: Vec<Frame>,
    pub cursor: usize,
    pub sent: Vec<Frame>,
}

impl Channel {
    /// Well-formed: the cursor lies within the script.
    pub open spec fn wf(self) -> bool {
        self.cursor <= self.incoming@.len()
    }

    /// The frames not yet consumed.
    pub open spec fn remaining(self) -> Seq<Frame> {
        self.incoming@.skip(self.cursor as int)
    }

    /// Incoming side untouched (nothing consumed, script unchanged).
    pub open spec fn same_incoming(self, other: Channel) -> bool {
        self.incoming@ == other.incoming@ && self.cursor == other.cursor
    }

    /// Open a channel over a known script of incoming frames.
    pub fn new(incoming: Vec<Frame>) -> (c: Channel)
        ensures
            c.incoming@ == incoming@,
            c.cursor == 0,
            c.sent@ == Seq::<Frame>::empty(),
    {
        Channel { incoming, cursor: 0, sent: Vec::new() }
    }

    /// Send one frame.
    pub fn send(&mut self, f: Frame)
        ensures
            final(self).incoming@ == old(self).incoming@,
            final(self).cursor == old(self).cursor,
            final(self).sent@ == old(self).sent@.push(f),
    {
        self.sent.push(f);
    }

    /// Receive the next frame, or `None` when the channel is closed.
    pub fn receive(&mut self) -> (r: Option<Frame>)
        ensures
            final(self).incoming@ == old(self).incoming@,
            final(self).sent@ == old(self).sent@,
            old(self).cursor < old(self).incoming@.len() ==> {
                &&& r matches Some(f) && frame_matches(
                    f,
                    old(self).incoming@[old(self).cursor as int],
                )
                &&& final(self).cursor == old(self).cursor + 1
            },
            old(self).cursor >= old(self).incoming@.len() ==> r is None && final(self).cursor
                == old(self).cursor,
    {
        if self.cursor < self.incoming.len() {
            let f = clone_frame(&self.incoming[self.cursor]);
            self.cursor = self.cursor + 1;
            Some(f)
        } else {
            None
        }
    }
}

/// Copy a frame out of the script.
fn clone_frame(f: &Frame) -> (r: Frame)
    ensures
        frame_matches(r, *f),
{
    match f {
        Frame::Text(v) => Frame::Text(vstd::slice::slice_to_vec(v.as_slice())),
        Frame::Binary(v) => Frame::Binary(vstd::slice::slice_to_vec(v.as_slice())),
    }
}

/// Appending one all-binary frame extends the accumulated bytes.
proof fn lemma_bin_frames_snoc(fs: Seq<Frame>, k: int)
    requires
        0 <= k < fs.len(),
        forall|i: int| 0 <= i <= k ==> (#[trigger] fs[i]) is Binary,
    ensures
        bin_frames_bytes(fs.take(k + 1)) == bin_frames_bytes(fs.take(k)) + fs[k]->Binary_0@,
    decreases k,
{
    if k == 0 {
        assert(fs.take(1).drop_first() =~= fs.take(0));
        assert(bin_frames_bytes(fs.take(0)) =~= Seq::<u8>::empty());
        assert(fs.take(1)[0] == fs[0]);
        assert(bin_frames_bytes(fs.take(1)) == fs[0]->Binary_0@ + bin_frames_bytes(fs.take(0)));
        assert(bin_frames_bytes(fs.take(1)) =~= bin_frames_bytes(fs.take(0)) + fs[0]->Binary_0@);
    } else {
        let rest = fs.drop_first();
        assert(forall|i: int| 0 <= i <= k - 1 ==> (#[trigger] rest[i]) is Binary) by {
            assert(forall|i: int| 0 <= i <= k - 1 ==> rest[i] == fs[i + 1]);
        };
        lemma_bin_frames_snoc(rest, k - 1);
        let b0 = fs[0]->Binary_0;
        assert(fs.take(k + 1)[0] == fs[0]);
        assert(fs.take(k)[0] == fs[0]);
        assert(fs.take(k + 1).drop_first() =~= rest.take(k));
        assert(fs.take(k).drop_first() =~= rest.take(k - 1));
        assert(bin_frames_bytes(fs.take(k + 1)) == b0@ + bin_frames_bytes(rest.take(k)));
        assert(bin_frames_bytes(fs.take(k)) == b0@ + bin_frames_bytes(rest.take(k - 1)));
        assert(rest[k - 1] == fs[k]);
        assert(b0@ + (bin_frames_bytes(rest.take(k - 1)) + fs[k]->Binary_0@) =~= (b0@
            + bin_frames_bytes(rest.take(k - 1))) + fs[k]->Binary_0@);
    }
}

/// How many frames the accumulation of `size` bytes consumes from the head
/// of a frame sequence.
pub open spec fn frames_for(fs: Seq<Frame>, size: int) -> int
    decreases fs.len(),
{
    if size <= 0 || fs.len() == 0 {
        0
    } else {
        match fs[0] {
            Frame::Binary(b) => 1 + frames_for(fs.drop_first(), size - b@.len()),
            Frame::Text(_) => 0,
        }
    }
}

/// Accumulate exactly `size` payload bytes out of the binary frames at the
/// head of the channel, however the payload is fragmented. Succeeds exactly
/// when that many bytes are available; fails with `ShortRead` when the
/// channel closes first, `MalformedReply` when a text frame interrupts.
pub fn recv_exact(ch: &mut Channel, size: usize) -> (r: Result<Vec<u8>, Error>)
    requires
        old(ch).wf(),
    ensures
        final(ch).wf(),
        final(ch).incoming@ == old(ch).incoming@,
        final(ch).sent@ == old(ch).sent@,
        match r {
            Ok(data) => {
                &&& bin_prefix_bytes(old(ch).remaining()).len() >= size
                &&& data@.len() == size
                &&& data@ == bin_prefix_bytes(old(ch).remaining()).take(size as int)
                &&& final(ch).cursor == old(ch).cursor + frames_for(
                    old(ch).remaining(),
                    size as int,
                )
            },
            Err(e) => {
                &&& bin_prefix_bytes(old(ch).remaining()).len() < size
                &&& e == if bin_prefix_ends_at_text(old(ch).remaining()) {
                    Error::MalformedReply
                } else {
                    Error::ShortRead
                }
            },
        },
{
    let ghost tail = old(ch).remaining();
    let ghost c0 = old(ch).cursor as int;
    let mut data: Vec<u8> = Vec::new();
    if size == 0 {
        proof {
            assert(data@ =~= bin_prefix_bytes(tail).take(0));
        }
        return Ok(data);
    }
    let ghost mut k: int = 0;
    proof {
        assert(tail.take(0) =~= Seq::<Frame>::empty());
        assert(data@ =~= bin_frames_bytes(tail.take(0)));
        assert(tail.skip(0) =~= tail);
    }
    while data.len() < size
        invariant
            size > 0,
            old(ch).wf(),
            ch.incoming@ == old(ch).incoming@,
            ch.sent@ == old(ch).sent@,
            c0 == old(ch).cursor,
            tail.len() == old(ch).incoming@.len() - c0,
            0 <= k <= tail.len(),
            tail == old(ch).remaining(),
            ch.cursor == c0 + k,
            forall|i: int| 0 <= i < k ==> (#[trigger] tail[i]) is Binary,
            data@ == bin_frames_bytes(tail.take(k)),
            frames_for(tail, size as int) == if data@.len() < size {
                k + frames_for(tail.skip(k), size - data@.len())
            } else {
                k
            },
        decreases tail.len() - k,
    {
        let next = ch.receive();
        match next {
            None => {
                proof {
                    assert(k == tail.len());
                    lemma_bin_prefix_split(tail, k);
                    assert(tail.skip(k).len() == 0);
                    assert(bin_prefix_bytes(tail.skip(k)) =~= Seq::<u8>::empty());
                    assert(bin_prefix_bytes(tail) =~= data@);
                    assert(!bin_prefix_ends_at_text(tail.skip(k)));
                }
                return Err(Error::ShortRead);
            },
            Some(Frame::Text(_)) => {
                proof {
                    assert(k < tail.len());
                    assert(tail[k] == old(ch).incoming@[c0 + k]);
                    assert(tail[k] is Text);
                    lemma_bin_prefix_split(tail, k);
                    assert(bin_prefix_bytes(tail.skip(k)) =~= Seq::<u8>::empty());
                    assert(bin_prefix_bytes(tail) =~= data@);
                    assert(bin_prefix_ends_at_text(tail.skip(k)));
                }
                return Err(Error::MalformedReply);
            },
            Some(Frame::Binary(b)) => {
                proof {
                    assert(k < tail.len());
                    assert(tail[k] == old(ch).incoming@[c0 + k]);
                    assert(tail[k] is Binary);
                    assert(b@ == tail[k]->Binary_0@);
                    lemma_bin_frames_snoc(tail, k);
                    let head = tail.skip(k);
                    assert(head[0] == tail[k]);
                    assert(head.drop_first() =~= tail.skip(k + 1));
                    assert(frames_for(head, size - data@.len()) == 1 + frames_for(
                        tail.skip(k + 1),
                        size - data@.len() - b@.len(),
                    ));
                }
                let mut b = b;
                data.append(&mut b);
                proof {
                    k = k + 1;
                }
            },
        }
    }
    proof {
        lemma_bin_prefix_split(tail, k);
        assert(bin_prefix_bytes(tail) == data@ + bin_prefix_bytes(tail.skip(k)));
        assert(bin_prefix_bytes(tail).take(size as int) =~= data@.take(size as int));
    }
    data.truncate(size);
    Ok(data)
}

} // verus!
