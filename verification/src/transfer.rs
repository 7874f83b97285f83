//! The binary transfer conventions: payloads are split into fixed-size
//! chunks on upload, and accumulated out of arbitrarily fragmented binary
//! frames on download and memory read.

use vstd::prelude::*;
use crate::{Error, Frame};

verus! {

/// Chunk size the target is known to accept for uploads.
pub const DEFAULT_CHUNK_SIZE: usize = 1024;

/// The chunks of `d` under chunk size `cs`: full chunks of `cs` bytes, the
/// last chunk shorter when the length is no multiple of `cs`, no chunk at
/// all for empty data.
pub open spec fn spec_chunks(d: Seq<u8>, cs: int) -> Seq<Seq<u8>>
    recommends
        cs >= 1,
    decreases d.len() when cs >= 1
{
    if d.len() == 0 {
        Seq::empty()
    } else if d.len() <= cs {
        seq![d]
    } else {
        seq![d.take(cs)] + spec_chunks(d.skip(cs), cs)
    }
}

/// There are exactly ceil(len / cs) chunks.
pub proof fn lemma_chunks_count(d: Seq<u8>, cs: int)
    requires
        cs >= 1,
    ensures
        spec_chunks(d, cs).len() == (d.len() + cs - 1) / cs,
    decreases d.len(),
{
    if d.len() == 0 {
        assert((d.len() + cs - 1) / cs == 0) by (nonlinear_arith)
            requires
                cs >= 1,
                d.len() == 0,
        ;
    } else if d.len() <= cs {
        assert((d.len() + cs - 1) / cs == 1) by (nonlinear_arith)
            requires
                cs >= 1,
                0 < d.len() <= cs,
        ;
    } else {
        lemma_chunks_count(d.skip(cs), cs);
        assert(d.skip(cs).len() == d.len() - cs);
        assert(1 + (d.len() - cs + cs - 1) / cs == (d.len() + cs - 1) / cs) by (nonlinear_arith)
            requires
                cs >= 1,
                d.len() > cs,
        ;
    }
}

/// Every chunk but the last is exactly cs bytes; the last is len mod cs
/// bytes, or a full cs when the length is a multiple of cs.
pub proof fn lemma_chunks_shape(d: Seq<u8>, cs: int)
    requires
        cs >= 1,
        d.len() > 0,
    ensures
        forall|i: int|
            0 <= i < spec_chunks(d, cs).len() - 1 ==> (#[trigger] spec_chunks(d, cs)[i]).len()
                == cs,
        spec_chunks(d, cs).last().len() == if d.len() as int % cs == 0 {
            cs as int
        } else {
            d.len() as int % cs
        },
    decreases d.len(),
{
    if d.len() <= cs {
        if d.len() < cs {
            assert(d.len() as int % cs == d.len()) by (nonlinear_arith)
                requires
                    cs >= 1,
                    0 < d.len() < cs,
            ;
        } else {
            assert(d.len() as int % cs == 0) by (nonlinear_arith)
                requires
                    cs >= 1,
                    d.len() == cs,
            ;
        }
    } else {
        lemma_chunks_shape(d.skip(cs), cs);
        let cc = spec_chunks(d, cs);
        let rest = spec_chunks(d.skip(cs), cs);
        assert(cc == seq![d.take(cs)] + rest);
        assert(d.skip(cs).len() == d.len() - cs);
        assert((d.len() as int - cs) % cs == d.len() as int % cs) by (nonlinear_arith)
            requires
                cs >= 1,
                d.len() > cs,
        ;
        assert(cc.last() == rest.last());
        assert(forall|i: int| 1 <= i < cc.len() ==> cc[i] == rest[i - 1]);
        assert(d.take(cs).len() == cs);
    }
}

/// Split `d` into transfer chunks of at most `cs` bytes each.
pub fn chunk_bytes(d: &[u8], cs: usize) -> (r: Vec<Vec<u8>>)
    requires
        cs >= 1,
    ensures
        r@.map_values(|c: Vec<u8>| c@) == spec_chunks(d@, cs as int),
{
    let mut r: Vec<Vec<u8>> = Vec::new();
    let mut i: usize = 0;
    let n = d.len();
    proof {
        assert(d@.skip(0) =~= d@);
        assert(r@.map_values(|c: Vec<u8>| c@) + spec_chunks(d@, cs as int) =~= spec_chunks(
            d@,
            cs as int,
        ));
    }
    while i < n
        invariant
            0 <= i <= n,
            n == d@.len(),
            cs >= 1,
            spec_chunks(d@, cs as int) == r@.map_values(|c: Vec<u8>| c@) + spec_chunks(
                d@.skip(i as int),
                cs as int,
            ),
        decreases n - i,
    {
        let step = if n - i < cs {
            n - i
        } else {
            cs
        };
        let piece = vstd::slice::slice_to_vec(vstd::slice::slice_subrange(d, i, i + step));
        proof {
            let tail = d@.skip(i as int);
            let tail2 = d@.skip(i + step);
            if tail.len() <= cs as int {
                assert(piece@ =~= tail);
                assert(spec_chunks(tail, cs as int) == seq![tail]);
                assert(tail2.len() == 0);
                assert(spec_chunks(tail2, cs as int) =~= Seq::<Seq<u8>>::empty());
                assert(spec_chunks(tail, cs as int) =~= seq![piece@] + spec_chunks(
                    tail2,
                    cs as int,
                ));
            } else {
                assert(piece@ =~= tail.take(cs as int));
                assert(tail.skip(cs as int) =~= tail2);
                assert(spec_chunks(tail, cs as int) == seq![piece@] + spec_chunks(
                    tail2,
                    cs as int,
                ));
            }
            assert((r@.map_values(|c: Vec<u8>| c@) + seq![piece@]) + spec_chunks(
                tail2,
                cs as int,
            ) =~= r@.map_values(|c: Vec<u8>| c@) + (seq![piece@] + spec_chunks(tail2, cs as int)));
            assert(r@.push(piece).map_values(|c: Vec<u8>| c@) =~= r@.map_values(|c: Vec<u8>| c@)
                + seq![piece@]);
        }
        r.push(piece);
        i = i + step;
    }
    proof {
        assert(d@.skip(n as int).len() == 0);
        assert(spec_chunks(d@.skip(n as int), cs as int) =~= Seq::<Seq<u8>>::empty());
        assert(r@.map_values(|c: Vec<u8>| c@) + Seq::<Seq<u8>>::empty() =~= r@.map_values(
            |c: Vec<u8>| c@,
        ));
    }
    r
}

/// The binary bytes available at the head of a frame sequence: the
/// concatenation of the payloads of the leading run of binary frames.
pub open spec fn bin_prefix_bytes(fs: Seq<Frame>) -> Seq<u8>
    decreases fs.len(),
{
    if fs.len() == 0 {
        Seq::empty()
    } else {
        match fs[0] {
            Frame::Binary(b) => b@ + bin_prefix_bytes(fs.drop_first()),
            Frame::Text(_) => Seq::empty(),
        }
    }
}

/// Whether the leading run of binary frames ends at a text frame (rather
/// than at the end of the sequence).
pub open spec fn bin_prefix_ends_at_text(fs: Seq<Frame>) -> bool
    decreases fs.len(),
{
    if fs.len() == 0 {
        false
    } else {
        match fs[0] {
            Frame::Binary(_) => bin_prefix_ends_at_text(fs.drop_first()),
            Frame::Text(_) => true,
        }
    }
}

/// Concatenation of the payloads of a sequence of all-binary frames.
pub open spec fn bin_frames_bytes(fs: Seq<Frame>) -> Seq<u8>
    decreases fs.len(),
{
    if fs.len() == 0 {
        Seq::empty()
    } else {
        match fs[0] {
            Frame::Binary(b) => b@ + bin_frames_bytes(fs.drop_first()),
            Frame::Text(_) => Seq::empty(),
        }
    }
}

/// Consuming k leading binary frames splits the available binary prefix.
pub proof fn lemma_bin_prefix_split(fs: Seq<Frame>, k: int)
    requires
        0 <= k <= fs.len(),
        forall|i: int| 0 <= i < k ==> (#[trigger] fs[i]) is Binary,
    ensures
        bin_prefix_bytes(fs) == bin_frames_bytes(fs.take(k)) + bin_prefix_bytes(fs.skip(k)),
        bin_prefix_ends_at_text(fs) == bin_prefix_ends_at_text(fs.skip(k)),
    decreases k,
{
    if k == 0 {
        assert(fs.take(0) =~= Seq::<Frame>::empty());
        assert(fs.skip(0) =~= fs);
        assert(bin_frames_bytes(fs.take(0)) + bin_prefix_bytes(fs) =~= bin_prefix_bytes(fs));
    } else {
        let rest = fs.drop_first();
        assert(forall|i: int| 0 <= i < k - 1 ==> (#[trigger] rest[i]) is Binary) by {
            assert(forall|i: int| 0 <= i < k - 1 ==> rest[i] == fs[i + 1]);
        };
        lemma_bin_prefix_split(rest, k - 1);
        let b = fs[0]->Binary_0;
        assert(bin_prefix_bytes(fs) == b@ + bin_prefix_bytes(rest));
        assert(fs.take(k).drop_first() =~= rest.take(k - 1));
        assert(fs.take(k)[0] == fs[0]);
        assert(bin_frames_bytes(fs.take(k)) == b@ + bin_frames_bytes(rest.take(k - 1)));
        assert(fs.skip(k) =~= rest.skip(k - 1));
        assert(b@ + (bin_frames_bytes(rest.take(k - 1)) + bin_prefix_bytes(rest.skip(k - 1)))
            =~= (b@ + bin_frames_bytes(rest.take(k - 1))) + bin_prefix_bytes(rest.skip(k - 1)));
    }
}

/// A sequence of binary frames whose payloads are exactly the chunks of a
/// byte sequence.
pub open spec fn frames_are_chunks(fs: Seq<Frame>, d: Seq<u8>, cs: int) -> bool {
    &&& fs.len() == spec_chunks(d, cs).len()
    &&& forall|i: int|
        0 <= i < fs.len() ==> ((#[trigger] fs[i]) matches Frame::Binary(b) && b@ == spec_chunks(
            d,
            cs,
        )[i])
}

/// Chunking the payload and concatenating the frames back gives the
/// payload: what upload emits, a download of the same frames returns.
pub proof fn lemma_chunk_frames_round_trip(d: Seq<u8>, cs: int, fs: Seq<Frame>)
    requires
        cs >= 1,
        frames_are_chunks(fs, d, cs),
    ensures
        bin_prefix_bytes(fs) == d,
    decreases d.len(),
{
    if d.len() == 0 {
        assert(fs.len() == 0);
        assert(bin_prefix_bytes(fs) =~= d);
    } else if d.len() <= cs {
        assert(spec_chunks(d, cs) == seq![d]);
        assert(fs.len() == 1);
        let b = fs[0]->Binary_0;
        assert(b@ == d);
        assert(fs.drop_first().len() == 0);
        assert(bin_prefix_bytes(fs.drop_first()) =~= Seq::<u8>::empty());
        assert(bin_prefix_bytes(fs) == b@ + bin_prefix_bytes(fs.drop_first()));
        assert(bin_prefix_bytes(fs) =~= d);
    } else {
        let rest = fs.drop_first();
        let tail = d.skip(cs);
        assert(spec_chunks(d, cs) == seq![d.take(cs)] + spec_chunks(tail, cs));
        assert(frames_are_chunks(rest, tail, cs)) by {
            assert(forall|i: int| 0 <= i < rest.len() ==> rest[i] == fs[i + 1]);
            assert(forall|i: int|
                0 <= i < spec_chunks(tail, cs).len() ==> #[trigger] spec_chunks(tail, cs)[i]
                    == spec_chunks(d, cs)[i + 1]);
        };
        lemma_chunk_frames_round_trip(tail, cs, rest);
        let b = fs[0]->Binary_0;
        assert(b@ == d.take(cs));
        assert(bin_prefix_bytes(fs) == b@ + bin_prefix_bytes(rest));
        assert(d.take(cs) + d.skip(cs) =~= d);
    }
}

} // verus!
