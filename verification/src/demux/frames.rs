//! What the frames of a stream hold, and how one is put together.
use crate::demux::layout::Run;
use vstd::prelude::*;

verus! {

/// Size of an extracted frame; also what a plain frame takes up in the stream.
pub const DSS_SP_FRAME_SIZE: usize = 42;

/// What a byte-swapped frame takes up in the stream.
pub const DSS_SP_SWAPPED_SIZE: usize = 40;

/// Place of the frame byte that is always zero, and of the stream byte that a plain
/// frame carries over into the swapped frame behind it.
pub const DSS_SP_CARRY_INDEX: usize = 40;

/// The byte of `stream` at `pos`; behind its end all bytes are zero.
pub open spec fn byte_at(stream: Seq<u8>, pos: int) -> u8 {
    if 0 <= pos < stream.len() {
        stream[pos]
    } else {
        0
    }
}

/// What a frame takes up in the stream.
pub open spec fn frame_len(swapped: bool) -> int {
    if swapped {
        DSS_SP_SWAPPED_SIZE as int
    } else {
        DSS_SP_FRAME_SIZE as int
    }
}

/// The frame stored at `pos`, where `carry` is the byte carried over from the plain
/// frame before it.
///
/// A plain frame is stored as it is. Of a swapped frame, the stream holds the bytes
/// of each pair in exchanged places, without the second byte of the frame, which is
/// the carried one. The byte at the carry place is zero in every frame.
pub open spec fn frame(stream: Seq<u8>, pos: int, swapped: bool, carry: u8) -> Seq<u8> {
    Seq::new(
        DSS_SP_FRAME_SIZE as nat,
        |k: int|
            if k == DSS_SP_CARRY_INDEX {
                0u8
            } else if !swapped {
                byte_at(stream, pos + k)
            } else if k == 1 {
                carry
            } else if k % 2 == 0 {
                byte_at(stream, pos + k + 1)
            } else {
                byte_at(stream, pos + k - 3)
            },
    )
}

/// The bytes of `stream` that the frame stored at `pos` is made of, as far as they are there.
pub open spec fn stored_bytes(stream: Seq<u8>, pos: int, swapped: bool) -> Seq<u8> {
    let end = if pos + frame_len(swapped) <= stream.len() {
        pos + frame_len(swapped)
    } else {
        stream.len() as int
    };
    let begin = if pos <= end {
        pos
    } else {
        end
    };
    stream.subrange(begin, end)
}

/// The byte carried on behind the frame stored at `pos`.
pub open spec fn carry_after(stream: Seq<u8>, pos: int, swapped: bool, carry: u8) -> u8 {
    if swapped {
        carry
    } else {
        byte_at(stream, pos + DSS_SP_CARRY_INDEX)
    }
}

/// Whether frame `k` of `run` is stored swapped.
pub open spec fn nth_swapped(run: Run, k: int) -> bool {
    run.swapped != (k % 2 == 1)
}

/// Where frame `k` of `run` is stored. A plain and a swapped frame together take up 82 bytes.
pub open spec fn nth_start(run: Run, k: int) -> int {
    run.start + 82 * (k / 2) + if k % 2 == 1 {
        frame_len(run.swapped)
    } else {
        0
    }
}

/// Where the last frame of `run` ends.
pub open spec fn run_end(run: Run) -> int {
    nth_start(run, run.count as int)
}

/// The byte carried into frame `k` of `run`, where `carry` is carried into its first.
pub open spec fn nth_carry(stream: Seq<u8>, run: Run, carry: u8, k: nat) -> u8
    decreases k,
{
    if k == 0 {
        carry
    } else {
        let j = (k - 1) as nat;
        carry_after(
            stream,
            nth_start(run, j as int),
            nth_swapped(run, j as int),
            nth_carry(stream, run, carry, j),
        )
    }
}

/// The byte carried on behind `run`.
pub open spec fn run_carry(stream: Seq<u8>, run: Run, carry: u8) -> u8 {
    nth_carry(stream, run, carry, run.count)
}

/// Frame `k` of `run`.
pub open spec fn nth_frame(stream: Seq<u8>, run: Run, carry: u8, k: nat) -> Seq<u8> {
    frame(
        stream,
        nth_start(run, k as int),
        nth_swapped(run, k as int),
        nth_carry(stream, run, carry, k),
    )
}

/// The frames of `run`.
pub open spec fn run_frames(stream: Seq<u8>, run: Run, carry: u8) -> Seq<Seq<u8>> {
    Seq::new(run.count, |k: int| nth_frame(stream, run, carry, k as nat))
}

/// The byte carried on behind `runs`; nothing is carried into the first.
pub open spec fn runs_carry(stream: Seq<u8>, runs: Seq<Run>) -> u8
    decreases runs.len(),
{
    if runs.len() == 0 {
        0
    } else {
        run_carry(stream, runs.last(), runs_carry(stream, runs.drop_last()))
    }
}

/// The frames of `runs`, in order.
pub open spec fn runs_frames(stream: Seq<u8>, runs: Seq<Run>) -> Seq<Seq<u8>>
    decreases runs.len(),
{
    if runs.len() == 0 {
        Seq::empty()
    } else {
        runs_frames(stream, runs.drop_last()) + run_frames(
            stream,
            runs.last(),
            runs_carry(stream, runs.drop_last()),
        )
    }
}

/// What the byte vectors in `frames` hold.
pub open spec fn contents(frames: Seq<Vec<u8>>) -> Seq<Seq<u8>> {
    Seq::new(frames.len(), |i: int| frames[i]@)
}

/// Puts the frame together whose stored bytes are `chunk`, zeros where `chunk` is short.
///
/// Returns the frame and the byte that it carries on.
pub(crate) fn pack_frame(chunk: &[u8], swapped: bool, carry: u8) -> (packed: (Vec<u8>, u8))
    requires
        chunk@.len() <= frame_len(swapped),
    ensures
        packed.0@ == frame(chunk@, 0, swapped, carry),
        packed.1 == carry_after(chunk@, 0, swapped, carry),
{
    let mut pkt: [u8; 43] = [0u8; 43];
    let mut next: u8 = carry;
    let lead: usize = if swapped {
        3
    } else {
        0
    };
    let mut i: usize = 0;
    while i < chunk.len()
        invariant
            i <= chunk@.len(),
            lead + chunk@.len() <= 43,
            forall|k: int|
                0 <= k < 43 ==> #[trigger] pkt@[k] == if lead <= k < lead + i {
                    chunk@[k - lead]
                } else {
                    0u8
                },
        decreases chunk@.len() - i,
    {
        pkt[lead + i] = chunk[i];
        i += 1;
    }
    let ghost loaded = pkt@;
    if swapped {
        let mut j: usize = 0;
        while j < DSS_SP_SWAPPED_SIZE
            invariant
                j <= 40,
                j % 2 == 0,
                loaded.len() == 43,
                forall|k: int|
                    0 <= k < 43 ==> #[trigger] pkt@[k] == if k < j && k % 2 == 0 {
                        loaded[k + 4]
                    } else {
                        loaded[k]
                    },
            decreases 40 - j,
        {
            pkt[j] = pkt[j + 4];
            j += 2;
        }
        pkt[1] = carry;
    } else {
        next = pkt[DSS_SP_CARRY_INDEX];
    }
    pkt[DSS_SP_CARRY_INDEX] = 0;
    let frame_bytes: Vec<u8> = vstd::slice::slice_to_vec(
        vstd::slice::slice_subrange(pkt.as_slice(), 0, DSS_SP_FRAME_SIZE),
    );
    assert(frame_bytes@ =~= frame(chunk@, 0, swapped, carry));
    (frame_bytes, next)
}

/// A frame is the same whether it is read from the stream or from its own stored bytes.
pub proof fn lemma_frame_of_chunk(stream: Seq<u8>, pos: int, swapped: bool, carry: u8)
    requires
        0 <= pos,
    ensures
        ({
            let chunk = stored_bytes(stream, pos, swapped);
            &&& chunk.len() <= frame_len(swapped)
            &&& frame(chunk, 0, swapped, carry) == frame(stream, pos, swapped, carry)
            &&& carry_after(chunk, 0, swapped, carry) == carry_after(stream, pos, swapped, carry)
        }),
{
    let chunk = stored_bytes(stream, pos, swapped);
    assert forall|p: int| 0 <= p < frame_len(swapped) implies #[trigger] byte_at(chunk, p)
        == byte_at(stream, pos + p) by {}
    assert(frame(chunk, 0, swapped, carry) =~= frame(stream, pos, swapped, carry));
}

/// Behind the end of the stream, a frame is the same wherever it is read.
pub proof fn lemma_frame_past_end(stream: Seq<u8>, p: int, q: int, swapped: bool, carry: u8)
    requires
        stream.len() <= p,
        stream.len() <= q,
    ensures
        frame(stream, p, swapped, carry) == frame(stream, q, swapped, carry),
        carry_after(stream, p, swapped, carry) == carry_after(stream, q, swapped, carry),
{
    assert forall|k: int| 0 <= k < DSS_SP_FRAME_SIZE implies #[trigger] frame(
        stream,
        p,
        swapped,
        carry,
    )[k] == frame(stream, q, swapped, carry)[k] by {
        // A swapped frame reads two places back from the third byte on only.
        assert(swapped && k % 2 == 1 && k != 1 ==> k >= 3);
    }
    assert(frame(stream, p, swapped, carry) =~= frame(stream, q, swapped, carry));
}

/// Where the frame behind frame `k` of a run is stored, and how.
pub proof fn lemma_nth_next(run: Run, k: int)
    requires
        0 <= k,
    ensures
        nth_start(run, 0) == run.start,
        nth_start(run, k + 1) == nth_start(run, k) + frame_len(nth_swapped(run, k)),
        nth_swapped(run, 0) == run.swapped,
        nth_swapped(run, k + 1) == !nth_swapped(run, k),
        run.start <= nth_start(run, k),
        nth_start(run, k) <= run.start + 42 * k,
{
}

/// The frames of a run lie one behind the other.
pub proof fn lemma_nth_order(run: Run, j: int, k: int)
    requires
        0 <= j <= k,
    ensures
        nth_start(run, j) <= nth_start(run, k),
{
}

/// What a vector of frames holds once one more is pushed.
pub proof fn lemma_contents_push(frames: Seq<Vec<u8>>, last: Vec<u8>)
    ensures
        contents(frames.push(last)) == contents(frames).push(last@),
{
    assert(contents(frames.push(last)) =~= contents(frames).push(last@));
}

} // verus!
