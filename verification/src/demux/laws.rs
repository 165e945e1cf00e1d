//! What holds of the demultiplexers as a whole.
use crate::demux::dss::file_frames;
use crate::demux::frames::{
    byte_at, carry_after, frame, frame_len, lemma_nth_next, lemma_nth_order, nth_carry, nth_frame,
    nth_start, nth_swapped, run_carry, run_end, run_frames, runs_carry, runs_frames,
    DSS_SP_CARRY_INDEX, DSS_SP_FRAME_SIZE,
};
use crate::demux::layout::{
    block_frame_count, block_payload, block_share, blocks_of, continuation_len, file_header_len,
    frame_total, is_dss, left_over, runs_of, stream_of, whole_blocks, Run, DSS_BLOCK_HEADER_SIZE,
    DSS_BLOCK_PAYLOAD_SIZE, DSS_BLOCK_SIZE,
};
use crate::demux::state::{lemma_accept_block_keeps, lemma_partial_unread, rebase, DemuxState};
use vstd::prelude::*;

verus! {

// ---- Pieces of input ----

/// Taking bytes in at once is the same as taking them in in two pieces.
proof fn lemma_accept_in_pieces(state: DemuxState, a: Seq<u8>, b: Seq<u8>)
    ensures
        ({
            let (middle, first) = state.accept_blocks(a);
            let (last, second) = middle.accept_blocks(middle.partial + b);
            &&& state.accept_blocks(a + b) == (last, first + second)
            &&& middle.header_complete == state.header_complete
            &&& middle.header_len == state.header_len
        }),
    decreases a.len(),
{
    let (middle, first) = state.accept_blocks(a);
    let (last, second) = middle.accept_blocks(middle.partial + b);
    if a.len() < DSS_BLOCK_SIZE {
        assert(first + second =~= second);
        assert(state.accept_blocks(a + b) =~= middle.accept_blocks(a + b));
    } else {
        let size = DSS_BLOCK_SIZE as int;
        let (next, frames) = DemuxState { partial: a.skip(size), ..state }.accept_block(
            a.take(size),
        );
        lemma_accept_block_keeps(DemuxState { partial: a.skip(size), ..state }, a.take(size));
        lemma_accept_in_pieces(next, a.skip(size), b);
        let more = next.accept_blocks(a.skip(size)).1;
        assert((a + b).take(size) =~= a.take(size));
        assert((a + b).skip(size) =~= a.skip(size) + b);
        lemma_partial_passed_on(
            DemuxState { partial: a.skip(size), ..state },
            (a + b).skip(size),
            a.take(size),
        );
        lemma_partial_unread(next, DemuxState { partial: (a + b).skip(size), ..next });
        let rest = (a + b).skip(size);
        assert(state.accept_blocks(a) == (middle, frames + more));
        assert(next.accept_blocks(rest) == (last, more + second));
        let step = DemuxState { partial: rest, ..state }.accept_block((a + b).take(size));
        assert(step == (DemuxState { partial: rest, ..next }, frames));
        assert(step.0.accept_blocks(rest) == (last, more + second));
        assert((a + b).len() >= DSS_BLOCK_SIZE);
        assert(state.accept_blocks(a + b) == (last, frames + (more + second)));
        assert(frames + (more + second) =~= (frames + more) + second);
    }
}

/// Taking a block in passes an incomplete part on and does not depend on it.
proof fn lemma_partial_passed_on(state: DemuxState, partial: Seq<u8>, block: Seq<u8>)
    ensures
        ({
            let (next, frames) = state.accept_block(block);
            DemuxState { partial, ..state }.accept_block(block) == (
                DemuxState { partial, ..next },
                frames,
            )
        }),
{
    assert(DemuxState { partial, ..state }.with_block(block) == (DemuxState {
        partial,
        ..state.with_block(block)
    }));
    lemma_partial_passed_on_emit(state.with_block(block), partial);
}

proof fn lemma_partial_passed_on_emit(state: DemuxState, partial: Seq<u8>)
    ensures
        ({
            let (next, frames) = state.emit_ready();
            DemuxState { partial, ..state }.emit_ready() == (DemuxState { partial, ..next }, frames)
        }),
    decreases state.pending.len(),
{
    if state.front_ready() {
        assert(DemuxState { partial, ..state }.after_front() == (DemuxState {
            partial,
            ..state.after_front()
        }));
        lemma_partial_passed_on_emit(state.after_front(), partial);
    }
}

/// How the input is cut does not matter: pushing `a` and then `b` leads to the same state and
/// yields the same frames as pushing both at once.
pub proof fn law_push_in_pieces(state: DemuxState, a: Seq<u8>, b: Seq<u8>)
    ensures
        ({
            let (middle, first) = state.push(a);
            let (last, second) = middle.push(b);
            state.push(a + b) == (last, first + second)
        }),
{
    let received = state.partial + a;
    let (middle, first) = state.push(a);
    let (last, second) = middle.push(b);
    assert(state.partial + (a + b) =~= received + b);
    if state.header_complete {
        lemma_accept_in_pieces(state, received, b);
    } else if received.len() < state.header_len {
        assert(first + second =~= second);
    } else {
        let skip = state.header_len as int;
        assert((received + b).skip(skip) =~= received.skip(skip) + b);
        lemma_accept_in_pieces(
            DemuxState { header_complete: true, ..state },
            received.skip(skip),
            b,
        );
    }
}

/// The state and the frames that pushing `chunks` one after the other leads to.
pub open spec fn push_all(state: DemuxState, chunks: Seq<Seq<u8>>) -> (DemuxState, Seq<Seq<u8>>)
    decreases chunks.len(),
{
    if chunks.len() == 0 {
        (state, Seq::empty())
    } else {
        let (next, frames) = state.push(chunks.first());
        let (last, more) = push_all(next, chunks.drop_first());
        (last, frames + more)
    }
}

/// However many pieces the input comes in, it is as if it came in one.
pub proof fn law_push_all(state: DemuxState, chunks: Seq<Seq<u8>>)
    requires
        chunks.len() > 0,
    ensures
        push_all(state, chunks) == state.push(chunks.flatten()),
    decreases chunks.len(),
{
    let (next, frames) = state.push(chunks.first());
    let rest = chunks.drop_first();
    if rest.len() == 0 {
        assert(rest.flatten() =~= Seq::empty());
        assert(chunks.flatten() =~= chunks.first());
        assert(push_all(next, rest).1 =~= Seq::empty());
        assert(frames + push_all(next, rest).1 =~= frames);
    } else {
        law_push_all(next, rest);
        law_push_in_pieces(state, chunks.first(), rest.flatten());
    }
}

// ---- What becomes of a file ----

/// How many of `runs`, counted from the first, end within `len` bytes before one does not.
pub open spec fn complete_runs(runs: Seq<Run>, len: int) -> nat
    decreases runs.len(),
{
    if runs.len() == 0 {
        0
    } else {
        let before = complete_runs(runs.drop_last(), len);
        if before == runs.len() - 1 && run_end(runs.last()) <= len {
            runs.len()
        } else {
            before
        }
    }
}

/// Every run declared by whole blocks has frames and begins in the stream, none before the one
/// ahead of it begins.
pub proof fn law_runs_placed(blocks: Seq<Seq<u8>>)
    requires
        whole_blocks(blocks),
    ensures
        forall|i: int|
            0 <= i < runs_of(blocks).len() ==> {
                &&& 0 <= (#[trigger] runs_of(blocks)[i]).start <= stream_of(blocks).len()
                &&& 0 < runs_of(blocks)[i].count <= 255
            },
        forall|i: int, j: int|
            0 <= i <= j < runs_of(blocks).len() ==> (#[trigger] runs_of(blocks)[i]).start <= (
            #[trigger] runs_of(blocks)[j]).start,
    decreases blocks.len(),
{
    if blocks.len() > 0 {
        assert(whole_blocks(blocks.drop_last()));
        law_runs_placed(blocks.drop_last());
        assert(blocks[blocks.len() - 1].len() == DSS_BLOCK_SIZE);
        let before = runs_of(blocks.drop_last());
        assert forall|i: int| 0 <= i < runs_of(blocks).len() implies {
            &&& 0 <= (#[trigger] runs_of(blocks)[i]).start <= stream_of(blocks).len()
            &&& 0 < runs_of(blocks)[i].count <= 255
            &&& i < before.len() ==> runs_of(blocks)[i] == before[i]
        } by {
            if i < before.len() {
                assert(runs_of(blocks)[i] == before[i]);
            }
        }
        assert forall|i: int, j: int| 0 <= i <= j < runs_of(blocks).len() implies (
        #[trigger] runs_of(blocks)[i]).start <= (#[trigger] runs_of(blocks)[j]).start by {
            if j < before.len() {
                assert(before[i].start <= before[j].start);
            } else if i < before.len() {
                assert(before[i].start <= stream_of(blocks.drop_last()).len());
            }
        }
    }
}

/// The frames of a run depend only on the stream bytes between its start and its end.
proof fn lemma_run_same_bytes(s: Seq<u8>, t: Seq<u8>, run: Run, shift: int, carry: u8)
    requires
        forall|p: int|
            run.start <= p < run_end(run) ==> byte_at(s, p) == #[trigger] byte_at(t, p + shift),
    ensures
        run_frames(s, run, carry) == run_frames(
            t,
            Run { start: run.start + shift, ..run },
            carry,
        ),
        run_carry(s, run, carry) == run_carry(t, Run { start: run.start + shift, ..run }, carry),
        run_end(Run { start: run.start + shift, ..run }) == run_end(run) + shift,
{
    let other = Run { start: run.start + shift, ..run };
    lemma_run_same_bytes_upto(s, t, run, shift, carry, run.count);
    assert forall|k: int| 0 <= k < run.count implies #[trigger] run_frames(s, run, carry)[k]
        == run_frames(t, other, carry)[k] by {
        lemma_run_same_bytes_upto(s, t, run, shift, carry, k as nat);
        lemma_frame_same_bytes(s, t, run, shift, k, nth_carry(s, run, carry, k as nat));
    }
    assert(run_frames(s, run, carry) =~= run_frames(t, other, carry));
}

proof fn lemma_frame_same_bytes(s: Seq<u8>, t: Seq<u8>, run: Run, shift: int, k: int, carry: u8)
    requires
        0 <= k < run.count,
        forall|p: int|
            run.start <= p < run_end(run) ==> byte_at(s, p) == #[trigger] byte_at(t, p + shift),
    ensures
        ({
            let pos = nth_start(run, k);
            let swapped = nth_swapped(run, k);
            &&& frame(s, pos, swapped, carry) == frame(t, pos + shift, swapped, carry)
            &&& carry_after(s, pos, swapped, carry) == carry_after(t, pos + shift, swapped, carry)
        }),
{
    let pos = nth_start(run, k);
    let swapped = nth_swapped(run, k);
    lemma_nth_next(run, k);
    lemma_nth_order(run, k + 1, run.count as int);
    assert forall|q: int| 0 <= q < frame_len(swapped) implies byte_at(s, pos + q)
        == #[trigger] byte_at(t, pos + shift + q) by {
        assert(byte_at(s, pos + q) == byte_at(t, (pos + q) + shift));
    }
    let f = frame(s, pos, swapped, carry);
    let g = frame(t, pos + shift, swapped, carry);
    assert forall|j: int| 0 <= j < DSS_SP_FRAME_SIZE implies #[trigger] f[j] == g[j] by {
        if j != DSS_SP_CARRY_INDEX {
            if !swapped {
                assert(byte_at(s, pos + j) == byte_at(t, pos + shift + j));
            } else if j != 1 {
                if j % 2 == 0 {
                    assert(byte_at(s, pos + (j + 1)) == byte_at(t, pos + shift + (j + 1)));
                } else {
                    assert(byte_at(s, pos + (j - 3)) == byte_at(t, pos + shift + (j - 3)));
                }
            }
        }
    }
    assert(f =~= g);
    if !swapped {
        assert(byte_at(s, pos + DSS_SP_CARRY_INDEX) == byte_at(
            t,
            pos + shift + DSS_SP_CARRY_INDEX,
        ));
    }
}

proof fn lemma_run_same_bytes_upto(
    s: Seq<u8>,
    t: Seq<u8>,
    run: Run,
    shift: int,
    carry: u8,
    k: nat,
)
    requires
        k <= run.count,
        forall|p: int|
            run.start <= p < run_end(run) ==> byte_at(s, p) == #[trigger] byte_at(t, p + shift),
    ensures
        nth_carry(s, run, carry, k) == nth_carry(
            t,
            Run { start: run.start + shift, ..run },
            carry,
            k,
        ),
    decreases k,
{
    if k > 0 {
        let j = (k - 1) as nat;
        lemma_run_same_bytes_upto(s, t, run, shift, carry, j);
        lemma_frame_same_bytes(s, t, run, shift, j as int, nth_carry(s, run, carry, j));
    }
}

/// Bytes that come behind the end of all runs do not change them.
proof fn lemma_runs_extend(s: Seq<u8>, more: Seq<u8>, runs: Seq<Run>)
    requires
        forall|i: int|
            0 <= i < runs.len() ==> 0 <= (#[trigger] runs[i]).start && run_end(runs[i]) <= s.len(),
    ensures
        runs_frames(s + more, runs) == runs_frames(s, runs),
        runs_carry(s + more, runs) == runs_carry(s, runs),
    decreases runs.len(),
{
    if runs.len() > 0 {
        let before = runs.drop_last();
        assert forall|i: int| 0 <= i < before.len() implies 0 <= (#[trigger] before[i]).start
            && run_end(before[i]) <= s.len() by {
            assert(before[i] == runs[i]);
        }
        lemma_runs_extend(s, more, before);
        let last = runs[runs.len() - 1];
        lemma_run_same_bytes(s, s + more, last, 0, runs_carry(s, before));
        assert(Run { start: last.start + 0, ..last } == last);
    }
}

/// Whether `state` is what is left of `blocks` once the first `m` of their runs are emitted and
/// the first `gone` bytes of their stream given up, and `frames` is what came out.
spec fn tracks(
    state: DemuxState,
    blocks: Seq<Seq<u8>>,
    frames: Seq<Seq<u8>>,
    m: int,
    gone: int,
) -> bool {
    let stream = stream_of(blocks);
    let runs = runs_of(blocks);
    &&& whole_blocks(blocks)
    &&& 0 <= m <= runs.len()
    &&& 0 <= gone <= stream.len()
    &&& m < runs.len() ==> gone <= runs[m].start
    &&& state.stream == stream.skip(gone)
    &&& state.pending == rebase(runs.skip(m), gone)
    &&& state.carry == runs_carry(stream, runs.take(m))
    &&& frames == runs_frames(stream, runs.take(m))
}

/// Whether the stream of `blocks` holds all bytes of their first `m` runs.
spec fn received(blocks: Seq<Seq<u8>>, m: int) -> bool {
    forall|i: int|
        0 <= i < m ==> run_end(#[trigger] runs_of(blocks)[i]) <= stream_of(blocks).len()
}

/// Whether run `m` of `blocks` is the first whose bytes the stream does not hold.
spec fn stops_at(blocks: Seq<Seq<u8>>, m: int) -> bool {
    &&& received(blocks, m)
    &&& m < runs_of(blocks).len() ==> run_end(runs_of(blocks)[m]) > stream_of(blocks).len()
}

/// Emitting the first pending run.
proof fn lemma_track_front(
    state: DemuxState,
    blocks: Seq<Seq<u8>>,
    frames: Seq<Seq<u8>>,
    m: int,
    gone: int,
)
    requires
        tracks(state, blocks, frames, m, gone),
        m < runs_of(blocks).len(),
    ensures
        state.pending.len() > 0,
        tracks(
            state.after_front(),
            blocks,
            frames + state.front_frames(),
            m + 1,
            gone + state.given_up(),
        ),
        state.front_ready() <==> run_end(runs_of(blocks)[m]) <= stream_of(blocks).len(),
{
    let stream = stream_of(blocks);
    let runs = runs_of(blocks);
    let front = state.pending[0];
    let by = state.given_up();
    law_runs_placed(blocks);
    assert(runs.skip(m)[0] == runs[m]);
    assert(0 <= runs[m].start <= stream.len());
    assert(runs.take(m + 1).drop_last() =~= runs.take(m));
    assert(runs.take(m + 1).last() == runs[m]);
    assert forall|p: int| front.start <= p < run_end(front) implies byte_at(state.stream, p)
        == #[trigger] byte_at(stream, p + gone) by {}
    lemma_run_same_bytes(state.stream, stream, front, gone, state.carry);
    assert(Run { start: front.start + gone, ..front } == runs[m]);
    lemma_nth_next(front, 0);
    lemma_nth_order(front, 0, front.count as int);
    if m + 1 < runs.len() {
        assert(runs.skip(m)[1] == runs[m + 1]);
        assert(runs[m].start <= runs[m + 1].start);
    }
    assert(state.after_front().stream =~= stream.skip(gone + by));
    assert(state.after_front().pending =~= rebase(runs.skip(m + 1), gone + by));
}

/// Emitting runs as long as the first one pending is complete.
proof fn lemma_track_ready(
    state: DemuxState,
    blocks: Seq<Seq<u8>>,
    frames: Seq<Seq<u8>>,
    m: int,
    gone: int,
) -> (at: (int, int))
    requires
        tracks(state, blocks, frames, m, gone),
        received(blocks, m),
    ensures
        tracks(state.emit_ready().0, blocks, frames + state.emit_ready().1, at.0, at.1),
        stops_at(blocks, at.0),
    decreases state.pending.len(),
{
    if m < runs_of(blocks).len() {
        lemma_track_front(state, blocks, frames, m, gone);
    }
    if state.front_ready() {
        let first = state.front_frames();
        let later = state.after_front();
        let at = lemma_track_ready(later, blocks, frames + first, m + 1, gone + state.given_up());
        assert(frames + (first + later.emit_ready().1) =~= (frames + first) + later.emit_ready().1);
        at
    } else {
        assert(frames + state.emit_ready().1 =~= frames);
        (m, gone)
    }
}

/// Emitting everything.
proof fn lemma_track_all(
    state: DemuxState,
    blocks: Seq<Seq<u8>>,
    frames: Seq<Seq<u8>>,
    m: int,
    gone: int,
)
    requires
        tracks(state, blocks, frames, m, gone),
    ensures
        frames + state.emit_all().1 == runs_frames(stream_of(blocks), runs_of(blocks)),
    decreases state.pending.len(),
{
    if m < runs_of(blocks).len() {
        lemma_track_front(state, blocks, frames, m, gone);
        let first = state.front_frames();
        let later = state.after_front();
        lemma_track_all(later, blocks, frames + first, m + 1, gone + state.given_up());
        assert(frames + (first + later.emit_all().1) =~= (frames + first) + later.emit_all().1);
    } else {
        assert(frames + state.emit_all().1 =~= frames);
        assert(runs_of(blocks).take(m) =~= runs_of(blocks));
    }
}

/// Taking in one more block, before anything of it is emitted.
proof fn lemma_track_block(
    state: DemuxState,
    blocks: Seq<Seq<u8>>,
    frames: Seq<Seq<u8>>,
    m: int,
    gone: int,
    block: Seq<u8>,
)
    requires
        tracks(state, blocks, frames, m, gone),
        received(blocks, m),
        block.len() == DSS_BLOCK_SIZE,
    ensures
        tracks(state.with_block(block), blocks.push(block), frames, m, gone),
        received(blocks.push(block), m),
{
    let all = blocks.push(block);
    let stream = stream_of(blocks);
    let runs = runs_of(blocks);
    let out = runs.take(m);
    assert(all.drop_last() =~= blocks);
    assert(whole_blocks(all)) by {
        assert forall|i: int| 0 <= i < all.len() implies (#[trigger] all[i]).len()
            == DSS_BLOCK_SIZE by {
            if i < blocks.len() {
                assert(all[i] == blocks[i]);
            }
        }
    }
    law_runs_placed(blocks);
    assert forall|i: int| 0 <= i < runs.len() implies #[trigger] runs_of(all)[i] == runs[i] by {}
    assert(runs_of(all).take(m) =~= out);
    assert forall|i: int| 0 <= i < out.len() implies 0 <= (#[trigger] out[i]).start && run_end(
        out[i],
    ) <= stream.len() by {
        assert(out[i] == runs[i]);
    }
    lemma_runs_extend(stream, block_share(block), out);
    assert(received(all, m)) by {
        assert forall|i: int| 0 <= i < m implies run_end(#[trigger] runs_of(all)[i]) <= stream_of(
            all,
        ).len() by {
            assert(runs_of(all)[i] == runs[i]);
        }
    }
    let later = state.with_block(block);
    assert(later.stream =~= stream_of(all).skip(gone));
    assert(later.pending =~= rebase(runs_of(all).skip(m), gone));
}

/// The first block of `bytes`, the others, and what is left over.
proof fn lemma_blocks_of_front(bytes: Seq<u8>)
    requires
        bytes.len() >= DSS_BLOCK_SIZE,
    ensures
        blocks_of(bytes) == seq![bytes.take(512)] + blocks_of(bytes.skip(512)),
        left_over(bytes) == left_over(bytes.skip(512)),
{
    let rest = bytes.skip(512);
    assert(rest.len() / 512 == bytes.len() / 512 - 1);
    assert forall|i: int| 0 <= i < blocks_of(bytes).len() implies #[trigger] blocks_of(bytes)[i]
        == (seq![bytes.take(512)] + blocks_of(rest))[i] by {
        if i == 0 {
            assert(blocks_of(bytes)[0] =~= bytes.take(512));
        } else {
            assert(blocks_of(bytes)[i] =~= blocks_of(rest)[i - 1]);
        }
    }
    assert(blocks_of(bytes) =~= seq![bytes.take(512)] + blocks_of(rest));
    assert(left_over(rest) =~= left_over(bytes));
}

/// Taking bytes in, block by block.
proof fn lemma_track_blocks(
    state: DemuxState,
    blocks: Seq<Seq<u8>>,
    frames: Seq<Seq<u8>>,
    m: int,
    gone: int,
    bytes: Seq<u8>,
) -> (at: (int, int))
    requires
        tracks(state, blocks, frames, m, gone),
        stops_at(blocks, m),
    ensures
        ({
            let all = blocks + blocks_of(bytes);
            let (later, more) = state.accept_blocks(bytes);
            &&& tracks(later, all, frames + more, at.0, at.1)
            &&& stops_at(all, at.0)
            &&& later.partial == left_over(bytes)
            &&& later.header_complete == state.header_complete
        }),
    decreases bytes.len(),
{
    let (later, more) = state.accept_blocks(bytes);
    if bytes.len() < DSS_BLOCK_SIZE {
        assert(blocks + blocks_of(bytes) =~= blocks);
        assert(frames + more =~= frames);
        assert(left_over(bytes) =~= bytes);
        (m, gone)
    } else {
        let block = bytes.take(DSS_BLOCK_SIZE as int);
        let rest = bytes.skip(DSS_BLOCK_SIZE as int);
        let ready = DemuxState { partial: rest, ..state };
        let (next, first) = ready.accept_block(block);
        lemma_accept_block_keeps(ready, block);
        lemma_track_block(ready, blocks, frames, m, gone, block);
        let n = lemma_track_ready(ready.with_block(block), blocks.push(block), frames, m, gone);
        let at = lemma_track_blocks(next, blocks.push(block), frames + first, n.0, n.1, rest);
        let second = next.accept_blocks(rest).1;
        assert(frames + (first + second) =~= (frames + first) + second);
        lemma_blocks_of_front(bytes);
        assert(blocks.push(block) + blocks_of(rest) =~= blocks + blocks_of(bytes));
        at
    }
}

/// How far runs are complete, given the first one that is not.
proof fn lemma_complete_runs(blocks: Seq<Seq<u8>>, m: int, n: int)
    requires
        0 <= m <= n <= runs_of(blocks).len(),
        stops_at(blocks, m),
    ensures
        complete_runs(runs_of(blocks).take(n), stream_of(blocks).len() as int) == m,
    decreases n,
{
    let runs = runs_of(blocks);
    if m < n {
        lemma_complete_runs(blocks, m, n - 1);
        assert(runs.take(n).drop_last() =~= runs.take(n - 1));
        assert(runs.take(n).last() == runs[n - 1]);
    } else {
        lemma_complete_prefix(blocks, m);
    }
}

/// Runs that are all received are all complete.
proof fn lemma_complete_prefix(blocks: Seq<Seq<u8>>, m: int)
    requires
        0 <= m <= runs_of(blocks).len(),
        received(blocks, m),
    ensures
        complete_runs(runs_of(blocks).take(m), stream_of(blocks).len() as int) == m,
    decreases m,
{
    let runs = runs_of(blocks);
    if m > 0 {
        lemma_complete_prefix(blocks, m - 1);
        assert(runs.take(m).drop_last() =~= runs.take(m - 1));
        assert(runs.take(m).last() == runs[m - 1]);
    }
}

/// Until the file header is there, nothing comes out, and what came in is all that is held. The
/// input may not end inside the header.
pub proof fn law_header_first(version: u8, data: Seq<u8>)
    requires
        data.len() < file_header_len(version),
    ensures
        ({
            let (state, frames) = DemuxState::initial(version).push(data);
            &&& frames == Seq::<Seq<u8>>::empty()
            &&& state == (DemuxState { partial: data, ..DemuxState::initial(version) })
            &&& state.at_end() <==> data.len() == 0
        }),
{
    assert(DemuxState::initial(version).partial + data =~= data);
}

/// What a demultiplexer makes of the start of a file that goes beyond the file header.
///
/// The frames that are out are those of the first blocks, up to the first one whose frames have
/// not all been received in whole. The input may end if no block is cut short and no frame is
/// missing bytes. The frames that are out, and behind them those that a lenient end yields, are
/// the frames of all whole blocks, each read where its block declares it.
pub proof fn law_stream_frames(version: u8, data: Seq<u8>)
    requires
        data.len() >= file_header_len(version),
    ensures
        ({
            let body = data.skip(file_header_len(version) as int);
            let blocks = blocks_of(body);
            let stream = stream_of(blocks);
            let runs = runs_of(blocks);
            let complete = complete_runs(runs, stream.len() as int);
            let (state, frames) = DemuxState::initial(version).push(data);
            &&& state.header_complete
            &&& state.partial == left_over(body)
            &&& complete <= runs.len()
            &&& frames == runs_frames(stream, runs.take(complete as int))
            &&& state.pending.len() == runs.len() - complete
            &&& state.at_end() <==> body.len() % 512 == 0 && complete == runs.len()
            &&& frames + state.flush().1 == runs_frames(stream, runs)
            &&& (frames + state.flush().1).len() == frame_total(runs)
        }),
{
    let start = DemuxState::initial(version);
    let open = DemuxState { header_complete: true, ..start };
    let none = Seq::<Seq<u8>>::empty();
    let body = data.skip(file_header_len(version) as int);
    let blocks = blocks_of(body);
    let stream = stream_of(blocks);
    let runs = runs_of(blocks);
    let (state, frames) = start.push(data);
    assert(start.partial + data =~= data);
    assert(tracks(open, none, none, 0, 0)) by {
        assert(runs_of(none).take(0) =~= Seq::empty());
        assert(open.stream =~= stream_of(none).skip(0));
        assert(open.pending =~= rebase(runs_of(none).skip(0), 0));
    }
    let at = lemma_track_blocks(open, none, none, 0, 0, body);
    assert(none + blocks =~= blocks);
    assert(none + frames =~= frames);
    lemma_complete_runs(blocks, at.0, runs.len() as int);
    assert(runs.take(runs.len() as int) =~= runs);
    let kept = DemuxState { partial: Seq::empty(), ..state };
    assert(tracks(kept, blocks, frames, at.0, at.1));
    lemma_track_all(kept, blocks, frames, at.0, at.1);
    law_frame_shape(stream, runs);
}

/// Pushing a file piece by piece yields what demultiplexing it at once yields. With what a lenient
/// end yields, the frames are those of the whole file; if the input may end where it does, they
/// are all out before.
pub proof fn law_stream_matches_batch(chunks: Seq<Seq<u8>>)
    requires
        is_dss(chunks.flatten()),
        chunks.flatten().len() >= file_header_len(chunks.flatten()[0]),
    ensures
        ({
            let data = chunks.flatten();
            let (state, frames) = push_all(DemuxState::initial(data[0]), chunks);
            &&& state.header_complete
            &&& frames + state.flush().1 == file_frames(data)
            &&& state.at_end() ==> frames == file_frames(data)
        }),
{
    let data = chunks.flatten();
    let (state, frames) = push_all(DemuxState::initial(data[0]), chunks);
    law_push_all(DemuxState::initial(data[0]), chunks);
    law_stream_frames(data[0], data);
    if state.at_end() {
        assert(state.flush().1 =~= Seq::empty());
        assert(frames + state.flush().1 =~= frames);
    }
}

// ---- Emission ----

/// Emitting runs goes on until the first one pending is not complete. What is left is the last of
/// the runs that were pending, each with its frames stored as before.
pub proof fn law_emit_ready(state: DemuxState)
    ensures
        ({
            let (last, frames) = state.emit_ready();
            let out = state.pending.len() - last.pending.len();
            &&& !last.front_ready()
            &&& 0 <= out
            &&& forall|i: int|
                0 <= i < last.pending.len() ==> {
                    &&& (#[trigger] last.pending[i]).count == state.pending[out + i].count
                    &&& last.pending[i].swapped == state.pending[out + i].swapped
                }
            &&& frames.len() + frame_total(last.pending) == frame_total(state.pending)
        }),
    decreases state.pending.len(),
{
    if state.front_ready() {
        let next = state.after_front();
        law_emit_ready(next);
        lemma_total_front(state.pending);
        lemma_total_rebased(state.pending.skip(1), state.given_up());
        let (last, frames) = state.emit_ready();
        let out = next.pending.len() - last.pending.len();
        assert forall|i: int| 0 <= i < last.pending.len() implies {
            &&& (#[trigger] last.pending[i]).count == state.pending[out + 1 + i].count
            &&& last.pending[i].swapped == state.pending[out + 1 + i].swapped
        } by {
            assert(next.pending[out + i].count == state.pending.skip(1)[out + i].count);
        }
    }
}

/// No frame is lost or made up: what a block adds to the frames to come comes out or is pending.
pub proof fn law_accept_block(state: DemuxState, block: Seq<u8>)
    ensures
        ({
            let (next, frames) = state.accept_block(block);
            frames.len() + frame_total(next.pending) == frame_total(state.pending)
                + block_frame_count(block)
        }),
{
    law_emit_ready(state.with_block(block));
    let with = state.with_block(block).pending;
    if block_frame_count(block) > 0 {
        assert(with.drop_last() =~= state.pending);
    }
}

/// A lenient end leaves nothing pending and yields as many frames as were. It is the same with an
/// incomplete block as without it.
pub proof fn law_flush(state: DemuxState)
    ensures
        state.flush() == (DemuxState { partial: Seq::empty(), ..state }).flush(),
        state.flush().0.pending.len() == 0,
        state.flush().0.partial.len() == 0,
        state.flush().1.len() == frame_total(state.pending),
{
    lemma_emit_all(DemuxState { partial: Seq::empty(), ..state });
}

proof fn lemma_emit_all(state: DemuxState)
    ensures
        state.emit_all().0.pending.len() == 0,
        state.emit_all().0.partial == state.partial,
        state.emit_all().0.header_complete == state.header_complete,
        state.emit_all().1.len() == frame_total(state.pending),
    decreases state.pending.len(),
{
    if state.pending.len() > 0 {
        lemma_emit_all(state.after_front());
        lemma_total_front(state.pending);
        lemma_total_rebased(state.pending.skip(1), state.given_up());
    }
}

proof fn lemma_total_front(runs: Seq<Run>)
    requires
        runs.len() > 0,
    ensures
        frame_total(runs) == runs[0].count + frame_total(runs.skip(1)),
    decreases runs.len(),
{
    if runs.len() > 1 {
        lemma_total_front(runs.drop_last());
        assert(runs.drop_last().skip(1) =~= runs.skip(1).drop_last());
        assert(runs.skip(1).last() == runs.last());
    } else {
        assert(frame_total(runs.drop_last()) == 0);
        assert(frame_total(runs.skip(1)) == 0);
    }
}

proof fn lemma_total_rebased(runs: Seq<Run>, by: int)
    ensures
        frame_total(rebase(runs, by)) == frame_total(runs),
    decreases runs.len(),
{
    if runs.len() > 0 {
        lemma_total_rebased(runs.drop_last(), by);
        assert(rebase(runs, by).drop_last() =~= rebase(runs.drop_last(), by));
    }
}

// ---- Behind a lenient end ----

/// Whether `state` is `other` with the bytes `dead` held ahead of its stream.
spec fn behind(state: DemuxState, other: DemuxState, dead: Seq<u8>) -> bool {
    &&& state == (DemuxState {
        stream: dead + other.stream,
        pending: rebase(other.pending, -dead.len()),
        ..other
    })
    &&& forall|i: int| 0 <= i < other.pending.len() ==> 0 <= (#[trigger] other.pending[i]).start
}

/// Bytes ahead of all pending runs do not show in the first of them, and are given up with it.
proof fn lemma_behind_front(state: DemuxState, other: DemuxState, dead: Seq<u8>)
    requires
        behind(state, other, dead),
        other.pending.len() > 0,
    ensures
        state.front_ready() == other.front_ready(),
        state.front_frames() == other.front_frames(),
        state.after_front() == other.after_front(),
{
    let shift = dead.len() as int;
    let run = other.pending[0];
    assert forall|p: int| run.start <= p < run_end(run) implies byte_at(other.stream, p)
        == #[trigger] byte_at(state.stream, p + shift) by {}
    lemma_run_same_bytes(other.stream, state.stream, run, shift, other.carry);
    assert(state.pending[0] == (Run { start: run.start + shift, ..run }));
    lemma_nth_next(run, 0);
    lemma_nth_order(run, 0, run.count as int);
    assert(state.given_up() == other.given_up() + shift);
    assert(state.stream.skip(state.given_up()) =~= other.stream.skip(other.given_up()));
    assert(rebase(state.pending.skip(1), state.given_up()) =~= rebase(
        other.pending.skip(1),
        other.given_up(),
    ));
}

proof fn lemma_behind_emit(state: DemuxState, other: DemuxState, dead: Seq<u8>)
    requires
        behind(state, other, dead),
    ensures
        state.emit_ready().1 == other.emit_ready().1,
        state.emit_ready().0 == other.emit_ready().0 || behind(
            state.emit_ready().0,
            other.emit_ready().0,
            dead,
        ),
        state.emit_all().1 == other.emit_all().1,
        state.emit_all().0.carry == other.emit_all().0.carry,
{
    if other.pending.len() > 0 {
        lemma_behind_front(state, other, dead);
    }
}

proof fn lemma_behind_accept(
    state: DemuxState,
    other: DemuxState,
    dead: Seq<u8>,
    bytes: Seq<u8>,
)
    requires
        behind(state, other, dead),
    ensures
        state.accept_blocks(bytes).1 == other.accept_blocks(bytes).1,
        state.accept_blocks(bytes).0 == other.accept_blocks(bytes).0 || behind(
            state.accept_blocks(bytes).0,
            other.accept_blocks(bytes).0,
            dead,
        ),
    decreases bytes.len(),
{
    if bytes.len() >= DSS_BLOCK_SIZE {
        let rest = bytes.skip(DSS_BLOCK_SIZE as int);
        let block = bytes.take(DSS_BLOCK_SIZE as int);
        let a = DemuxState { partial: rest, ..state }.with_block(block);
        let b = DemuxState { partial: rest, ..other }.with_block(block);
        assert(a.stream =~= dead + b.stream);
        assert(a.pending =~= rebase(b.pending, -dead.len()));
        lemma_behind_emit(a, b, dead);
        if a.emit_ready().0 != b.emit_ready().0 {
            lemma_behind_accept(a.emit_ready().0, b.emit_ready().0, dead, rest);
        }
    }
}

/// With nothing pending, the payload bytes still held have no part in what comes: a demultiplexer
/// that holds none yields the same frames from then on, and may end at the same places.
pub proof fn law_held_bytes_unread(state: DemuxState, data: Seq<u8>)
    requires
        state.pending.len() == 0,
    ensures
        ({
            let (a, a_frames) = state.push(data);
            let (b, b_frames) = DemuxState { stream: Seq::empty(), ..state }.push(data);
            &&& a_frames == b_frames
            &&& a.flush().1 == b.flush().1
            &&& a.flush().0.carry == b.flush().0.carry
            &&& a.at_end() == b.at_end()
            &&& a.header_complete == b.header_complete
            &&& a.partial == b.partial
            &&& a.pending.len() == b.pending.len()
        }),
{
    let other = DemuxState { stream: Seq::empty(), ..state };
    let received = state.partial + data;
    let dead = state.stream;
    assert(dead + other.stream =~= dead);
    assert(rebase(other.pending, -dead.len()) =~= state.pending);
    assert(behind(state, other, dead));
    let opened = DemuxState { header_complete: true, ..state };
    let other_opened = DemuxState { header_complete: true, ..other };
    lemma_behind_accept(state, other, dead, received);
    lemma_behind_accept(opened, other_opened, dead, received.skip(state.header_len as int));
    let a = state.push(data).0;
    let b = other.push(data).0;
    assert(a == b || behind(a, b, dead));
    if a != b {
        lemma_behind_emit(
            DemuxState { partial: Seq::empty(), ..a },
            DemuxState { partial: Seq::empty(), ..b },
            dead,
        );
    }
}

/// Emitting what is ready and then the rest is emitting all.
proof fn lemma_ready_then_all(state: DemuxState)
    ensures
        state.emit_all().0 == state.emit_ready().0.emit_all().0,
        state.emit_all().1 == state.emit_ready().1 + state.emit_ready().0.emit_all().1,
    decreases state.pending.len(),
{
    if state.front_ready() {
        let next = state.after_front();
        lemma_ready_then_all(next);
        assert(state.front_frames() + (next.emit_ready().1 + next.emit_ready().0.emit_all().1)
            =~= (state.front_frames() + next.emit_ready().1) + next.emit_ready().0.emit_all().1);
    } else {
        assert(Seq::<Seq<u8>>::empty() + state.emit_all().1 =~= state.emit_all().1);
    }
}

/// Emitting all runs passes an incomplete part on and does not depend on it.
proof fn lemma_partial_passed_on_all(state: DemuxState, partial: Seq<u8>)
    ensures
        ({
            let (next, frames) = state.emit_all();
            DemuxState { partial, ..state }.emit_all() == (DemuxState { partial, ..next }, frames)
        }),
    decreases state.pending.len(),
{
    if state.pending.len() > 0 {
        assert(DemuxState { partial, ..state }.after_front() == (DemuxState {
            partial,
            ..state.after_front()
        }));
        lemma_partial_passed_on_all(state.after_front(), partial);
    }
}

/// Zeros behind the stream do not show in what a lenient end yields.
proof fn lemma_zeros_emit_all(state: DemuxState, zeros: Seq<u8>)
    requires
        state.runs_placed(),
        forall|i: int| 0 <= i < zeros.len() ==> #[trigger] zeros[i] == 0,
    ensures
        ({
            let more = DemuxState { stream: state.stream + zeros, ..state };
            &&& more.emit_all().1 == state.emit_all().1
            &&& more.emit_all().0 == (DemuxState {
                stream: more.emit_all().0.stream,
                ..state.emit_all().0
            })
        }),
    decreases state.pending.len(),
{
    let more = DemuxState { stream: state.stream + zeros, ..state };
    if state.pending.len() > 0 {
        let run = state.pending[0];
        assert forall|p: int| run.start <= p < run_end(run) implies byte_at(state.stream, p)
            == #[trigger] byte_at(more.stream, p + 0) by {}
        lemma_run_same_bytes(state.stream, more.stream, run, 0, state.carry);
        assert(Run { start: run.start + 0, ..run } == run);
        let next = state.after_front();
        lemma_after_front_placed(state);
        if state.pending.len() > 1 {
            assert(state.pending[1].start <= state.stream.len());
            lemma_nth_next(run, 0);
            lemma_nth_order(run, 0, run.count as int);
            assert(more.given_up() == state.given_up());
            assert(more.after_front().stream =~= next.stream + zeros);
            assert(more.after_front() == (DemuxState { stream: next.stream + zeros, ..next }));
            lemma_zeros_emit_all(next, zeros);
        } else {
            let last = more.after_front();
            assert(last.pending =~= next.pending);
            assert(last.emit_all() == (last, Seq::<Seq<u8>>::empty()));
            assert(next.emit_all() == (next, Seq::<Seq<u8>>::empty()));
        }
    }
}

/// The pending runs stay placed when the first is emitted.
proof fn lemma_after_front_placed(state: DemuxState)
    requires
        state.runs_placed(),
        state.pending.len() > 0,
    ensures
        state.after_front().runs_placed(),
        0 <= state.given_up() <= state.stream.len(),
{
    let run = state.pending[0];
    let next = state.after_front();
    lemma_nth_next(run, 0);
    lemma_nth_order(run, 0, run.count as int);
    assert forall|i: int| 0 <= i < next.pending.len() implies {
        &&& 0 <= (#[trigger] next.pending[i]).start <= next.stream.len()
        &&& 0 < next.pending[i].count <= 255
    } by {
        assert(state.pending[1].start <= state.pending[i + 1].start);
    }
    assert forall|i: int, j: int| 0 <= i <= j < next.pending.len() implies (
    #[trigger] next.pending[i]).start <= (#[trigger] next.pending[j]).start by {
        assert(state.pending[i + 1].start <= state.pending[j + 1].start);
    }
}

/// Whether every pending run ends at most `short` bytes behind the stream.
spec fn short_by(state: DemuxState, short: int) -> bool {
    forall|i: int|
        0 <= i < state.pending.len() ==> run_end(#[trigger] state.pending[i]) <= state.stream.len()
            + short
}

proof fn lemma_short_by_emit(state: DemuxState, short: int)
    requires
        state.runs_placed(),
        short_by(state, short),
    ensures
        state.emit_ready().0.runs_placed(),
        short_by(state.emit_ready().0, short),
    decreases state.pending.len(),
{
    if state.front_ready() {
        let next = state.after_front();
        lemma_after_front_placed(state);
        assert forall|i: int| 0 <= i < next.pending.len() implies run_end(
            #[trigger] next.pending[i],
        ) <= next.stream.len() + short by {
            assert(run_end(state.pending[i + 1]) <= state.stream.len() + short);
        }
        lemma_short_by_emit(next, short);
    }
}

/// Whether `bytes` are blocks without frames whose whole payload is continuation, all of it zeros.
pub open spec fn zero_blocks(bytes: Seq<u8>) -> bool {
    &&& bytes.len() % 512 == 0
    &&& forall|t: int|
        0 <= t < bytes.len() ==> #[trigger] bytes[t] == if t % 512 == 0 {
            128u8
        } else if t % 512 == 1 {
            255u8
        } else {
            0u8
        }
}

proof fn lemma_zero_blocks(state: DemuxState, bytes: Seq<u8>)
    requires
        state.runs_placed(),
        zero_blocks(bytes),
        short_by(state, 506 * (bytes.len() as int / 512)),
        bytes.len() > 0 || !state.front_ready(),
    ensures
        ({
            let (a, a_frames) = state.accept_blocks(bytes);
            let (b, b_frames) = state.emit_all();
            &&& a_frames == b_frames
            &&& a == (DemuxState { stream: a.stream, partial: Seq::empty(), ..b })
        }),
    decreases bytes.len(),
{
    if bytes.len() == 0 {
        if state.pending.len() > 0 {
            assert(run_end(state.pending[0]) <= state.stream.len());
        }
        assert(bytes =~= Seq::empty());
    } else {
        let size = DSS_BLOCK_SIZE as int;
        let rest = bytes.skip(size);
        let block = bytes.take(size);
        let ready = DemuxState { partial: rest, ..state };
        let zeros = block_share(block);
        assert(block[0] == 128 && block[1] == 255 && block[2] == 0);
        assert forall|i: int| 0 <= i < zeros.len() implies #[trigger] zeros[i] == 0 by {
            assert(zeros[i] == bytes[i + 6]);
        }
        assert(zeros.len() == 506);
        let more = ready.with_block(block);
        assert(more == (DemuxState { stream: ready.stream + zeros, ..ready }));
        lemma_zeros_emit_all(ready, zeros);
        lemma_partial_passed_on_all(state, rest);
        lemma_ready_then_all(more);
        let n = bytes.len() as int / 512;
        assert(rest.len() as int / 512 == n - 1);
        assert(short_by(more, 506 * (n - 1))) by {
            assert forall|i: int| 0 <= i < more.pending.len() implies run_end(
                #[trigger] more.pending[i],
            ) <= more.stream.len() + 506 * (n - 1) by {
                assert(run_end(state.pending[i]) <= state.stream.len() + 506 * n);
            }
        }
        lemma_short_by_emit(more, 506 * (n - 1));
        law_emit_ready(more);
        let next = more.emit_ready().0;
        assert(zero_blocks(rest)) by {
            assert forall|t: int| 0 <= t < rest.len() implies #[trigger] rest[t] == if t % 512 == 0 {
                128u8
            } else if t % 512 == 1 {
                255u8
            } else {
                0u8
            } by {
                assert(rest[t] == bytes[t + 512]);
            }
        }
        lemma_zero_blocks(next, rest);
    }
}

/// A lenient end is as if zeros enough for all missing bytes had come, in blocks without frames:
/// the same frames come out, and the same is carried on.
pub proof fn law_flush_as_zeros(state: DemuxState, zeros: Seq<u8>)
    requires
        state.valid(),
        state.header_complete,
        state.partial.len() == 0,
        zero_blocks(zeros),
        zeros.len() >= 512 * 22,
    ensures
        ({
            let (a, a_frames) = state.push(zeros);
            let (b, b_frames) = state.flush();
            &&& a_frames == b_frames
            &&& a == (DemuxState { stream: a.stream, ..b })
            &&& b.pending.len() == 0
            &&& b.partial.len() == 0
            &&& b.header_complete
        }),
{
    assert(state.partial =~= Seq::empty());
    assert(state == (DemuxState { partial: Seq::empty(), ..state }));
    assert(state.partial + zeros =~= zeros);
    assert(short_by(state, 506 * (zeros.len() as int / 512))) by {
        assert forall|i: int| 0 <= i < state.pending.len() implies run_end(
            #[trigger] state.pending[i],
        ) <= state.stream.len() + 506 * (zeros.len() as int / 512) by {
            let run = state.pending[i];
            lemma_nth_next(run, run.count as int);
        }
    }
    lemma_zero_blocks(state, zeros);
    law_flush(state);
    lemma_emit_all(state);
}

// ---- Frames ----

/// Whether `frame` has the size of a frame and a zero at the carry place.
pub open spec fn well_shaped(frame: Seq<u8>) -> bool {
    frame.len() == DSS_SP_FRAME_SIZE && frame[DSS_SP_CARRY_INDEX as int] == 0
}

/// Whether all of `frames` are well shaped.
pub open spec fn all_well_shaped(frames: Seq<Seq<u8>>) -> bool {
    forall|i: int| 0 <= i < frames.len() ==> well_shaped(#[trigger] frames[i])
}

/// There are as many frames as the runs declare, all of the same size and with a zero at the
/// carry place.
pub proof fn law_frame_shape(stream: Seq<u8>, runs: Seq<Run>)
    ensures
        runs_frames(stream, runs).len() == frame_total(runs),
        all_well_shaped(runs_frames(stream, runs)),
    decreases runs.len(),
{
    if runs.len() > 0 {
        let before = runs.drop_last();
        law_frame_shape(stream, before);
        let last = run_frames(stream, runs.last(), runs_carry(stream, before));
        assert(all_well_shaped(last));
    }
}

/// What a demultiplexer emits has the shape of frames, in whatever state it is.
pub proof fn law_pushed_frames_shape(state: DemuxState, data: Seq<u8>)
    ensures
        all_well_shaped(state.push(data).1),
        all_well_shaped(state.flush().1),
{
    lemma_accepted_frames_shape(state, state.partial + data);
    lemma_accepted_frames_shape(
        DemuxState { header_complete: true, ..state },
        (state.partial + data).skip(state.header_len as int),
    );
    lemma_emitted_frames_shape(DemuxState { partial: Seq::empty(), ..state });
}

proof fn lemma_accepted_frames_shape(state: DemuxState, bytes: Seq<u8>)
    ensures
        all_well_shaped(state.accept_blocks(bytes).1),
    decreases bytes.len(),
{
    if bytes.len() >= DSS_BLOCK_SIZE {
        let rest = bytes.skip(DSS_BLOCK_SIZE as int);
        let block = bytes.take(DSS_BLOCK_SIZE as int);
        let ready = DemuxState { partial: rest, ..state }.with_block(block);
        lemma_emitted_frames_shape(ready);
        lemma_accepted_frames_shape(ready.emit_ready().0, rest);
    }
}

proof fn lemma_emitted_frames_shape(state: DemuxState)
    ensures
        all_well_shaped(state.emit_ready().1),
        all_well_shaped(state.emit_all().1),
    decreases state.pending.len(),
{
    if state.pending.len() > 0 {
        lemma_emitted_frames_shape(state.after_front());
        assert(all_well_shaped(state.front_frames()));
    }
}

/// No stored byte is lost: each byte of a plain frame comes out in its place or is carried on,
/// and each byte of a swapped frame comes out one place earlier or three places later.
pub proof fn law_frame_keeps_bytes(stream: Seq<u8>, pos: int, swapped: bool, carry: u8, q: int)
    requires
        0 <= q < frame_len(swapped),
    ensures
        ({
            let out = frame(stream, pos, swapped, carry);
            let stored = byte_at(stream, pos + q);
            if !swapped && q == DSS_SP_CARRY_INDEX {
                carry_after(stream, pos, swapped, carry) == stored
            } else if !swapped {
                out[q] == stored
            } else if q % 2 == 1 {
                out[q - 1] == stored
            } else {
                out[q + 3] == stored
            }
        }),
{
}

/// A frame that lies wholly behind the end of the stream is all zeros, but for the byte carried
/// into it where it is stored swapped.
pub proof fn law_frame_past_end(stream: Seq<u8>, pos: int, swapped: bool, carry: u8, k: int)
    requires
        stream.len() <= pos,
        0 <= k < DSS_SP_FRAME_SIZE,
    ensures
        frame(stream, pos, swapped, carry)[k] == if swapped && k == 1 {
            carry
        } else {
            0
        },
{
}

/// A run begins as it is declared, whatever came before; in a run, the second byte of a swapped
/// frame is the byte at the carry place of the plain frame before it.
pub proof fn law_swapped_after_plain(stream: Seq<u8>, run: Run, carry: u8, k: nat)
    requires
        k < run.count,
    ensures
        nth_swapped(run, 0) == run.swapped,
        nth_start(run, 0) == run.start,
        nth_swapped(run, k as int) && k == 0 ==> nth_frame(stream, run, carry, k)[1] == carry,
        nth_swapped(run, k as int) && k > 0 ==> nth_frame(stream, run, carry, k)[1] == byte_at(
            stream,
            nth_start(run, k - 1) + DSS_SP_CARRY_INDEX,
        ),
{
    if k > 0 {
        lemma_nth_next(run, k - 1);
    }
}

/// In a whole file every block's frames are read where that block declares them: what the blocks
/// before it declare decides only how many frames come out ahead of them, and the byte carried
/// into the first.
pub proof fn law_run_in_file(stream: Seq<u8>, runs: Seq<Run>, i: int)
    requires
        0 <= i < runs.len(),
    ensures
        frame_total(runs.take(i)) + runs[i].count <= runs_frames(stream, runs).len(),
        runs_frames(stream, runs).subrange(
            frame_total(runs.take(i)) as int,
            (frame_total(runs.take(i)) + runs[i].count) as int,
        ) == run_frames(stream, runs[i], runs_carry(stream, runs.take(i))),
    decreases runs.len(),
{
    let before = runs.drop_last();
    let all = runs_frames(stream, runs);
    law_frame_shape(stream, before);
    let first = frame_total(runs.take(i)) as int;
    if i == runs.len() - 1 {
        assert(runs.take(i) =~= before);
        assert(all.subrange(first, first + runs[i].count) =~= run_frames(
            stream,
            runs[i],
            runs_carry(stream, before),
        ));
    } else {
        law_run_in_file(stream, before, i);
        assert(before.take(i) =~= runs.take(i));
        assert(all.subrange(first, first + runs[i].count) =~= runs_frames(stream, before).subrange(
            first,
            first + runs[i].count,
        ));
    }
}

/// Zeros behind the end of the stream change no frame: a frame that is read short and padded is
/// the frame of the stream with zeros appended.
pub proof fn law_zeros_behind(stream: Seq<u8>, zeros: Seq<u8>, pos: int, swapped: bool, carry: u8)
    requires
        forall|i: int| 0 <= i < zeros.len() ==> #[trigger] zeros[i] == 0,
    ensures
        frame(stream + zeros, pos, swapped, carry) == frame(stream, pos, swapped, carry),
        carry_after(stream + zeros, pos, swapped, carry) == carry_after(
            stream,
            pos,
            swapped,
            carry,
        ),
{
    assert forall|p: int| #[trigger] byte_at(stream + zeros, p) == byte_at(stream, p) by {}
    assert(frame(stream + zeros, pos, swapped, carry) =~= frame(stream, pos, swapped, carry));
}

/// The shares of the blocks lie end to end: byte `j` of the payload of block `i` stands `j` places
/// behind what the blocks before it add, if it belongs to the share of its block at all.
pub proof fn law_stream_bytes(blocks: Seq<Seq<u8>>, i: int, j: int)
    requires
        whole_blocks(blocks),
        0 <= i < blocks.len(),
        0 <= j < block_share(blocks[i]).len(),
    ensures
        block_share(blocks[i]).len() == if block_frame_count(blocks[i]) == 0 {
            continuation_len(blocks[i])
        } else {
            DSS_BLOCK_PAYLOAD_SIZE as nat
        },
        stream_of(blocks.take(i)).len() + block_share(blocks[i]).len() <= stream_of(blocks).len(),
        stream_of(blocks)[stream_of(blocks.take(i)).len() + j] == blocks[i][DSS_BLOCK_HEADER_SIZE
            + j],
    decreases blocks.len(),
{
    let before = blocks.drop_last();
    assert(blocks[i].len() == DSS_BLOCK_SIZE);
    if i < before.len() {
        assert(whole_blocks(before));
        assert(before[i] == blocks[i]);
        assert(before.take(i) =~= blocks.take(i));
        law_stream_bytes(before, i, j);
    } else {
        assert(blocks.take(i) =~= before);
    }
}

/// A block without frames declares no run, and of its payload only the bytes that continue an
/// earlier frame are taken.
pub proof fn law_empty_block(blocks: Seq<Seq<u8>>, block: Seq<u8>)
    requires
        block_frame_count(block) == 0,
    ensures
        runs_of(blocks.push(block)) == runs_of(blocks),
        stream_of(blocks.push(block)) == stream_of(blocks) + block_payload(block).take(
            continuation_len(block) as int,
        ),
{
    assert(blocks.push(block).drop_last() =~= blocks);
}

/// A block without frames completes no run but those already pending.
pub proof fn law_empty_block_pushed(state: DemuxState, block: Seq<u8>)
    requires
        block_frame_count(block) == 0,
        state.pending.len() == 0,
    ensures
        state.accept_block(block) == (
            DemuxState {
                stream: state.stream + block_payload(block).take(continuation_len(block) as int),
                ..state
            },
            Seq::<Seq<u8>>::empty(),
        ),
{
}

} // verus!
