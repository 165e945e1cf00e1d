//! The state of a demultiplexer that is fed a file in pieces, and how it advances.
use crate::demux::frames::{nth_swapped, run_carry, run_end, run_frames};
use crate::demux::layout::{
    block_frame_count, block_run, block_share, file_header_len, Run, DSS_BLOCK_SIZE,
};
use vstd::prelude::*;

verus! {

/// `runs` as seen once the first `by` bytes of the stream are gone.
pub open spec fn rebase(runs: Seq<Run>, by: int) -> Seq<Run> {
    Seq::new(runs.len(), |i: int| Run { start: runs[i].start - by, ..runs[i] })
}

/// What a demultiplexer holds between two calls.
#[verifier::ext_equal]
pub struct DemuxState {
    /// Size of the file header.
    pub header_len: nat,
    /// Whether the whole file header has been received.
    pub header_complete: bool,
    /// What has been received of an incomplete header or block.
    pub partial: Seq<u8>,
    /// The payload bytes received and not given up yet.
    pub stream: Seq<u8>,
    /// The runs received and not emitted yet, placed in `stream`.
    pub pending: Seq<Run>,
    /// The byte carried on behind the last frame emitted.
    pub carry: u8,
    /// How a frame behind the last one emitted would be stored.
    pub swapped: bool,
}

impl DemuxState {
    /// Nothing received.
    pub open spec fn initial(version: u8) -> DemuxState {
        DemuxState {
            header_len: file_header_len(version),
            header_complete: false,
            partial: Seq::empty(),
            stream: Seq::empty(),
            pending: Seq::empty(),
            carry: 0,
            swapped: false,
        }
    }

    /// What holds in every state that a demultiplexer reaches.
    pub open spec fn valid(self) -> bool {
        &&& self.header_complete ==> self.partial.len() < DSS_BLOCK_SIZE
        &&& !self.header_complete ==> self.partial.len() <= self.header_len
        &&& self.runs_placed()
    }

    /// Every pending run has frames and begins in the stream or right behind it, none before the
    /// one ahead of it begins.
    pub open spec fn runs_placed(self) -> bool {
        &&& forall|i: int|
            0 <= i < self.pending.len() ==> {
                &&& 0 <= (#[trigger] self.pending[i]).start <= self.stream.len()
                &&& 0 < self.pending[i].count <= 255
            }
        &&& forall|i: int, j: int|
            0 <= i <= j < self.pending.len() ==> (#[trigger] self.pending[i]).start <= (
            #[trigger] self.pending[j]).start
    }

    /// The frames of the first pending run.
    pub open spec fn front_frames(self) -> Seq<Seq<u8>> {
        run_frames(self.stream, self.pending[0], self.carry)
    }

    /// Where reading the first pending run ends.
    pub open spec fn front_end(self) -> int {
        if run_end(self.pending[0]) <= self.stream.len() {
            run_end(self.pending[0])
        } else {
            self.stream.len() as int
        }
    }

    /// How many bytes of the stream are given up once the first pending run is emitted: those
    /// before its end that no run still pending needs.
    pub open spec fn given_up(self) -> int {
        if self.pending.len() > 1 && self.pending[1].start < self.front_end() {
            self.pending[1].start
        } else {
            self.front_end()
        }
    }

    /// The state once the first pending run is emitted.
    pub open spec fn after_front(self) -> DemuxState {
        DemuxState {
            stream: self.stream.skip(self.given_up()),
            pending: rebase(self.pending.skip(1), self.given_up()),
            carry: run_carry(self.stream, self.pending[0], self.carry),
            swapped: nth_swapped(self.pending[0], self.pending[0].count as int),
            ..self
        }
    }

    /// Whether the stream holds all bytes of the first pending run.
    pub open spec fn front_ready(self) -> bool {
        self.pending.len() > 0 && run_end(self.pending[0]) <= self.stream.len()
    }

    /// Emits runs as long as the first one pending is complete.
    pub open spec fn emit_ready(self) -> (DemuxState, Seq<Seq<u8>>)
        decreases self.pending.len(),
    {
        if self.front_ready() {
            let (state, frames) = self.after_front().emit_ready();
            (state, self.front_frames() + frames)
        } else {
            (self, Seq::empty())
        }
    }

    /// Emits all pending runs, with zeros where the stream is short.
    pub open spec fn emit_all(self) -> (DemuxState, Seq<Seq<u8>>)
        decreases self.pending.len(),
    {
        if self.pending.len() > 0 {
            let (state, frames) = self.after_front().emit_all();
            (state, self.front_frames() + frames)
        } else {
            (self, Seq::empty())
        }
    }

    /// The state with the share of `block` in the stream and its run pending.
    pub open spec fn with_block(self, block: Seq<u8>) -> DemuxState {
        DemuxState {
            stream: self.stream + block_share(block),
            pending: if block_frame_count(block) == 0 {
                self.pending
            } else {
                self.pending.push(block_run(block, self.stream.len() as int))
            },
            ..self
        }
    }

    /// Takes one block in and emits what it completes.
    pub open spec fn accept_block(self, block: Seq<u8>) -> (DemuxState, Seq<Seq<u8>>) {
        self.with_block(block).emit_ready()
    }

    /// Takes the whole blocks of `bytes` in, one after the other, and keeps the rest.
    pub open spec fn accept_blocks(self, bytes: Seq<u8>) -> (DemuxState, Seq<Seq<u8>>)
        decreases bytes.len(),
    {
        if bytes.len() < DSS_BLOCK_SIZE {
            (DemuxState { partial: bytes, ..self }, Seq::empty())
        } else {
            let rest = bytes.skip(DSS_BLOCK_SIZE as int);
            let (state, frames) = DemuxState { partial: rest, ..self }.accept_block(
                bytes.take(DSS_BLOCK_SIZE as int),
            );
            let (last_state, more) = state.accept_blocks(rest);
            (last_state, frames + more)
        }
    }

    /// Takes `data` in: first the file header, which is dropped, then blocks.
    pub open spec fn push(self, data: Seq<u8>) -> (DemuxState, Seq<Seq<u8>>) {
        let received = self.partial + data;
        if self.header_complete {
            self.accept_blocks(received)
        } else if received.len() < self.header_len {
            (DemuxState { partial: received, ..self }, Seq::empty())
        } else {
            DemuxState { header_complete: true, ..self }.accept_blocks(
                received.skip(self.header_len as int),
            )
        }
    }

    /// Whether the input may end here: nothing is incomplete and nothing pending.
    pub open spec fn at_end(self) -> bool {
        self.partial.len() == 0 && (self.header_complete ==> self.pending.len() == 0)
    }

    /// The part that is incomplete where the input may not end.
    pub open spec fn missing_part(self) -> Seq<char> {
        if !self.header_complete {
            "DSS header"@
        } else if self.partial.len() > 0 {
            "DSS block"@
        } else {
            "DSS SP frame"@
        }
    }

    /// Gives an incomplete block up and emits all pending runs.
    pub open spec fn flush(self) -> (DemuxState, Seq<Seq<u8>>) {
        DemuxState { partial: Seq::empty(), ..self }.emit_all()
    }
}

/// What is taken in does not depend on what an incomplete part held before.
pub proof fn lemma_partial_unread(state: DemuxState, other: DemuxState)
    requires
        other == (DemuxState { partial: other.partial, ..state }),
    ensures
        forall|bytes: Seq<u8>| #[trigger]
            other.accept_blocks(bytes) == state.accept_blocks(bytes),
{
}

/// Emitting runs touches neither the header nor an incomplete part.
pub proof fn lemma_emit_ready_keeps(state: DemuxState)
    ensures
        state.emit_ready().0.header_len == state.header_len,
        state.emit_ready().0.header_complete == state.header_complete,
        state.emit_ready().0.partial == state.partial,
    decreases state.pending.len(),
{
    if state.front_ready() {
        lemma_emit_ready_keeps(state.after_front());
    }
}

/// Taking a block in touches neither the header nor an incomplete part.
pub proof fn lemma_accept_block_keeps(state: DemuxState, block: Seq<u8>)
    ensures
        state.accept_block(block).0.header_len == state.header_len,
        state.accept_block(block).0.header_complete == state.header_complete,
        state.accept_block(block).0.partial == state.partial,
{
    lemma_emit_ready_keeps(state.with_block(block));
}

} // verus!
