//! DSS block-aware demultiplexers with byte-swapped frame extraction.
//!
//! The container describes itself: each block gives the place of its first frame in the stream
//! of payloads and how that frame is stored. [`demux_dss`] starts afresh from what each block
//! declares, place and parity alike, so that a walk that lost its place finds it again with the next block.
//! [`DssSpStreamDemuxer`] does so for a file that arrives in pieces, and gives bytes up once no
//! frame needs them. Of a block in which no frame begins, only the bytes that continue an earlier
//! frame are taken.
use crate::demux::frames::{
    carry_after, contents, frame, frame_len, lemma_contents_push, lemma_frame_of_chunk,
    lemma_frame_past_end, lemma_nth_next, lemma_nth_order, nth_carry, nth_start, nth_swapped,
    pack_frame, run_carry, run_end, run_frames, runs_carry, runs_frames, DSS_SP_FRAME_SIZE,
    DSS_SP_SWAPPED_SIZE,
};
use crate::demux::layout::{
    block_frame_count, block_share, block_swapped, continuation_len, file_blocks, file_header_len, frame_total, is_dss, lemma_blocks_step,
    lemma_blocks_whole, runs_of, stream_of, whole_blocks, Run, DSS_BLOCK_HEADER_SIZE,
    DSS_BLOCK_PAYLOAD_SIZE, DSS_BLOCK_SIZE,
};
use crate::demux::state::{lemma_accept_block_keeps, lemma_partial_unread, rebase, DemuxState};
use crate::error::DecodeError;
use std::collections::VecDeque;
use vstd::prelude::*;

verus! {

/// The frames of a whole file: each block's run, read where the block declares it.
pub open spec fn file_frames(data: Seq<u8>) -> Seq<Seq<u8>> {
    let blocks = file_blocks(data);
    runs_frames(stream_of(blocks), runs_of(blocks))
}

/// A run as the demultiplexers hold it.
#[derive(Clone, Copy)]
struct RunInfo {
    start: usize,
    count: usize,
    swapped: bool,
}

impl View for RunInfo {
    type V = Run;

    closed spec fn view(&self) -> Run {
        Run { start: self.start as int, count: self.count as nat, swapped: self.swapped }
    }
}

/// What a block declares.
struct BlockInfo {
    frame_count: usize,
    swapped: bool,
    cont_size: usize,
}

impl BlockInfo {
    /// Whether this is what `block` declares.
    spec fn describes(self, block: Seq<u8>) -> bool {
        &&& self.frame_count == block_frame_count(block)
        &&& self.swapped == block_swapped(block)
        &&& self.cont_size == continuation_len(block)
        &&& self.frame_count <= 255
        &&& self.cont_size <= DSS_BLOCK_PAYLOAD_SIZE
    }
}

/// Reads the header of `block`.
fn read_block_info(block: &[u8]) -> (info: BlockInfo)
    requires
        block@.len() == DSS_BLOCK_SIZE,
    ensures
        info.describes(block@),
{
    let byte0: u8 = block[0];
    let byte1: usize = block[1] as usize;
    let frame_count: usize = block[2] as usize;
    let blk_swap: usize = ((byte0 >> 7) & 1) as usize;
    assert((byte0 >> 7) & 1 == if byte0 >= 0x80 {
        1u8
    } else {
        0u8
    }) by (bit_vector);
    let cont_size: usize = (2 * byte1 + 2 * blk_swap).saturating_sub(DSS_BLOCK_HEADER_SIZE);
    BlockInfo { frame_count, swapped: blk_swap != 0, cont_size }
}

/// Appends what `block` adds to the stream.
fn append_share(stream: &mut Vec<u8>, block: &[u8], info: &BlockInfo)
    requires
        block@.len() == DSS_BLOCK_SIZE,
        info.describes(block@),
    ensures
        final(stream)@ == old(stream)@ + block_share(block@),
{
    let end: usize = if info.frame_count == 0 {
        DSS_BLOCK_HEADER_SIZE + info.cont_size
    } else {
        DSS_BLOCK_SIZE
    };
    stream.extend_from_slice(vstd::slice::slice_subrange(block, DSS_BLOCK_HEADER_SIZE, end));
    assert(stream@ =~= old(stream)@ + block_share(block@));
}

/// Appends the frames of `run` to `frames`; returns the byte that the run carries on.
fn read_run(stream: &[u8], run: RunInfo, carry: u8, frames: &mut Vec<Vec<u8>>) -> (next: u8)
    requires
        run@.start + 42 * run@.count <= usize::MAX,
    ensures
        contents(final(frames)@) == contents(old(frames)@) + run_frames(stream@, run@, carry),
        next == run_carry(stream@, run@, carry),
{
    let ghost before = contents(frames@);
    let mut spos: usize = run.start;
    let mut swapped: bool = run.swapped;
    let mut swap_byte: u8 = carry;
    let mut k: usize = 0;
    proof {
        lemma_nth_next(run@, 0);
        assert(contents(frames@) =~= before + run_frames(stream@, run@, carry).take(0));
    }
    while k < run.count
        invariant
            k <= run@.count,
            run@.count == run.count,
            run@.start + 42 * run@.count <= usize::MAX,
            spos == nth_start(run@, k as int),
            swapped == nth_swapped(run@, k as int),
            swap_byte == nth_carry(stream@, run@, carry, k as nat),
            contents(frames@) == before + run_frames(stream@, run@, carry).take(k as int),
        decreases run.count - k,
    {
        proof {
            lemma_nth_next(run@, k as int);
            lemma_nth_next(run@, k + 1);
            lemma_frame_of_chunk(stream@, spos as int, swapped, swap_byte);
        }
        let read_size: usize = if swapped {
            DSS_SP_SWAPPED_SIZE
        } else {
            DSS_SP_FRAME_SIZE
        };
        let end: usize = if spos + read_size <= stream.len() {
            spos + read_size
        } else {
            stream.len()
        };
        let begin: usize = if spos <= end {
            spos
        } else {
            end
        };
        let packed: (Vec<u8>, u8) = pack_frame(
            vstd::slice::slice_subrange(stream, begin, end),
            swapped,
            swap_byte,
        );
        proof {
            let all = run_frames(stream@, run@, carry);
            lemma_contents_push(frames@, packed.0);
            assert(packed.0@ == all[k as int]);
            assert(before + all.take(k + 1) =~= (before + all.take(k as int)).push(all[k as int]));
        }
        frames.push(packed.0);
        swap_byte = packed.1;
        spos = spos + read_size;
        swapped = !swapped;
        k += 1;
    }
    proof {
        let all = run_frames(stream@, run@, carry);
        assert(all.take(k as int) =~= all);
    }
    swap_byte
}

/// Extracts all frames of a DSS file; returns them and how many there are.
///
/// Each block's frames are read where the block declares them, whatever the blocks before it
/// declared. Bytes that a frame lacks at the end of the stream are zero.
pub fn demux_dss(data: &[u8]) -> (result: Result<(Vec<Vec<u8>>, usize), DecodeError>)
    requires
        is_dss(data@) ==> data@.len() >= file_header_len(data@[0]),
    ensures
        result is Ok <==> {
            &&& data@.len() >= 4
            &&& data@[0] == 2 || data@[0] == 3
            &&& data@[1] == 0x64 && data@[2] == 0x73 && data@[3] == 0x73
        },
        match result {
            Ok((frames, total)) => {
                &&& is_dss(data@)
                &&& contents(frames@) == file_frames(data@)
                &&& total == frame_total(runs_of(file_blocks(data@)))
                &&& total == frames@.len()
            },
            Err(DecodeError::NotDss(name)) => !is_dss(data@) && name@ == "<bytes>"@,
            Err(_) => false,
        },
{
    if data.len() < 4 || data[1] != 0x64 || data[2] != 0x73 || data[3] != 0x73 || (data[0] != 2
        && data[0] != 3) {
        return Err(DecodeError::NotDss("<bytes>".to_string()));
    }
    assert(is_dss(data@)) by {
        assert(data@.subrange(1, 4) =~= seq![0x64u8, 0x73u8, 0x73u8]);
    }
    let header_size: usize = data[0] as usize * DSS_BLOCK_SIZE;
    let num_blocks: usize = (data.len() - header_size) / DSS_BLOCK_SIZE;
    let ghost blocks = file_blocks(data@);
    proof {
        lemma_blocks_whole(data@.skip(header_size as int));
        assert(blocks.take(0) =~= Seq::empty());
    }
    let mut stream: Vec<u8> = Vec::new();
    let mut runs: Vec<RunInfo> = Vec::new();
    let mut total_frames: usize = 0;
    let mut bstart: usize = header_size;
    let mut bi: usize = 0;
    assert(run_views(runs@) =~= Seq::empty());
    while bi < num_blocks
        invariant
            bi <= num_blocks,
            blocks == file_blocks(data@),
            blocks.len() == num_blocks,
            whole_blocks(blocks),
            header_size == file_header_len(data@[0]),
            header_size + 512 * num_blocks <= data@.len() <= usize::MAX,
            bstart == header_size + 512 * bi,
            stream@ == stream_of(blocks.take(bi as int)),
            stream@.len() <= 506 * bi,
            run_views(runs@) == runs_of(blocks.take(bi as int)),
            forall|i: int| 0 <= i < runs@.len() ==> fits(#[trigger] runs@[i], stream@.len()),
            total_frames == frame_total(run_views(runs@)),
            total_frames <= 255 * bi,
        decreases num_blocks - bi,
    {
        let block: &[u8] = vstd::slice::slice_subrange(data, bstart, bstart + DSS_BLOCK_SIZE);
        proof {
            lemma_blocks_step(blocks, bi as int);
            assert(block@ =~= blocks[bi as int]);
        }
        let info: BlockInfo = read_block_info(block);
        let begin: usize = stream.len();
        append_share(&mut stream, block, &info);
        if info.frame_count > 0 {
            let run: RunInfo = RunInfo {
                start: begin + info.cont_size,
                count: info.frame_count,
                swapped: info.swapped,
            };
            proof {
                lemma_run_views_push(runs@, run);
                assert(run_views(runs@).push(run@).drop_last() =~= run_views(runs@));
            }
            runs.push(run);
            total_frames = total_frames + info.frame_count;
        }
        bstart = bstart + DSS_BLOCK_SIZE;
        bi += 1;
    }
    proof {
        assert(blocks.take(num_blocks as int) =~= blocks);
    }
    let mut frames: Vec<Vec<u8>> = Vec::with_capacity(total_frames);
    let mut swap_byte: u8 = 0;
    let ghost all_runs = run_views(runs@);
    let mut ri: usize = 0;
    proof {
        assert(all_runs.take(0) =~= Seq::empty());
        assert(contents(frames@) =~= Seq::empty());
    }
    while ri < runs.len()
        invariant
            ri <= runs@.len(),
            all_runs == run_views(runs@),
            stream@.len() + 10710 <= usize::MAX,
            forall|i: int| 0 <= i < runs@.len() ==> fits(#[trigger] runs@[i], stream@.len()),
            contents(frames@) == runs_frames(stream@, all_runs.take(ri as int)),
            frames@.len() == frame_total(all_runs.take(ri as int)),
            swap_byte == runs_carry(stream@, all_runs.take(ri as int)),
        decreases runs@.len() - ri,
    {
        proof {
            assert(fits(runs@[ri as int], stream@.len()));
            assert(all_runs.take(ri + 1).drop_last() =~= all_runs.take(ri as int));
            assert(all_runs.take(ri + 1).last() == runs@[ri as int]@);
        }
        swap_byte = read_run(stream.as_slice(), runs[ri], swap_byte, &mut frames);
        assert(frames@.len() == contents(frames@).len());
        ri += 1;
    }
    proof {
        assert(all_runs.take(ri as int) =~= all_runs);
    }
    Ok((frames, total_frames))
}

/// Demultiplexer for a DSS file that arrives in pieces.
///
/// Frames come out as soon as all frames of their block are there.
pub struct DssSpStreamDemuxer {
    header_size: usize,
    header_complete: bool,
    block_buf: Vec<u8>,
    stream_buf: Vec<u8>,
    stream_pos: usize,
    swap: bool,
    swap_byte: u8,
    /// Blocks received whose frames are still to be emitted.
    pending: VecDeque<RunInfo>,
}

impl View for DssSpStreamDemuxer {
    type V = DemuxState;

    closed spec fn view(&self) -> DemuxState {
        DemuxState {
            header_len: self.header_size as nat,
            header_complete: self.header_complete,
            partial: self.block_buf@,
            stream: self.stream_buf@,
            pending: run_views(self.pending@),
            carry: self.swap_byte,
            swapped: self.swap,
        }
    }
}

impl DssSpStreamDemuxer {
    /// What holds of the demultiplexer between two calls.
    pub open spec fn wf(&self) -> bool {
        self.at_rest() && self@.valid()
    }

    /// Whether no run is being read.
    pub closed spec fn at_rest(&self) -> bool {
        self.stream_pos == 0
    }

    /// A demultiplexer for a file of the given version.
    pub fn new(version: u8) -> (demuxer: Self)
        ensures
            demuxer.wf(),
            demuxer@ == DemuxState::initial(version),
    {
        let demuxer = DssSpStreamDemuxer {
            header_size: version as usize * DSS_BLOCK_SIZE,
            header_complete: false,
            block_buf: Vec::new(),
            stream_buf: Vec::new(),
            stream_pos: 0,
            swap: false,
            swap_byte: 0,
            pending: VecDeque::new(),
        };
        assert(demuxer@ =~= DemuxState::initial(version));
        demuxer
    }

    /// Takes the next bytes of the file in; returns the frames that they complete.
    ///
    /// The file header is passed over unread.
    pub fn push(&mut self, data: &[u8]) -> (result: Result<Vec<Vec<u8>>, DecodeError>)
        requires
            old(self).wf(),
        ensures
            final(self).wf(),
            final(self)@ == old(self)@.push(data@).0,
            result matches Ok(frames) && contents(frames@) == old(self)@.push(data@).1,
    {
        let mut frames: Vec<Vec<u8>> = Vec::new();
        let mut offset: usize = 0;
        let ghost received = old(self)@.partial + data@;
        assert(contents(frames@) =~= Seq::empty());
        if !self.header_complete {
            let needed: usize = self.header_size.saturating_sub(self.block_buf.len());
            let take: usize = if needed <= data.len() {
                needed
            } else {
                data.len()
            };
            self.block_buf.extend_from_slice(vstd::slice::slice_subrange(data, 0, take));
            offset = take;
            if self.block_buf.len() < self.header_size {
                assert(self.block_buf@ =~= received);
                return Ok(frames);
            }
            self.header_complete = true;
            self.block_buf.clear();
        }
        self.block_buf.extend_from_slice(vstd::slice::slice_subrange(data, offset, data.len()));
        let ghost bytes = self.block_buf@;
        proof {
            if old(self).header_complete {
                assert(bytes =~= received);
            } else {
                assert(bytes =~= received.skip(old(self)@.header_len as int));
            }
            lemma_partial_unread(DemuxState { header_complete: true, ..old(self)@ }, self@);
        }
        let ghost goal = self@.accept_blocks(bytes);
        assert(goal.1 =~= contents(frames@) + goal.1);
        while self.block_buf.len() >= DSS_BLOCK_SIZE
            invariant
                self.stream_pos == 0,
                self@.runs_placed(),
                self.header_complete,
                goal.0 == self@.accept_blocks(self.block_buf@).0,
                goal.1 == contents(frames@) + self@.accept_blocks(self.block_buf@).1,
            decreases self.block_buf@.len(),
        {
            let ghost before = self@;
            let mut block: Vec<u8> = self.block_buf.split_off(DSS_BLOCK_SIZE);
            std::mem::swap(&mut block, &mut self.block_buf);
            proof {
                assert(block@ =~= before.partial.take(DSS_BLOCK_SIZE as int));
                assert(self.block_buf@ =~= before.partial.skip(DSS_BLOCK_SIZE as int));
                assert(self@ =~= (DemuxState { partial: self.block_buf@, ..before }));
                lemma_accept_block_keeps(self@, block@);
            }
            self.process_block(block.as_slice(), &mut frames);
            assert(goal.1 =~= contents(frames@) + self@.accept_blocks(self.block_buf@).1);
        }
        Ok(frames)
    }

    /// Ends the input where it may end; there are no frames left then.
    pub fn finish(&mut self) -> (result: Result<Vec<Vec<u8>>, DecodeError>)
        requires
            old(self).wf(),
        ensures
            final(self).wf(),
            *final(self) == *old(self),
            match result {
                Ok(frames) => {
                    &&& old(self)@.at_end()
                    &&& old(self)@.partial.len() == 0
                    &&& !old(self)@.header_complete || old(self)@.pending.len() == 0
                    &&& frames@.len() == 0
                },
                Err(DecodeError::Truncated(part)) => {
                    &&& !old(self)@.at_end()
                    &&& part@ == old(self)@.missing_part()
                    &&& if !old(self)@.header_complete {
                        old(self)@.partial.len() > 0 && part@ == "DSS header"@
                    } else if old(self)@.partial.len() > 0 {
                        part@ == "DSS block"@
                    } else {
                        old(self)@.pending.len() > 0 && part@ == "DSS SP frame"@
                    }
                },
                Err(_) => false,
            },
    {
        if !self.header_complete {
            if self.block_buf.is_empty() {
                return Ok(Vec::new());
            }
            return Err(DecodeError::Truncated("DSS header".to_string()));
        }
        if !self.block_buf.is_empty() {
            return Err(DecodeError::Truncated("DSS block".to_string()));
        }
        if self.pending.len() > 0 {
            return Err(DecodeError::Truncated("DSS SP frame".to_string()));
        }
        Ok(Vec::new())
    }

    /// Ends the input wherever it stands behind the file header; returns the frames left.
    ///
    /// An incomplete block is given up. Bytes that a frame lacks are zero.
    pub fn finish_lenient(&mut self) -> (result: Result<Vec<Vec<u8>>, DecodeError>)
        requires
            old(self).wf(),
        ensures
            final(self).wf(),
            old(self)@.header_complete ==> final(self)@ == old(self)@.flush().0,
            !old(self)@.header_complete ==> *final(self) == *old(self),
            match result {
                Ok(frames) => {
                    &&& old(self)@.header_complete || old(self)@.partial.len() == 0
                    &&& contents(frames@) == if old(self)@.header_complete {
                        old(self)@.flush().1
                    } else {
                        Seq::empty()
                    }
                },
                Err(DecodeError::Truncated(part)) => {
                    &&& !old(self)@.header_complete && old(self)@.partial.len() > 0
                    &&& part@ == "DSS header"@
                },
                Err(_) => false,
            },
    {
        let mut frames: Vec<Vec<u8>> = Vec::new();
        assert(contents(frames@) =~= Seq::empty());
        if !self.header_complete {
            if self.block_buf.is_empty() {
                return Ok(frames);
            }
            return Err(DecodeError::Truncated("DSS header".to_string()));
        }
        self.block_buf.clear();
        assert(self@ =~= (DemuxState { partial: Seq::empty(), ..old(self)@ }));
        let ghost goal = self@.emit_all();
        assert(goal.1 =~= contents(frames@) + self@.emit_all().1);
        while self.pending.len() > 0
            invariant
                self.stream_pos == 0,
                self@.valid(),
                goal.0 == self@.emit_all().0,
                goal.1 == contents(frames@) + self@.emit_all().1,
            decreases self.pending@.len(),
        {
            let ghost before = self@;
            let ghost emitted = contents(frames@);
            let run: RunInfo = self.pending[0];
            let _ = self.pending.pop_front();
            self.stream_pos = run.start;
            self.swap = run.swapped;
            let ghost placed = *self;
            let ghost all = run_frames(before.stream, run@, before.carry);
            proof {
                assert(run@ == before.pending[0]);
                lemma_nth_next(run@, 0);
                assert(contents(frames@) =~= emitted + all.take(0));
            }
            let mut k: usize = 0;
            while k < run.count
                invariant
                    k <= run.count,
                    run@.count == run.count,
                    self.same_but_position(placed),
                    before.stream == placed.stream_buf@,
                    all == run_frames(before.stream, run@, before.carry),
                    self.stream_pos == if nth_start(run@, k as int) <= before.stream.len() {
                        nth_start(run@, k as int)
                    } else {
                        before.stream.len() as int
                    },
                    self.swap == nth_swapped(run@, k as int),
                    self.swap_byte == nth_carry(before.stream, run@, before.carry, k as nat),
                    contents(frames@) == emitted + all.take(k as int),
                decreases run.count - k,
            {
                proof {
                    lemma_nth_next(run@, k as int);
                    if nth_start(run@, k as int) > before.stream.len() {
                        lemma_frame_past_end(
                            before.stream,
                            nth_start(run@, k as int),
                            before.stream.len() as int,
                            self.swap,
                            self.swap_byte,
                        );
                    }
                }
                let read_size: usize = if self.swap {
                    DSS_SP_SWAPPED_SIZE
                } else {
                    DSS_SP_FRAME_SIZE
                };
                let pkt: Vec<u8> = self.extract_packet_padded(read_size);
                proof {
                    lemma_contents_push(frames@, pkt);
                    assert(pkt@ == all[k as int]);
                    assert(emitted + all.take(k + 1) =~= (emitted + all.take(k as int)).push(
                        all[k as int],
                    ));
                }
                frames.push(pkt);
                k += 1;
            }
            assert(all.take(k as int) =~= all);
            assert(run_views(self.pending@) =~= before.pending.skip(1));
            self.keep_pending_bytes();
            self.compact_stream();
            proof {
                lemma_moved_back(before.pending.skip(1), before.given_up());
                assert(self@ =~= before.after_front());
            }
            assert(goal.1 =~= contents(frames@) + self@.emit_all().1);
        }
        assert(goal.1 =~= contents(frames@));
        Ok(frames)
    }

    /// Takes one block in and emits the frames that it completes.
    fn process_block(&mut self, block: &[u8], frames: &mut Vec<Vec<u8>>)
        requires
            block@.len() == DSS_BLOCK_SIZE,
            old(self).stream_pos == 0,
            old(self)@.runs_placed(),
        ensures
            final(self).stream_pos == 0,
            final(self)@.runs_placed(),
            final(self)@ == old(self)@.accept_block(block@).0,
            contents(final(frames)@) == contents(old(frames)@) + old(self)@.accept_block(block@).1,
    {
        let info: BlockInfo = read_block_info(block);
        let begin: usize = self.stream_buf.len();
        append_share(&mut self.stream_buf, block, &info);
        assert(self.stream_buf@.len() == self.stream_buf.len());
        if info.frame_count > 0 {
            let run: RunInfo = RunInfo {
                start: begin + info.cont_size,
                count: info.frame_count,
                swapped: info.swapped,
            };
            proof {
                lemma_run_views_push(self.pending@, run);
            }
            self.pending.push_back(run);
        }
        assert(self@ =~= old(self)@.with_block(block@));
        self.emit_available_frames(frames);
    }

    /// Emits the pending runs, as long as all bytes of the first one are there.
    fn emit_available_frames(&mut self, frames: &mut Vec<Vec<u8>>)
        requires
            old(self).stream_pos == 0,
            old(self)@.runs_placed(),
        ensures
            final(self).stream_pos == 0,
            final(self)@.runs_placed(),
            final(self)@ == old(self)@.emit_ready().0,
            contents(final(frames)@) == contents(old(frames)@) + old(self)@.emit_ready().1,
    {
        let ghost goal = old(self)@.emit_ready();
        let ghost goal_frames = contents(old(frames)@) + goal.1;
        while self.front_is_ready()
            invariant
                self.stream_pos == 0,
                self@.runs_placed(),
                goal.0 == self@.emit_ready().0,
                goal_frames == contents(frames@) + self@.emit_ready().1,
            decreases self.pending@.len(),
        {
            let ghost before = self@;
            let ghost emitted = contents(frames@);
            let run: RunInfo = self.pending[0];
            self.stream_pos = run.start;
            self.swap = run.swapped;
            let ghost placed = *self;
            let ghost all = run_frames(before.stream, run@, before.carry);
            proof {
                assert(run@ == before.pending[0]);
                lemma_nth_next(run@, 0);
                assert(contents(frames@) =~= emitted + all.take(0));
            }
            let mut k: usize = 0;
            while k < run.count
                invariant
                    k <= run.count,
                    run@.count == run.count,
                    run_end(run@) <= before.stream.len(),
                    self.same_but_position(placed),
                    before.stream == placed.stream_buf@,
                    all == run_frames(before.stream, run@, before.carry),
                    self.stream_pos == nth_start(run@, k as int),
                    self.swap == nth_swapped(run@, k as int),
                    self.swap_byte == nth_carry(before.stream, run@, before.carry, k as nat),
                    contents(frames@) == emitted + all.take(k as int),
                decreases run.count - k,
            {
                proof {
                    lemma_nth_next(run@, k as int);
                    lemma_nth_order(run@, k + 1, run.count as int);
                }
                let read_size: usize = if self.swap {
                    DSS_SP_SWAPPED_SIZE
                } else {
                    DSS_SP_FRAME_SIZE
                };
                let pkt: Vec<u8> = self.extract_packet(read_size);
                proof {
                    lemma_contents_push(frames@, pkt);
                    assert(pkt@ == all[k as int]);
                    assert(emitted + all.take(k + 1) =~= (emitted + all.take(k as int)).push(
                        all[k as int],
                    ));
                }
                frames.push(pkt);
                k += 1;
            }
            assert(all.take(k as int) =~= all);
            let _ = self.pending.pop_front();
            assert(run_views(self.pending@) =~= before.pending.skip(1));
            self.keep_pending_bytes();
            self.compact_stream();
            proof {
                lemma_moved_back(before.pending.skip(1), before.given_up());
                assert(self@ =~= before.after_front());
            }
            assert(goal_frames =~= contents(frames@) + self@.emit_ready().1);
        }
        assert(goal_frames =~= contents(frames@));
    }

    /// Whether the stream holds all bytes of the first pending run.
    fn front_is_ready(&self) -> (ready: bool)
        requires
            self@.runs_placed(),
        ensures
            ready == self@.front_ready(),
    {
        if self.pending.len() == 0 {
            return false;
        }
        let run: RunInfo = self.pending[0];
        assert(run@ == self@.pending[0]);
        let mut needed: usize = 0;
        let mut swapped: bool = run.swapped;
        let mut k: usize = 0;
        proof {
            lemma_nth_next(run@, 0);
        }
        while k < run.count
            invariant
                k <= run.count <= 255,
                needed == nth_start(run@, k as int) - run@.start,
                swapped == nth_swapped(run@, k as int),
            decreases run.count - k,
        {
            proof {
                lemma_nth_next(run@, k as int);
            }
            needed = needed + if swapped {
                DSS_SP_SWAPPED_SIZE
            } else {
                DSS_SP_FRAME_SIZE
            };
            swapped = !swapped;
            k += 1;
        }
        needed <= self.stream_buf.len() - run.start
    }

    /// Reads the frame at `stream_pos`, all of whose stored bytes are there.
    fn extract_packet(&mut self, read_size: usize) -> (pkt: Vec<u8>)
        requires
            read_size == frame_len(old(self).swap),
            old(self).stream_pos + read_size <= old(self).stream_buf@.len(),
        ensures
            pkt@ == frame(
                old(self).stream_buf@,
                old(self).stream_pos as int,
                old(self).swap,
                old(self).swap_byte,
            ),
            final(self).stream_pos == old(self).stream_pos + read_size,
            final(self).same_but_position(*old(self)),
            final(self).swap == !old(self).swap,
            final(self).swap_byte == carry_after(
                old(self).stream_buf@,
                old(self).stream_pos as int,
                old(self).swap,
                old(self).swap_byte,
            ),
    {
        proof {
            lemma_frame_of_chunk(
                self.stream_buf@,
                self.stream_pos as int,
                self.swap,
                self.swap_byte,
            );
        }
        assert(self.stream_buf@.len() == self.stream_buf.len());
        let end: usize = self.stream_pos + read_size;
        let chunk: Vec<u8> = vstd::slice::slice_to_vec(
            vstd::slice::slice_subrange(self.stream_buf.as_slice(), self.stream_pos, end),
        );
        let pkt: Vec<u8> = self.fill_packet(chunk);
        self.stream_pos = end;
        pkt
    }

    /// Reads the frame at `stream_pos`, with zeros for the stored bytes that are not there.
    fn extract_packet_padded(&mut self, read_size: usize) -> (pkt: Vec<u8>)
        requires
            read_size == frame_len(old(self).swap),
            old(self).stream_pos <= old(self).stream_buf@.len(),
        ensures
            pkt@ == frame(
                old(self).stream_buf@,
                old(self).stream_pos as int,
                old(self).swap,
                old(self).swap_byte,
            ),
            final(self).stream_pos == if old(self).stream_pos + read_size
                <= old(self).stream_buf@.len() {
                old(self).stream_pos + read_size
            } else {
                old(self).stream_buf@.len() as int
            },
            final(self).same_but_position(*old(self)),
            final(self).swap == !old(self).swap,
            final(self).swap_byte == carry_after(
                old(self).stream_buf@,
                old(self).stream_pos as int,
                old(self).swap,
                old(self).swap_byte,
            ),
    {
        proof {
            lemma_frame_of_chunk(
                self.stream_buf@,
                self.stream_pos as int,
                self.swap,
                self.swap_byte,
            );
        }
        let available: usize = self.available_stream();
        let take: usize = if read_size <= available {
            read_size
        } else {
            available
        };
        assert(self.stream_buf@.len() == self.stream_buf.len());
        let end: usize = self.stream_pos + take;
        let chunk: Vec<u8> = vstd::slice::slice_to_vec(
            vstd::slice::slice_subrange(self.stream_buf.as_slice(), self.stream_pos, end),
        );
        let pkt: Vec<u8> = self.fill_packet(chunk);
        self.stream_pos = end;
        pkt
    }

    /// Puts a frame together from its stored bytes and makes ready for the next one.
    fn fill_packet(&mut self, chunk: Vec<u8>) -> (pkt: Vec<u8>)
        requires
            chunk@.len() <= frame_len(old(self).swap),
        ensures
            pkt@ == frame(chunk@, 0, old(self).swap, old(self).swap_byte),
            final(self).stream_pos == old(self).stream_pos,
            final(self).same_but_position(*old(self)),
            final(self).swap == !old(self).swap,
            final(self).swap_byte == carry_after(chunk@, 0, old(self).swap, old(self).swap_byte),
    {
        let packed: (Vec<u8>, u8) = pack_frame(chunk.as_slice(), self.swap, self.swap_byte);
        self.swap_byte = packed.1;
        self.swap = !self.swap;
        packed.0
    }

    /// How many bytes of the stream are left at `stream_pos`.
    fn available_stream(&self) -> (n: usize)
        ensures
            n == if self.stream_pos <= self.stream_buf@.len() {
                self.stream_buf@.len() - self.stream_pos
            } else {
                0
            },
    {
        self.stream_buf.len().saturating_sub(self.stream_pos)
    }

    /// Whether `self` and `other` differ at most in where and how they read the stream.
    spec fn same_but_position(self, other: DssSpStreamDemuxer) -> bool {
        &&& self.header_size == other.header_size
        &&& self.header_complete == other.header_complete
        &&& self.block_buf == other.block_buf
        &&& self.stream_buf == other.stream_buf
        &&& self.pending == other.pending
    }

    /// Moves `stream_pos` back to the first byte that a pending run needs, if it is behind it.
    fn keep_pending_bytes(&mut self)
        ensures
            final(self)@ == old(self)@,
            final(self).stream_pos == if old(self)@.pending.len() > 0
                && old(self)@.pending[0].start < old(self).stream_pos {
                old(self)@.pending[0].start
            } else {
                old(self).stream_pos as int
            },
    {
        if self.pending.len() > 0 {
            let run: RunInfo = self.pending[0];
            assert(run@ == self@.pending[0]);
            if run.start < self.stream_pos {
                self.stream_pos = run.start;
            }
        }
    }

    /// Gives up the bytes of the stream before `stream_pos`.
    fn compact_stream(&mut self)
        ensures
            final(self).stream_pos == 0,
            ({
                let consumed = if old(self).stream_pos <= old(self)@.stream.len() {
                    old(self).stream_pos as int
                } else {
                    old(self)@.stream.len() as int
                };
                final(self)@ == (DemuxState {
                    stream: old(self)@.stream.skip(consumed),
                    pending: moved_back(old(self)@.pending, consumed),
                    ..old(self)@
                })
            }),
    {
        let consumed: usize = if self.stream_pos <= self.stream_buf.len() {
            self.stream_pos
        } else {
            self.stream_buf.len()
        };
        let rest: Vec<u8> = self.stream_buf.split_off(consumed);
        self.stream_buf = rest;
        self.stream_pos = 0;
        let ghost runs = self.pending@;
        let count: usize = self.pending.len();
        let mut i: usize = 0;
        while i < count
            invariant
                i <= count,
                count == runs.len(),
                self.pending@.len() == count,
                forall|j: int| 0 <= j < count - i ==> #[trigger] self.pending@[j] == runs[i + j],
                forall|j: int|
                    count - i <= j < count ==> (#[trigger] self.pending@[j])@ == moved_back(
                        run_views(runs),
                        consumed as int,
                    )[j - (count - i)],
                self.stream_pos == 0,
                self.header_size == old(self).header_size,
                self.header_complete == old(self).header_complete,
                self.block_buf == old(self).block_buf,
                self.stream_buf == rest,
                self.swap == old(self).swap,
                self.swap_byte == old(self).swap_byte,
            decreases count - i,
        {
            if let Some(run) = self.pending.pop_front() {
                self.pending.push_back(
                    RunInfo {
                        start: run.start.saturating_sub(consumed),
                        count: run.count,
                        swapped: run.swapped,
                    },
                );
            }
            i += 1;
        }
        proof {
            assert(rest@ =~= old(self)@.stream.skip(consumed as int));
            assert(self@.pending =~= moved_back(old(self)@.pending, consumed as int));
        }
    }
}

/// `runs` once the first `by` bytes of the stream are gone; a run that began among them begins
/// with the first byte left.
spec fn moved_back(runs: Seq<Run>, by: int) -> Seq<Run> {
    Seq::new(
        runs.len(),
        |i: int|
            Run {
                start: if runs[i].start >= by {
                    runs[i].start - by
                } else {
                    0
                },
                ..runs[i]
            },
    )
}

/// Where no run begins among the bytes that are gone, all move back by as much.
proof fn lemma_moved_back(runs: Seq<Run>, by: int)
    requires
        forall|i: int| 0 <= i < runs.len() ==> by <= (#[trigger] runs[i]).start,
    ensures
        moved_back(runs, by) == rebase(runs, by),
{
    assert(moved_back(runs, by) =~= rebase(runs, by));
}

/// Whether `run` begins inside a stream of length `len`.
spec fn fits(run: RunInfo, len: nat) -> bool {
    run.start <= len && run.count <= 255
}

/// The runs that `runs` stand for.
spec fn run_views(runs: Seq<RunInfo>) -> Seq<Run> {
    Seq::new(runs.len(), |i: int| runs[i]@)
}

proof fn lemma_run_views_push(runs: Seq<RunInfo>, last: RunInfo)
    ensures
        run_views(runs.push(last)) == run_views(runs).push(last@),
{
    assert(run_views(runs.push(last)) =~= run_views(runs).push(last@));
}

} // verus!
