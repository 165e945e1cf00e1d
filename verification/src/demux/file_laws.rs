//! The frames of a file, byte by byte and in numbers alone.
//!
//! The laws here speak of the bytes of a file and of the bytes of the frames that come out of it.
//! Block `i` of a file is what stands `512 * i` bytes behind the place `from` at which its header
//! ends. Its first byte tells by its top bit how its first frame is stored, its second counts
//! words of continuation, its third counts frames.
use crate::demux::dss::file_frames;
use crate::demux::frames::{
    byte_at, contents, frame_len, lemma_nth_next, nth_carry, nth_start, nth_swapped, run_carry,
    run_end, run_frames, runs_carry, runs_frames,
};
use crate::demux::laws::{
    complete_runs, law_frame_keeps_bytes, law_frame_shape, law_push_all, law_run_in_file,
    law_stream_bytes, law_stream_frames, push_all,
};
use crate::demux::layout::{
    block_frame_count, block_run, block_share, blocks_of, file_header_len, frame_total, is_dss,
    left_over, lemma_blocks_step, lemma_blocks_whole, runs_of, stream_of, Run,
};
use crate::demux::state::DemuxState;
use vstd::prelude::*;

verus! {

/// How many frames the first `i` blocks behind `from` count.
pub open spec fn frames_before(data: Seq<u8>, from: int, i: int) -> int
    decreases i,
{
    if i <= 0 {
        0
    } else {
        frames_before(data, from, i - 1) + data[from + 512 * (i - 1) + 2]
    }
}

/// How many bytes the first `i` blocks behind `from` have for frames: 506 each, or, where a block
/// counts no frames, only the bytes that it counts as continuation.
pub open spec fn stored_before(data: Seq<u8>, from: int, i: int) -> int
    decreases i,
{
    if i <= 0 {
        0
    } else {
        let at = from + 512 * (i - 1);
        let words = 2 * data[at + 1] + if data[at] >= 128 {
            2int
        } else {
            0int
        };
        stored_before(data, from, i - 1) + if data[at + 2] != 0 {
            506
        } else if words > 6 {
            words - 6
        } else {
            0
        }
    }
}

/// Whether block `x` behind `from` has no plain frame: it counts none at all, or one that is
/// swapped.
pub open spec fn no_plain_frame(data: Seq<u8>, from: int, x: int) -> bool {
    let at = from + 512 * x;
    data[at + 2] == 0 || (data[at + 2] == 1 && data[at] >= 128)
}

/// How many bytes the blocks must have for frames before the last frame that block `x` behind
/// `from` counts is there in whole.
pub open spec fn frames_end(data: Seq<u8>, from: int, x: int) -> int {
    let at = from + 512 * x;
    let words = 2 * data[at + 1] + if data[at] >= 128 {
        2int
    } else {
        0int
    };
    stored_before(data, from, x) + (if words > 6 {
        words - 6
    } else {
        0
    }) + 41 * data[at + 2] + (if data[at + 2] % 2 == 0 {
        0int
    } else if data[at] >= 128 {
        -1
    } else {
        1
    })
}

// ---- The laws of the parts, in numbers ----

/// A file is a DSS file if and only if its first byte is 2 or 3 and the next three spell `dss`;
/// its header takes 512 bytes for each unit of that first byte.
pub proof fn law_magic(data: Seq<u8>)
    ensures
        is_dss(data) <==> {
            &&& data.len() >= 4
            &&& data[0] == 2 || data[0] == 3
            &&& data[1] == 0x64
            &&& data[2] == 0x73
            &&& data[3] == 0x73
        },
        data.len() > 0 ==> file_header_len(data[0]) == 512 * data[0],
{
    if data.len() >= 4 {
        let magic = data.subrange(1, 4);
        let dss = seq![0x64u8, 0x73u8, 0x73u8];
        if data[1] == 0x64 && data[2] == 0x73 && data[3] == 0x73 {
            assert(magic =~= dss);
        }
        assert(magic[0] == data[1] && magic[1] == data[2] && magic[2] == data[3]);
        assert(dss[0] == 0x64 && dss[1] == 0x73 && dss[2] == 0x73);
    }
}

/// The run of a block begins twice its second byte, two more if its top bit is set, six less,
/// behind the place at which the block's share of the stream begins, and never before that place.
/// How many frames the block counts has no part in this.
pub proof fn law_declared_start(block: Seq<u8>, at: int)
    ensures
        block_run(block, at).start - at == if 2 * block[1] + 2 * (block[0] as int / 128) > 6 {
            2 * block[1] + 2 * (block[0] as int / 128) - 6
        } else {
            0
        },
        block_run(block, at).swapped <==> block[0] as int / 128 == 1,
        block_run(block, at).count == block[2],
{
}

/// A run ends with its last frame: it takes up 42 bytes for each plain and 40 for each swapped
/// frame that it counts, and no more. That is what a stream must hold for the run to be ready.
pub proof fn law_run_end(run: Run)
    ensures
        run.count == 0 ==> run_end(run) == run.start,
        run.count > 0 ==> run_end(run) == nth_start(run, run.count - 1) + if nth_swapped(
            run,
            run.count - 1,
        ) {
            40int
        } else {
            42int
        },
        run_end(run) == run.start + 41 * run.count + if run.count % 2 == 0 {
            0int
        } else if run.swapped {
            -1
        } else {
            1
        },
        forall|state: DemuxState|
            state.pending.len() > 0 && state.pending[0] == run ==> (#[trigger] state.front_ready()
                <==> run_end(run) <= state.stream.len()),
{
    if run.count > 0 {
        lemma_nth_next(run, run.count - 1);
    }
}

/// Each frame of a run is made of its own stored bytes, which begin where the frame before it
/// ends: a plain frame's bytes stand in their places, but for the one that is carried on; a
/// swapped frame's odd bytes stand one place earlier and its even bytes three places later.
pub proof fn law_run_frame_bytes(stream: Seq<u8>, run: Run, carry: u8, k: int, q: int)
    requires
        0 <= k < run.count,
        0 <= q,
    ensures
        ({
            let swapped = run.swapped != (k % 2 == 1);
            let place = run.start + 41 * k + if k % 2 == 0 {
                0int
            } else if run.swapped {
                -1
            } else {
                1
            };
            let stored = if 0 <= place + q < stream.len() {
                stream[place + q]
            } else {
                0
            };
            let out = run_frames(stream, run, carry)[k];
            &&& out.len() == 42
            &&& out[40] == 0
            &&& !swapped && q < 42 && q != 40 ==> out[q] == stored
            &&& swapped && q < 40 && q % 2 == 1 ==> out[q - 1] == stored
            &&& swapped && q < 40 && q % 2 == 0 ==> out[q + 3] == stored
        }),
{
    let swapped = nth_swapped(run, k);
    if q < frame_len(swapped) {
        law_frame_keeps_bytes(
            stream,
            nth_start(run, k),
            swapped,
            nth_carry(stream, run, carry, k as nat),
            q,
        );
    }
}

/// A run carries on the byte at place 40 of its last plain frame, whichever way it begins, and
/// what was carried into it if it has no plain frame.
pub proof fn law_run_carry(stream: Seq<u8>, run: Run, carry: u8, j: int)
    requires
        0 <= j < run.count,
    ensures
        ({
            let place = run.start + 41 * j + if j % 2 == 0 {
                0int
            } else if run.swapped {
                -1
            } else {
                1
            };
            let plain = run.swapped == (j % 2 == 1);
            let last = j + 2 >= run.count;
            plain && last ==> run_carry(stream, run, carry) == if 0 <= place + 40 < stream.len() {
                stream[place + 40]
            } else {
                0
            }
        }),
        run.count == 1 && run.swapped ==> run_carry(stream, run, carry) == carry,
{
    reveal_with_fuel(nth_carry, 3);
    lemma_nth_next(run, j);
}

/// The byte carried into a frame of a run stands in it only where it is stored swapped, at the
/// second place. It is the byte at place 40 of the plain frame before it.
pub proof fn law_run_carried_byte(stream: Seq<u8>, run: Run, carry: u8, k: int)
    requires
        0 <= k < run.count,
        run.swapped != (k % 2 == 1),
    ensures
        ({
            let place = run.start + 41 * (k - 1) + if k % 2 == 1 {
                0int
            } else if run.swapped {
                -1
            } else {
                1
            };
            run_frames(stream, run, carry)[k][1] == if k == 0 {
                carry
            } else if 0 <= place + 40 < stream.len() {
                stream[place + 40]
            } else {
                0
            }
        }),
{
    reveal_with_fuel(nth_carry, 2);
    if k > 0 {
        lemma_nth_next(run, k - 1);
    }
}

/// Vectors of frames hold what they are said to hold, frame by frame.
pub proof fn law_contents(frames: Seq<Vec<u8>>)
    ensures
        contents(frames).len() == frames.len(),
        forall|i: int| 0 <= i < frames.len() ==> #[trigger] contents(frames)[i] == frames[i]@,
{
}

// ---- From the blocks to the numbers ----

/// What stands in block `i` behind `from`, and which share of the stream it has.
proof fn lemma_block_bytes(data: Seq<u8>, from: int, i: int)
    requires
        0 <= from,
        0 <= i,
        from + 512 * (i + 1) <= data.len(),
    ensures
        ({
            let blocks = blocks_of(data.skip(from));
            let block = blocks[i];
            &&& i < blocks.len()
            &&& block.len() == 512
            &&& forall|t: int| 0 <= t < 512 ==> #[trigger] block[t] == data[from + 512 * i + t]
            &&& block_share(block).len() == stored_before(data, from, i + 1) - stored_before(
                data,
                from,
                i,
            )
            &&& block_frame_count(block) == frames_before(data, from, i + 1) - frames_before(
                data,
                from,
                i,
            )
        }),
{
    let block = blocks_of(data.skip(from))[i];
    lemma_blocks_whole(data.skip(from));
    assert forall|t: int| 0 <= t < 512 implies #[trigger] block[t] == data[from + 512 * i + t] by {}
    assert(block[0] == data[from + 512 * i]);
    assert(block[1] == data[from + 512 * i + 1]);
    assert(block[2] == data[from + 512 * i + 2]);
}

/// What the first `i` blocks behind `from` add up to.
proof fn lemma_sums(data: Seq<u8>, from: int, i: int)
    requires
        0 <= from,
        0 <= i,
        from + 512 * i <= data.len(),
    ensures
        ({
            let some = blocks_of(data.skip(from)).take(i);
            &&& i <= blocks_of(data.skip(from)).len()
            &&& stream_of(some).len() == stored_before(data, from, i)
            &&& frame_total(runs_of(some)) == frames_before(data, from, i)
        }),
    decreases i,
{
    let blocks = blocks_of(data.skip(from));
    if i > 0 {
        lemma_sums(data, from, i - 1);
        lemma_block_bytes(data, from, i - 1);
        lemma_blocks_step(blocks, i - 1);
        let before = runs_of(blocks.take(i - 1));
        if block_frame_count(blocks[i - 1]) > 0 {
            let run = block_run(blocks[i - 1], stream_of(blocks.take(i - 1)).len() as int);
            assert(before.push(run).drop_last() =~= before);
        }
    }
}

/// The runs of the first blocks are the first runs.
proof fn lemma_first_runs(blocks: Seq<Seq<u8>>, i: int)
    requires
        0 <= i <= blocks.len(),
    ensures
        runs_of(blocks.take(i)).len() <= runs_of(blocks).len(),
        runs_of(blocks).take(runs_of(blocks.take(i)).len() as int) == runs_of(blocks.take(i)),
    decreases blocks.len(),
{
    let runs = runs_of(blocks);
    let first = runs_of(blocks.take(i));
    if i == blocks.len() {
        assert(blocks.take(i) =~= blocks);
        assert(runs.take(runs.len() as int) =~= runs);
    } else {
        let before = blocks.drop_last();
        lemma_first_runs(before, i);
        assert(before.take(i) =~= blocks.take(i));
        assert(runs.take(first.len() as int) =~= runs_of(before).take(first.len() as int));
    }
}

/// The run of block `i` behind `from`, and where its frames stand among all.
#[verifier::spinoff_prover]
#[verifier::rlimit(60)]
proof fn lemma_run_of_block(data: Seq<u8>, from: int, i: int, k: int)
    requires
        0 <= from,
        0 <= i,
        from + 512 * (i + 1) <= data.len(),
        0 <= k < data[from + 512 * i + 2],
    ensures
        ({
            let blocks = blocks_of(data.skip(from));
            let stream = stream_of(blocks);
            let at = from + 512 * i;
            let words = 2 * data[at + 1] + if data[at] >= 128 {
                2int
            } else {
                0int
            };
            let run = runs_of(blocks)[runs_of(blocks.take(i)).len() as int];
            let carry = runs_carry(stream, runs_of(blocks.take(i)));
            let first = frames_before(data, from, i);
            let frames = runs_frames(stream, runs_of(blocks));
            &&& runs_of(blocks.take(i)).len() < runs_of(blocks).len()
            &&& run.start == stored_before(data, from, i) + if words > 6 {
                words - 6
            } else {
                0
            }
            &&& run.count == data[at + 2]
            &&& run.swapped == (data[at] >= 128)
            &&& 0 <= first
            &&& first + run.count <= frames.len()
            &&& run_frames(stream, run, carry)[k] == frames[first + k]
            &&& runs_carry(stream, runs_of(blocks.take(i + 1))) == run_carry(stream, run, carry)
        }),
{
    let blocks = blocks_of(data.skip(from));
    let stream = stream_of(blocks);
    let before = runs_of(blocks.take(i));
    let ri = before.len() as int;
    lemma_block_bytes(data, from, i);
    lemma_sums(data, from, i);
    lemma_blocks_step(blocks, i);
    lemma_first_runs(blocks, i);
    lemma_first_runs(blocks, i + 1);
    let upto = runs_of(blocks.take(i + 1));
    assert(blocks[i][0] == data[from + 512 * i + 0]);
    assert(blocks[i][1] == data[from + 512 * i + 1]);
    assert(blocks[i][2] == data[from + 512 * i + 2]);
    let run = block_run(blocks[i], stream_of(blocks.take(i)).len() as int);
    assert(upto == before.push(run));
    assert(upto.drop_last() =~= before);
    assert(runs_of(blocks).take(ri + 1)[ri] == upto[ri]);
    law_run_in_file(stream, runs_of(blocks), ri);
    let frames = runs_frames(stream, runs_of(blocks));
    let first = frames_before(data, from, i);
    let carry = runs_carry(stream, before);
    assert(frames.subrange(first, first + run.count)[k] == frames[first + k]);
}

/// The byte of the stream at `place`, if block `j` behind `from` has it as its byte `r`, and
/// otherwise if it lies behind all blocks.
#[verifier::spinoff_prover]
#[verifier::rlimit(60)]
proof fn lemma_stored_byte(data: Seq<u8>, from: int, place: int, j: int, r: int)
    requires
        0 <= from <= data.len(),
        0 <= place,
    ensures
        ({
            let stream = stream_of(blocks_of(data.skip(from)));
            let n = (data.len() - from) / 512;
            &&& stream.len() == stored_before(data, from, n)
            &&& {
                &&& 0 <= j < n
                &&& 0 <= r < stored_before(data, from, j + 1) - stored_before(data, from, j)
                &&& place == stored_before(data, from, j) + r
            } ==> place < stream.len() && stream[place] == data[from + 512 * j + 6 + r]
        }),
{
    let blocks = blocks_of(data.skip(from));
    let n = (data.len() - from) / 512;
    lemma_sums(data, from, n);
    assert(blocks.take(n) =~= blocks);
    if 0 <= j < n && 0 <= r < stored_before(data, from, j + 1) - stored_before(data, from, j) {
        lemma_block_bytes(data, from, j);
        lemma_sums(data, from, j);
        lemma_blocks_whole(data.skip(from));
        law_stream_bytes(blocks, j, r);
        assert(blocks[j][6 + r] == data[from + 512 * j + (6 + r)]);
    }
}

// ---- The laws of a whole file ----

/// A file yields as many frames as its whole blocks count, each of 42 bytes, the one at place 40
/// zero.
pub proof fn law_file_shape(data: Seq<u8>)
    requires
        data.len() >= 4,
        data.len() >= 512 * data[0],
    ensures
        file_frames(data).len() == frames_before(
            data,
            512 * data[0],
            (data.len() - 512 * data[0]) / 512,
        ),
        forall|i: int|
            0 <= i < file_frames(data).len() ==> {
                &&& (#[trigger] file_frames(data)[i]).len() == 42
                &&& file_frames(data)[i][40] == 0
            },
{
    let from = 512 * data[0] as int;
    let n = (data.len() - from) / 512;
    let blocks = blocks_of(data.skip(from));
    lemma_sums(data, from, n);
    assert(blocks.take(n) =~= blocks);
    law_frame_shape(stream_of(blocks), runs_of(blocks));
}

/// Every byte of every frame of a file, but the carried ones, in numbers.
///
/// Frame `k` of block `i` is stored behind the blocks before it, behind what the block counts as
/// continuation, and behind the `k` frames before it, of which every two take up 82 bytes. Its
/// stored byte `q` is the payload byte `r` of block `j`, if that is what stands at this place, and
/// zero behind the last block. A plain frame holds it in its place; a swapped frame holds it one
/// place earlier if `q` is odd and three places later if it is even.
#[verifier::spinoff_prover]
#[verifier::rlimit(60)]
pub proof fn law_file_frame_bytes(data: Seq<u8>, i: int, k: int, q: int, j: int, r: int)
    requires
        data.len() >= 4,
        data.len() >= 512 * data[0],
        0 <= i,
        512 * (data[0] + i + 1) <= data.len(),
        0 <= k < data[512 * (data[0] + i) + 2],
        0 <= q,
    ensures
        ({
            let from = 512 * data[0];
            let at = from + 512 * i;
            let n = (data.len() - from) / 512;
            let first = data[at] >= 128;
            let words = 2 * data[at + 1] + if first {
                2int
            } else {
                0int
            };
            let swapped = first != (k % 2 == 1);
            let place = stored_before(data, from, i) + (if words > 6 {
                words - 6
            } else {
                0
            }) + 41 * k + (if k % 2 == 0 {
                0int
            } else if first {
                -1
            } else {
                1
            }) + q;
            let here = {
                &&& 0 <= j < n
                &&& 0 <= r < stored_before(data, from, j + 1) - stored_before(data, from, j)
                &&& place == stored_before(data, from, j) + r
            };
            let behind = place >= stored_before(data, from, n);
            let byte = if behind {
                0
            } else {
                data[from + 512 * j + 6 + r]
            };
            let out = file_frames(data)[frames_before(data, from, i) + k];
            here || behind ==> {
                &&& !swapped && q < 42 && q != 40 ==> out[q] == byte
                &&& swapped && q < 40 && q % 2 == 1 ==> out[q - 1] == byte
                &&& swapped && q < 40 && q % 2 == 0 ==> out[q + 3] == byte
            }
        }),
{
    let from = 512 * data[0];
    let blocks = blocks_of(data.skip(from));
    let stream = stream_of(blocks);
    lemma_run_of_block(data, from, i, k);
    lemma_block_bytes(data, from, i);
    let run = runs_of(blocks)[runs_of(blocks.take(i)).len() as int];
    let carry = runs_carry(stream, runs_of(blocks.take(i)));
    law_run_frame_bytes(stream, run, carry, k, q);
    let place = run.start + 41 * k + (if k % 2 == 0 {
        0int
    } else if run.swapped {
        -1
    } else {
        1
    }) + q;
    lemma_sums(data, from, i);
    lemma_stored_byte(data, from, place, j, r);
    assert(run_frames(stream, run, carry)[k] == file_frames(data)[frames_before(data, from, i)
        + k]);
}

/// The frames of the first block of a file stand first, and as far as its own payload reaches they
/// are made of it.
pub proof fn law_first_block_bytes(data: Seq<u8>, k: int, q: int)
    requires
        data.len() >= 4,
        data.len() >= 512 * data[0] + 512,
        0 <= k < data[512 * data[0] + 2],
        0 <= q,
    ensures
        ({
            let from = 512 * data[0];
            let swaps = data[from] as int / 128;
            let words = 2 * data[from + 1] + 2 * swaps;
            let skipped = if words > 6 {
                words - 6
            } else {
                0
            };
            // Every two frames take up 82 bytes; the odd one out takes 42, or 40 if swapped.
            let place = skipped + 82 * (k / 2) + (k % 2) * (42 - 2 * swaps) + q;
            let swapped = (swaps + k) % 2 == 1;
            let out = file_frames(data)[k];
            place < 506 ==> {
                &&& !swapped && q < 42 && q != 40 ==> out[q] == data[from + 6 + place]
                &&& swapped && q < 40 && q % 2 == 1 ==> out[q - 1] == data[from + 6 + place]
                &&& swapped && q < 40 && q % 2 == 0 ==> out[q + 3] == data[from + 6 + place]
            }
        }),
{
    let from = 512 * data[0];
    let swaps = data[from] as int / 128;
    let words = 2 * data[from + 1] + 2 * swaps;
    let skipped = if words > 6 {
        words - 6
    } else {
        0
    };
    let place = skipped + 82 * (k / 2) + (k % 2) * (42 - 2 * swaps) + q;
    if k % 2 == 0 {
        assert((k % 2) * (42 - 2 * swaps) == 0) by (nonlinear_arith)
            requires
                k % 2 == 0,
        ;
    } else {
        assert((k % 2) * (42 - 2 * swaps) == 42 - 2 * swaps) by (nonlinear_arith)
            requires
                k % 2 == 1,
        ;
    }
    reveal_with_fuel(stored_before, 2);
    lemma_grows(data, from, 1, (data.len() - from) / 512);
    law_file_frame_bytes(data, 0, k, q, 0, place);
}

/// More blocks never have fewer bytes.
proof fn lemma_grows(data: Seq<u8>, from: int, i: int, n: int)
    requires
        0 <= i <= n,
    ensures
        stored_before(data, from, i) <= stored_before(data, from, n),
    decreases n,
{
    if i < n {
        lemma_grows(data, from, i, n - 1);
    }
}

/// What is carried past block `i` behind `from`.
proof fn lemma_carry_past_block(data: Seq<u8>, from: int, i: int, k: int)
    requires
        0 <= from,
        0 <= i,
        from + 512 * (i + 1) <= data.len(),
    ensures
        ({
            let blocks = blocks_of(data.skip(from));
            let stream = stream_of(blocks);
            let at = from + 512 * i;
            let words = 2 * data[at + 1] + if data[at] >= 128 {
                2int
            } else {
                0int
            };
            let place = stored_before(data, from, i) + (if words > 6 {
                words - 6
            } else {
                0
            }) + 41 * k + (if k % 2 == 0 {
                0int
            } else if data[at] >= 128 {
                -1
            } else {
                1
            }) + 40;
            let before = runs_carry(stream, runs_of(blocks.take(i)));
            let after = runs_carry(stream, runs_of(blocks.take(i + 1)));
            &&& data[at + 2] == 0 || (data[at + 2] == 1 && data[at] >= 128) ==> after == before
            &&& {
                &&& 0 <= k < data[at + 2]
                &&& k + 2 >= data[at + 2]
                &&& (data[at] >= 128) == (k % 2 == 1)
            } ==> after == byte_at(stream, place)
        }),
{
    let blocks = blocks_of(data.skip(from));
    let stream = stream_of(blocks);
    let before = runs_of(blocks.take(i));
    lemma_block_bytes(data, from, i);
    lemma_blocks_step(blocks, i);
    assert(blocks[i][2] == data[from + 512 * i + 2]);
    if data[from + 512 * i + 2] > 0 {
        lemma_run_of_block(data, from, i, 0);
        let run = runs_of(blocks)[before.len() as int];
        let carry = runs_carry(stream, before);
        law_run_carry(stream, run, carry, 0);
        if 0 <= k < data[from + 512 * i + 2] {
            law_run_carry(stream, run, carry, k);
        }
    }
}

/// Blocks without a plain frame carry on what is carried into them.
proof fn lemma_carry_past_blocks(data: Seq<u8>, from: int, a: int, b: int)
    requires
        0 <= from,
        0 <= a <= b,
        from + 512 * b <= data.len(),
        forall|x: int| a <= x < b ==> #[trigger] no_plain_frame(data, from, x),
    ensures
        ({
            let blocks = blocks_of(data.skip(from));
            let stream = stream_of(blocks);
            runs_carry(stream, runs_of(blocks.take(b))) == runs_carry(
                stream,
                runs_of(blocks.take(a)),
            )
        }),
    decreases b - a,
{
    if a < b {
        lemma_carry_past_blocks(data, from, a, b - 1);
        assert(no_plain_frame(data, from, b - 1));
        lemma_carry_past_block(data, from, b - 1, 0);
    }
}

/// The carried byte of every swapped frame of a file, in numbers.
///
/// The second byte of frame `k` of block `i`, stored swapped, is the stored byte 40 of the plain
/// frame before it: of frame `k2` of block `i2`, if that is plain and no plain frame lies between
/// the two, be it in the same block or in an earlier one. That byte is the payload byte `r` of
/// block `j`, if that is what stands at its place, and zero behind the last block. If no plain
/// frame lies before it, the second byte is zero.
#[verifier::spinoff_prover]
#[verifier::rlimit(60)]
pub proof fn law_file_carried_byte(
    data: Seq<u8>,
    i: int,
    k: int,
    i2: int,
    k2: int,
    j: int,
    r: int,
)
    requires
        data.len() >= 4,
        data.len() >= 512 * data[0],
        0 <= i,
        512 * (data[0] + i + 1) <= data.len(),
        0 <= k < data[512 * (data[0] + i) + 2],
        (data[512 * (data[0] + i)] >= 128) != (k % 2 == 1),
    ensures
        ({
            let from = 512 * data[0];
            let n = (data.len() - from) / 512;
            let at = from + 512 * i2;
            let first = data[at] >= 128;
            let words = 2 * data[at + 1] + if first {
                2int
            } else {
                0int
            };
            let place = stored_before(data, from, i2) + (if words > 6 {
                words - 6
            } else {
                0
            }) + 41 * k2 + (if k2 % 2 == 0 {
                0int
            } else if first {
                -1
            } else {
                1
            }) + 40;
            let before = {
                &&& 0 <= i2
                &&& 0 <= k2 < data[at + 2]
                &&& first == (k2 % 2 == 1)
                &&& (i2 == i && k2 == k - 1) || {
                    &&& i2 < i && k == 0
                    &&& k2 + 2 >= data[at + 2]
                    &&& forall|x: int| i2 < x < i ==> #[trigger] no_plain_frame(data, from, x)
                }
            };
            let here = {
                &&& 0 <= j < n
                &&& 0 <= r < stored_before(data, from, j + 1) - stored_before(data, from, j)
                &&& place == stored_before(data, from, j) + r
            };
            let out = file_frames(data)[frames_before(data, from, i) + k];
            &&& before && here ==> out[1] == data[from + 512 * j + 6 + r]
            &&& before && place >= stored_before(data, from, n) ==> out[1] == 0
            &&& k == 0 && (forall|x: int| 0 <= x < i ==> #[trigger] no_plain_frame(data, from, x))
                ==> out[1] == 0
        }),
{
    let from = 512 * data[0];
    let blocks = blocks_of(data.skip(from));
    let stream = stream_of(blocks);
    lemma_run_of_block(data, from, i, k);
    lemma_sums(data, from, i);
    let run = runs_of(blocks)[runs_of(blocks.take(i)).len() as int];
    let carry = runs_carry(stream, runs_of(blocks.take(i)));
    law_run_carried_byte(stream, run, carry, k);
    if 0 <= i2 < i {
        lemma_carry_past_block(data, from, i2, k2);
        lemma_sums(data, from, i2);
    }
    if 0 <= i2 < i && (forall|x: int| i2 < x < i ==> #[trigger] no_plain_frame(data, from, x)) {
        lemma_carry_past_blocks(data, from, i2 + 1, i);
    }
    if forall|x: int| 0 <= x < i ==> #[trigger] no_plain_frame(data, from, x) {
        lemma_carry_past_blocks(data, from, 0, i);
        assert(blocks.take(0) =~= Seq::empty());
    }
    let at = from + 512 * i2;
    let words = 2 * data[at + 1] + if data[at] >= 128 {
        2int
    } else {
        0int
    };
    let place = stored_before(data, from, i2) + (if words > 6 {
        words - 6
    } else {
        0
    }) + 41 * k2 + (if k2 % 2 == 0 {
        0int
    } else if data[at] >= 128 {
        -1
    } else {
        1
    }) + 40;
    if 0 <= place {
        lemma_stored_byte(data, from, place, j, r);
    }
}

/// Every place that the blocks have a byte for belongs to one of them, so that the laws above
/// leave no stored byte open.
pub proof fn law_every_place_has_a_block(data: Seq<u8>, from: int, n: int, place: int) -> (home: (
    int,
    int,
))
    requires
        0 <= n,
        0 <= place < stored_before(data, from, n),
    ensures
        0 <= home.0 < n,
        0 <= home.1 < stored_before(data, from, home.0 + 1) - stored_before(data, from, home.0),
        place == stored_before(data, from, home.0) + home.1,
    decreases n,
{
    if place >= stored_before(data, from, n - 1) {
        (n - 1, place - stored_before(data, from, n - 1))
    } else {
        law_every_place_has_a_block(data, from, n - 1, place)
    }
}

// ---- The laws of a file in pieces ----

/// How many of `runs` are complete, given the first that is not.
proof fn lemma_complete_count(runs: Seq<Run>, len: int, m: int)
    requires
        0 <= m <= runs.len(),
        forall|t: int| 0 <= t < m ==> run_end(#[trigger] runs[t]) <= len,
        m < runs.len() ==> run_end(runs[m]) > len,
    ensures
        complete_runs(runs, len) == m,
    decreases runs.len(),
{
    if runs.len() > 0 {
        let before = runs.drop_last();
        if m == runs.len() {
            lemma_complete_count(before, len, m - 1);
            assert(run_end(runs[m - 1]) <= len);
        } else {
            lemma_complete_count(before, len, m);
        }
    }
}

/// The runs of the first `m` blocks end within `len` bytes, if the frames of each do.
proof fn lemma_first_runs_end(data: Seq<u8>, from: int, m: int, len: int)
    requires
        0 <= from,
        0 <= m,
        from + 512 * m <= data.len(),
        forall|x: int|
            0 <= x < m ==> data[from + 512 * x + 2] == 0 || #[trigger] frames_end(data, from, x)
                <= len,
    ensures
        ({
            let runs = runs_of(blocks_of(data.skip(from)).take(m));
            forall|t: int| 0 <= t < runs.len() ==> run_end(#[trigger] runs[t]) <= len
        }),
    decreases m,
{
    let blocks = blocks_of(data.skip(from));
    if m > 0 {
        lemma_first_runs_end(data, from, m - 1, len);
        lemma_block_bytes(data, from, m - 1);
        lemma_blocks_step(blocks, m - 1);
        assert(blocks[m - 1][2] == data[from + 512 * (m - 1) + 2]);
        let before = runs_of(blocks.take(m - 1));
        let runs = runs_of(blocks.take(m));
        if data[from + 512 * (m - 1) + 2] > 0 {
            lemma_run_of_block(data, from, m - 1, 0);
            lemma_first_runs(blocks, m);
            let run = runs_of(blocks)[before.len() as int];
            assert(runs_of(blocks).take(runs.len() as int)[before.len() as int] == run);
            assert(frames_end(data, from, m - 1) <= len);
            law_run_end(run);
            assert forall|t: int| 0 <= t < runs.len() implies run_end(#[trigger] runs[t]) <= len by {
                if t < before.len() {
                    assert(runs[t] == before[t]);
                }
            }
        }
    }
}

/// Before all 512 bytes for each unit of the version have come, nothing comes out and all that
/// came is held; after that, none of it is.
pub proof fn law_header_dropped(version: u8, data: Seq<u8>)
    ensures
        ({
            let (state, frames) = DemuxState::initial(version).push(data);
            &&& !DemuxState::initial(version).header_complete
            &&& DemuxState::initial(version).at_end()
            &&& data.len() < 512 * version ==> {
                &&& !state.header_complete
                &&& frames.len() == 0
                &&& state.partial == data
                &&& state.pending.len() == 0
                &&& state.at_end() <==> data.len() == 0
            }
            &&& data.len() >= 512 * version ==> state.header_complete
        }),
{
    assert(DemuxState::initial(version).partial + data =~= data);
    if data.len() >= 512 * version {
        law_stream_frames(version, data);
    }
}

/// What a file yields in pieces, the lenient end at last, is what it yields as a whole, and only
/// what follows its header counts: it is what any file of version 2 yields that has the same blocks
/// behind its header.
pub proof fn law_stream_as_file(version: u8, chunks: Seq<Seq<u8>>, head: Seq<u8>)
    requires
        chunks.len() > 0,
        chunks.flatten().len() >= 512 * version,
        head.len() == 1024,
        head[0] == 2,
    ensures
        ({
            let (state, frames) = push_all(DemuxState::initial(version), chunks);
            frames + state.flush().1 == file_frames(head + chunks.flatten().skip(512 * version))
        }),
{
    let data = chunks.flatten();
    let file = head + data.skip(512 * version);
    law_push_all(DemuxState::initial(version), chunks);
    law_stream_frames(version, data);
    assert(file.skip(1024) =~= data.skip(512 * version));
}

/// What is out of a file in pieces at any time: the frames of the first blocks, all of them or
/// none of a block, up to the first block `m` whose frames are not all there in whole. Only if no
/// block is left over in part, and no frame at all is missing bytes, may the input end here.
#[verifier::spinoff_prover]
#[verifier::rlimit(60)]
pub proof fn law_stream_given_out(version: u8, chunks: Seq<Seq<u8>>, m: int)
    requires
        chunks.len() > 0,
        chunks.flatten().len() >= 512 * version,
        ({
            let data = chunks.flatten();
            let from = 512 * version;
            let n = (data.len() - from) / 512;
            let len = stored_before(data, from, n);
            &&& 0 <= m <= n
            &&& forall|x: int|
                0 <= x < m ==> data[from + 512 * x + 2] == 0 || #[trigger] frames_end(data, from, x)
                    <= len
            &&& m < n ==> data[from + 512 * m + 2] > 0 && frames_end(data, from, m) > len
        }),
    ensures
        ({
            let data = chunks.flatten();
            let from = 512 * version;
            let n = (data.len() - from) / 512;
            let (state, frames) = push_all(DemuxState::initial(version), chunks);
            &&& frames.len() == frames_before(data, from, m)
            &&& state.header_complete
            &&& state.partial == data.skip(from + 512 * n)
            &&& state.pending.len() == 0 <==> m == n
            &&& state.at_end() <==> (data.len() - from) % 512 == 0 && m == n
        }),
{
    let data = chunks.flatten();
    let from = 512 * version;
    let n = (data.len() - from) / 512;
    let blocks = blocks_of(data.skip(from));
    let stream = stream_of(blocks);
    let runs = runs_of(blocks);
    let mr = runs_of(blocks.take(m)).len() as int;
    law_push_all(DemuxState::initial(version), chunks);
    law_stream_frames(version, data);
    lemma_sums(data, from, n);
    lemma_sums(data, from, m);
    assert(blocks.take(n) =~= blocks);
    lemma_first_runs(blocks, m);
    lemma_first_runs_end(data, from, m, stream.len() as int);
    assert forall|t: int| 0 <= t < mr implies run_end(#[trigger] runs[t]) <= stream.len() by {
        assert(runs.take(mr)[t] == runs[t]);
    }
    if m < n {
        lemma_run_of_block(data, from, m, 0);
        law_run_end(runs[mr]);
    }
    lemma_complete_count(runs, stream.len() as int, mr);
    law_frame_shape(stream, runs.take(mr));
    assert(left_over(data.skip(from)) =~= data.skip(from + 512 * n));
}

} // verus!
