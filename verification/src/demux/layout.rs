//! The layout of a DSS file: header, blocks, and what each block declares.
use vstd::prelude::*;

verus! {

/// Size of a block.
pub const DSS_BLOCK_SIZE: usize = 512;

/// Size of the header at the start of each block.
pub const DSS_BLOCK_HEADER_SIZE: usize = 6;

/// Size of the payload that fills the rest of a block.
pub const DSS_BLOCK_PAYLOAD_SIZE: usize = 506;

/// Whether `data` starts as a DSS file does: the version, 2 or 3, then `dss`.
pub open spec fn is_dss(data: Seq<u8>) -> bool {
    &&& data.len() >= 4
    &&& data[0] == 2 || data[0] == 3
    &&& data.subrange(1, 4) == seq![0x64u8, 0x73u8, 0x73u8]
}

/// Size of the file header of the given version: as many blocks as the version says.
pub open spec fn file_header_len(version: u8) -> nat {
    512 * version as nat
}

/// The whole blocks of `body`; what is left over at its end belongs to none.
pub open spec fn blocks_of(body: Seq<u8>) -> Seq<Seq<u8>> {
    Seq::new(body.len() / 512, |i: int| body.subrange(512 * i, 512 * i + 512))
}

/// What is left over at the end of `body` behind its whole blocks.
pub open spec fn left_over(body: Seq<u8>) -> Seq<u8> {
    body.skip(512 * (body.len() as int / 512))
}

/// The blocks that follow the file header of `data`.
pub open spec fn file_blocks(data: Seq<u8>) -> Seq<Seq<u8>> {
    blocks_of(data.skip(file_header_len(data[0]) as int))
}

/// The bytes of `block` behind its header.
pub open spec fn block_payload(block: Seq<u8>) -> Seq<u8> {
    block.subrange(DSS_BLOCK_HEADER_SIZE as int, DSS_BLOCK_SIZE as int)
}

/// Whether the first frame of `block` is stored byte-swapped: the top bit of its first byte.
pub open spec fn block_swapped(block: Seq<u8>) -> bool {
    block[0] >= 0x80
}

/// How many payload bytes of `block` belong to a frame that began before it.
///
/// The block counts them in 16-bit words, the block header included.
pub open spec fn continuation_len(block: Seq<u8>) -> nat {
    let counted = 2 * block[1] + if block_swapped(block) {
        2int
    } else {
        0int
    };
    if counted < DSS_BLOCK_HEADER_SIZE {
        0
    } else {
        (counted - DSS_BLOCK_HEADER_SIZE) as nat
    }
}

/// How many frames begin in `block`.
pub open spec fn block_frame_count(block: Seq<u8>) -> nat {
    block[2] as nat
}

/// A run of `count` frames that lie one after the other, the first at `start`.
///
/// Frames are stored plain and byte-swapped in turn; `swapped` says how the first is stored.
#[verifier::ext_equal]
pub struct Run {
    pub start: int,
    pub count: nat,
    pub swapped: bool,
}

/// The run that `block` declares where its share of the stream begins at `at`.
pub open spec fn block_run(block: Seq<u8>, at: int) -> Run {
    Run {
        start: at + continuation_len(block),
        count: block_frame_count(block),
        swapped: block_swapped(block),
    }
}

/// What `block` adds to the stream: its payload, or, where no frame begins in it, only the
/// payload bytes that continue an earlier frame.
pub open spec fn block_share(block: Seq<u8>) -> Seq<u8> {
    if block_frame_count(block) == 0 {
        block_payload(block).take(continuation_len(block) as int)
    } else {
        block_payload(block)
    }
}

/// What `blocks` add to the stream, laid end to end.
pub open spec fn stream_of(blocks: Seq<Seq<u8>>) -> Seq<u8>
    decreases blocks.len(),
{
    if blocks.len() == 0 {
        Seq::empty()
    } else {
        stream_of(blocks.drop_last()) + block_share(blocks.last())
    }
}

/// The runs that `blocks` declare, in order; a block without frames declares none.
pub open spec fn runs_of(blocks: Seq<Seq<u8>>) -> Seq<Run>
    decreases blocks.len(),
{
    if blocks.len() == 0 {
        Seq::empty()
    } else {
        let before = runs_of(blocks.drop_last());
        if block_frame_count(blocks.last()) == 0 {
            before
        } else {
            before.push(block_run(blocks.last(), stream_of(blocks.drop_last()).len() as int))
        }
    }
}

/// Whether each of `blocks` has the size of a block.
pub open spec fn whole_blocks(blocks: Seq<Seq<u8>>) -> bool {
    forall|i: int| 0 <= i < blocks.len() ==> (#[trigger] blocks[i]).len() == DSS_BLOCK_SIZE
}

/// How many frames `runs` hold together.
pub open spec fn frame_total(runs: Seq<Run>) -> nat
    decreases runs.len(),
{
    if runs.len() == 0 {
        0
    } else {
        frame_total(runs.drop_last()) + runs.last().count
    }
}

/// The blocks cut from a sequence of bytes are whole.
pub proof fn lemma_blocks_whole(body: Seq<u8>)
    ensures
        whole_blocks(blocks_of(body)),
{
}

/// The first blocks, and one more.
pub proof fn lemma_blocks_step(blocks: Seq<Seq<u8>>, i: int)
    requires
        0 <= i < blocks.len(),
    ensures
        blocks.take(i + 1).drop_last() == blocks.take(i),
        blocks.take(i + 1).last() == blocks[i],
{
    assert(blocks.take(i + 1).drop_last() =~= blocks.take(i));
}

} // verus!
