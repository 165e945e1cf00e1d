use dss_codec::demux::dss::{demux_dss, DssSpStreamDemuxer};
use dss_codec::error::DecodeError;

fn block(swap: u8, byte1: u8, frame_count: u8, pattern: u8) -> Vec<u8> {
    let mut bytes = vec![swap << 7, byte1, frame_count, 0, 0, 0];
    for i in 0..506usize {
        bytes.push(pattern.wrapping_add((i * 7) as u8));
    }
    bytes
}

fn file(version: u8, blocks: &[Vec<u8>]) -> Vec<u8> {
    let mut data = vec![0u8; version as usize * 512];
    data[0] = version;
    data[1..4].copy_from_slice(b"dss");
    for b in blocks {
        data.extend_from_slice(b);
    }
    data
}

/// Blocks whose frames lie one behind the other throughout, as a recorder writes them.
fn recording(blocks: usize) -> Vec<Vec<u8>> {
    let mut out = Vec::new();
    let mut pos = 0usize;
    let mut swap = false;
    for i in 0..blocks {
        let begin = i * 506;
        let first_swap = swap;
        let cont = pos - begin;
        let mut count = 0u8;
        while pos < begin + 506 {
            pos += if swap { 40 } else { 42 };
            swap = !swap;
            count += 1;
        }
        let words = (cont + 6 - if first_swap { 2 } else { 0 }) / 2;
        out.push(block(first_swap as u8, words as u8, count, (i * 11) as u8));
    }
    out
}

fn push_in_chunks(demuxer: &mut DssSpStreamDemuxer, data: &[u8], size: usize) -> Vec<Vec<u8>> {
    let mut frames = Vec::new();
    for chunk in data.chunks(size) {
        frames.extend(demuxer.push(chunk).unwrap());
    }
    frames
}

fn truncated_part(result: Result<Vec<Vec<u8>>, DecodeError>) -> String {
    match result {
        Err(DecodeError::Truncated(part)) => part,
        other => panic!("not truncated: {:?}", other),
    }
}

#[test]
fn long_recording_matches_batch_however_it_is_cut() {
    let data = file(3, &recording(100));
    let (expected, total) = demux_dss(&data).unwrap();
    assert_eq!(total, expected.len());
    for size in [1, 7, 149, 506, 512, 1000, 100_000] {
        let mut demuxer = DssSpStreamDemuxer::new(3);
        let mut frames = push_in_chunks(&mut demuxer, &data, size);
        assert!(frames.len() < total);
        frames.extend(demuxer.finish_lenient().unwrap());
        assert_eq!(frames, expected);
    }
}

#[test]
fn pushing_in_pieces_yields_the_same_frames_piece_by_piece() {
    let data = file(2, &recording(6));
    let mut whole = DssSpStreamDemuxer::new(2);
    let at_once = whole.push(&data).unwrap();
    for cut in [0, 3, 1023, 1024, 1025, 1535, 1536, 2000, data.len()] {
        let mut demuxer = DssSpStreamDemuxer::new(2);
        let mut frames = demuxer.push(&data[..cut]).unwrap();
        frames.extend(demuxer.push(&data[cut..]).unwrap());
        assert_eq!(frames, at_once);
    }
}

#[test]
fn stream_used_up_to_the_last_byte_goes_on() {
    // 12 frames take 492 bytes: with 14 bytes of continuation they fill the block.
    let full = block(0, 10, 12, 1);
    let data = file(2, &[full.clone(), full.clone(), block(0, 3, 2, 9)]);
    let (expected, _) = demux_dss(&data).unwrap();
    let mut demuxer = DssSpStreamDemuxer::new(2);
    let frames = push_in_chunks(&mut demuxer, &data, 300);
    assert_eq!(frames, expected);
    assert!(demuxer.finish().unwrap().is_empty());
}

#[test]
fn lenient_end_behind_a_stream_used_up_emits_what_is_left() {
    let data = file(2, &[block(0, 10, 12, 1), block(1, 4, 14, 9)]);
    let (expected, _) = demux_dss(&data).unwrap();
    let mut demuxer = DssSpStreamDemuxer::new(2);
    let mut frames = demuxer.push(&data).unwrap();
    assert_eq!(frames.len(), 12);
    frames.extend(demuxer.finish_lenient().unwrap());
    assert_eq!(frames, expected);
}

#[test]
fn each_block_begins_where_it_declares() {
    // The first block's frames run on to 534; the second declares its frame at 506.
    let second = block(0, 3, 1, 0x80);
    let data = file(2, &[block(0, 3, 13, 0x10), second.clone()]);
    let mut demuxer = DssSpStreamDemuxer::new(2);
    assert!(demuxer.push(&data[..1024]).unwrap().is_empty());
    assert!(demuxer.push(&data[1024..1536]).unwrap().is_empty());
    let frames = demuxer.push(&data[1536..]).unwrap();
    assert_eq!(frames.len(), 14);
    let mut declared = second[6..6 + 42].to_vec();
    declared[40] = 0;
    assert_eq!(frames[13], declared);
    assert_eq!(frames, demux_dss(&data).unwrap().0);
    assert!(demuxer.finish().unwrap().is_empty());
}

#[test]
fn overlapping_blocks_match_batch_however_they_are_cut() {
    let blocks: Vec<Vec<u8>> = (0..40usize)
        .map(|i| block((i % 2) as u8, (i * 37 % 256) as u8, (i * 29 % 60) as u8, i as u8))
        .collect();
    let data = file(2, &blocks);
    let (expected, total) = demux_dss(&data).unwrap();
    assert_eq!(expected.len(), total);
    for size in [1, 61, 512, 700, 50_000] {
        let mut demuxer = DssSpStreamDemuxer::new(2);
        let mut frames = push_in_chunks(&mut demuxer, &data, size);
        frames.extend(demuxer.finish_lenient().unwrap());
        assert_eq!(frames, expected);
    }
}

#[test]
fn empty_block_adds_only_its_continuation() {
    let data = file(2, &[block(0, 3, 13, 0x10), block(0, 3, 0, 0x80), block(0, 17, 1, 0xC0)]);
    let (expected, _) = demux_dss(&data).unwrap();
    assert_eq!(expected[12][14], 0xC0);
    let mut demuxer = DssSpStreamDemuxer::new(2);
    let frames = push_in_chunks(&mut demuxer, &data, 333);
    assert_eq!(frames, expected);
    assert!(demuxer.finish().unwrap().is_empty());
}

#[test]
fn frames_come_out_with_their_block_once_complete() {
    let blocks = [block(0, 3, 13, 0x10), block(1, 16, 2, 0x40)];
    let mut demuxer = DssSpStreamDemuxer::new(2);
    assert!(demuxer.push(&file(2, &[])).unwrap().is_empty());
    // The thirteenth frame still lacks bytes, so none of the block comes out.
    assert!(demuxer.push(&blocks[0]).unwrap().is_empty());
    assert!(demuxer.push(&blocks[1][..511]).unwrap().is_empty());
    assert_eq!(demuxer.push(&blocks[1][511..]).unwrap().len(), 15);
    assert!(demuxer.push(&[]).unwrap().is_empty());
    assert!(demuxer.finish().unwrap().is_empty());
}

#[test]
fn empty_block_emits_nothing() {
    let mut demuxer = DssSpStreamDemuxer::new(2);
    let data = file(2, &[block(0, 3, 1, 0x10), block(1, 17, 0, 0x40)]);
    assert_eq!(demuxer.push(&data).unwrap().len(), 1);
    assert!(demuxer.push(&block(0, 17, 0, 0x41)).unwrap().is_empty());
    assert!(demuxer.finish().unwrap().is_empty());
}

#[test]
fn nothing_received_is_a_good_end() {
    assert!(DssSpStreamDemuxer::new(2).finish().unwrap().is_empty());
    assert!(DssSpStreamDemuxer::new(2).finish_lenient().unwrap().is_empty());
}

#[test]
fn each_truncation_is_named() {
    let data = file(2, &[block(0, 3, 13, 0x10)]);
    let mut demuxer = DssSpStreamDemuxer::new(2);
    assert!(demuxer.push(&data[..1023]).unwrap().is_empty());
    assert_eq!(truncated_part(demuxer.finish()), "DSS header");
    assert_eq!(truncated_part(demuxer.finish_lenient()), "DSS header");
    // Asking changes nothing.
    assert!(demuxer.push(&data[1023..1025]).unwrap().is_empty());
    assert_eq!(truncated_part(demuxer.finish()), "DSS block");
    assert!(demuxer.push(&data[1025..]).unwrap().is_empty());
    assert_eq!(truncated_part(demuxer.finish()), "DSS SP frame");
    assert_eq!(demuxer.finish_lenient().unwrap().len(), 13);
    assert!(demuxer.finish().unwrap().is_empty());
}

#[test]
fn header_alone_is_a_good_end() {
    let mut demuxer = DssSpStreamDemuxer::new(3);
    assert!(demuxer.push(&file(3, &[])).unwrap().is_empty());
    assert!(demuxer.finish().unwrap().is_empty());
}

#[test]
fn lenient_end_gives_an_incomplete_block_up() {
    let data = file(2, &[block(0, 3, 14, 0x10), block(0, 3, 5, 0x20)]);
    let cut = &data[..data.len() - 1];
    let (expected, _) = demux_dss(cut).unwrap();
    let mut demuxer = DssSpStreamDemuxer::new(2);
    let mut frames = push_in_chunks(&mut demuxer, cut, 64);
    assert!(frames.is_empty());
    frames.extend(demuxer.finish_lenient().unwrap());
    assert_eq!(frames, expected);
    assert_eq!(frames.len(), 14);
}

#[test]
fn lenient_end_pads_several_blocks() {
    // Far more frames declared than there are bytes: every block stays pending.
    let data = file(2, &[block(0, 3, 200, 0x10), block(1, 4, 7, 0x20), block(0, 5, 3, 0x30)]);
    let mut demuxer = DssSpStreamDemuxer::new(2);
    assert!(demuxer.push(&data).unwrap().is_empty());
    let frames = demuxer.finish_lenient().unwrap();
    assert_eq!(frames.len(), 210);
    assert!(frames.iter().all(|f| f.len() == 42 && f[40] == 0));
    assert_eq!(frames, demux_dss(&data).unwrap().0);
}

#[test]
fn demuxer_goes_on_behind_a_lenient_end() {
    let mut demuxer = DssSpStreamDemuxer::new(2);
    assert!(demuxer.push(&file(2, &[block(0, 3, 13, 0x10)])).unwrap().is_empty());
    assert!(demuxer.push(&[1, 2, 3]).unwrap().is_empty());
    assert_eq!(demuxer.finish_lenient().unwrap().len(), 13);
    let next = block(0, 3, 1, 0x77);
    let frames = demuxer.push(&next).unwrap();
    let mut expected = next[6..48].to_vec();
    expected[40] = 0;
    assert_eq!(frames, vec![expected]);
}

#[test]
fn version_zero_has_no_header() {
    let first = block(0, 3, 1, 0x77);
    let mut demuxer = DssSpStreamDemuxer::new(0);
    assert_eq!(demuxer.push(&first).unwrap().len(), 1);
    assert!(demuxer.finish().unwrap().is_empty());
}

#[test]
fn no_frame_is_lost_or_made_up() {
    let blocks = [block(0, 3, 30, 1), block(1, 9, 5, 2), block(0, 3, 0, 3), block(0, 40, 12, 4)];
    let mut demuxer = DssSpStreamDemuxer::new(2);
    assert!(demuxer.push(&file(2, &[])).unwrap().is_empty());
    let counts: Vec<usize> = blocks.iter().map(|b| demuxer.push(b).unwrap().len()).collect();
    // Thirty frames take 1230 bytes, which the last block completes; its own run past the end.
    assert_eq!(counts, vec![0, 0, 0, 35]);
    assert_eq!(demuxer.finish_lenient().unwrap().len(), 12);
}
