use dss_codec::demux::dss::{demux_dss, DssSpStreamDemuxer};
use dss_codec::demux::frames::DSS_SP_FRAME_SIZE;
use dss_codec::demux::layout::{DSS_BLOCK_HEADER_SIZE, DSS_BLOCK_SIZE};
use dss_codec::error::DecodeError;

fn make_dss_block(
    swap: u8,
    byte1: u8,
    frame_count: u8,
    payload_pattern: u8,
) -> [u8; DSS_BLOCK_SIZE] {
    let mut block = [0u8; DSS_BLOCK_SIZE];
    block[0] = swap << 7;
    block[1] = byte1;
    block[2] = frame_count;
    for (i, byte) in block[DSS_BLOCK_HEADER_SIZE..].iter_mut().enumerate() {
        *byte = payload_pattern.wrapping_add(i as u8);
    }
    block
}

fn collect_frames(
    demuxer: &mut DssSpStreamDemuxer,
    data: &[u8],
    chunk_size: usize,
) -> Vec<Vec<u8>> {
    let mut frames = Vec::new();
    for chunk in data.chunks(chunk_size) {
        frames.extend(demuxer.push(chunk).unwrap());
    }
    frames.extend(demuxer.finish().unwrap());
    frames
}

#[test]
fn test_dss_stream_demux_matches_batch() {
    let mut data = vec![0u8; 2 * DSS_BLOCK_SIZE];
    data[0] = 2;
    data[1..4].copy_from_slice(b"dss");
    data.extend_from_slice(&make_dss_block(0, 0, 3, 0x20));

    let (expected, _) = demux_dss(&data).unwrap();
    let mut demuxer = DssSpStreamDemuxer::new(2);
    let actual = collect_frames(&mut demuxer, &data, 149);

    assert_eq!(actual, expected);
}

#[test]
fn test_dss_stream_demux_empty_block_reset_matches_batch() {
    let mut data = vec![0u8; 2 * DSS_BLOCK_SIZE];
    data[0] = 2;
    data[1..4].copy_from_slice(b"dss");
    data.extend_from_slice(&make_dss_block(0, 0, 13, 0x10));
    data.extend_from_slice(&make_dss_block(1, 17, 0, 0x80));
    data.extend_from_slice(&make_dss_block(1, 0, 1, 0xC0));

    let (expected, _) = demux_dss(&data).unwrap();
    let mut demuxer = DssSpStreamDemuxer::new(2);
    let actual = collect_frames(&mut demuxer, &data, 127);

    assert_eq!(actual, expected);
}

#[test]
fn test_dss_demux_overdeclared_frames_no_panic() {
    // A block that declares more frames than its payload holds makes the
    // frame walk run past the end of the assembled stream; the trailing
    // packets must come back zero-padded instead of panicking.
    let mut data = vec![0u8; 2 * DSS_BLOCK_SIZE];
    data[0] = 2;
    data[1..4].copy_from_slice(b"dss");
    data.extend_from_slice(&make_dss_block(0, 3, 14, 0x20));

    let (frames, total) = demux_dss(&data).unwrap();
    assert_eq!(total, 14);
    assert_eq!(frames.len(), 14);
    assert!(frames.iter().all(|f| f.len() == DSS_SP_FRAME_SIZE));
}

#[test]
fn test_dss_stream_demux_truncated_frame() {
    let mut data = vec![0u8; 2 * DSS_BLOCK_SIZE];
    data[0] = 2;
    data[1..4].copy_from_slice(b"dss");
    data.extend_from_slice(&make_dss_block(0, 0, 20, 0x30));

    let mut demuxer = DssSpStreamDemuxer::new(2);
    for chunk in data.chunks(211) {
        let _ = demuxer.push(chunk).unwrap();
    }

    let err = demuxer.finish().unwrap_err();
    assert!(matches!(err, DecodeError::Truncated(_)));
}
