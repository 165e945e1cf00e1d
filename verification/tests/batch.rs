use dss_codec::demux::dss::demux_dss;
use dss_codec::error::DecodeError;

fn block(byte0: u8, byte1: u8, frame_count: u8, pattern: u8) -> Vec<u8> {
    let mut bytes = vec![byte0, byte1, frame_count, 0xEE, 0xEE, 0xEE];
    for i in 0..506usize {
        bytes.push(pattern.wrapping_add(i as u8));
    }
    bytes
}

fn file(version: u8, blocks: &[Vec<u8>]) -> Vec<u8> {
    let mut data = vec![0u8; version as usize * 512];
    data[0] = version;
    data[1..4].copy_from_slice(b"dss");
    for b in blocks {
        data.extend_from_slice(b);
    }
    data
}

fn stream_of(blocks: &[Vec<u8>]) -> Vec<u8> {
    let mut stream = Vec::new();
    for b in blocks {
        // Without frames, a block adds the bytes that it declares as continuation.
        let end = if b[2] == 0 {
            let counted = 2 * b[1] as usize + 2 * (b[0] >> 7) as usize;
            counted.max(6)
        } else {
            512
        };
        stream.extend_from_slice(&b[6..end]);
    }
    stream
}

fn plain(stream: &[u8], pos: usize) -> Vec<u8> {
    let mut frame = stream[pos..pos + 42].to_vec();
    frame[40] = 0;
    frame
}

fn swapped(stream: &[u8], pos: usize, carry: u8) -> Vec<u8> {
    let stored = &stream[pos..pos + 40];
    let mut frame = vec![0u8; 42];
    for pair in 0..20 {
        frame[2 * pair] = stored[2 * pair + 1];
        frame[2 * pair + 3] = stored[2 * pair];
    }
    frame[1] = carry;
    frame[40] = 0;
    frame
}

fn name_of_refused(data: &[u8]) -> String {
    match demux_dss(data) {
        Err(DecodeError::NotDss(name)) => name,
        other => panic!("accepted: {:?}", other),
    }
}

#[test]
fn plain_and_swapped_frames_have_exact_bytes() {
    let (frames, total) = demux_dss(&file(2, &[block(0, 0, 3, 0x20)])).unwrap();
    assert_eq!(total, 3);
    let first: Vec<u8> = (0..42u8).map(|k| if k == 40 { 0 } else { 0x20 + k }).collect();
    assert_eq!(frames[0], first);
    let second = vec![
        0x4B, 0x48, 0x4D, 0x4A, 0x4F, 0x4C, 0x51, 0x4E, 0x53, 0x50, 0x55, 0x52, 0x57, 0x54, 0x59,
        0x56, 0x5B, 0x58, 0x5D, 0x5A, 0x5F, 0x5C, 0x61, 0x5E, 0x63, 0x60, 0x65, 0x62, 0x67, 0x64,
        0x69, 0x66, 0x6B, 0x68, 0x6D, 0x6A, 0x6F, 0x6C, 0x71, 0x6E, 0x00, 0x70,
    ];
    assert_eq!(frames[1], second);
    assert_eq!(frames[2][0], 0x72);
    assert_eq!(frames[2][41], 0x72 + 41);
}

#[test]
fn refused_inputs_are_named() {
    assert_eq!(name_of_refused(&[]), "<bytes>");
    assert_eq!(name_of_refused(&[2, b'd', b's']), "<bytes>");
    assert_eq!(name_of_refused(&[2, b'd', b's', b'2', 0]), "<bytes>");
    assert_eq!(name_of_refused(&[2, b'D', b's', b's', 0]), "<bytes>");
    assert_eq!(name_of_refused(&[1, b'd', b's', b's', 0]), "<bytes>");
    assert_eq!(name_of_refused(&[4, b'd', b's', b's', 0]), "<bytes>");
}

#[test]
fn file_without_blocks_has_no_frames() {
    let (frames, total) = demux_dss(&file(3, &[])).unwrap();
    assert!(frames.is_empty());
    assert_eq!(total, 0);
}

#[test]
fn header_of_version_three_takes_three_blocks() {
    let blocks = [block(0, 0, 1, 7)];
    let stream = stream_of(&blocks);
    let (frames, _) = demux_dss(&file(3, &blocks)).unwrap();
    assert_eq!(frames, vec![plain(&stream, 0)]);
}

#[test]
fn incomplete_last_block_is_passed_over() {
    let mut data = file(2, &[block(0, 0, 1, 7)]);
    let whole = demux_dss(&data).unwrap();
    data.extend_from_slice(&block(0, 0, 5, 9)[..511]);
    assert_eq!(demux_dss(&data).unwrap(), whole);
}

#[test]
fn only_the_top_bit_tells_the_parity() {
    let blocks = [block(0x7F, 0, 1, 1)];
    let stream = stream_of(&blocks);
    assert_eq!(demux_dss(&file(2, &blocks)).unwrap().0, vec![plain(&stream, 0)]);
    let blocks = [block(0xFF, 0, 1, 1)];
    assert_eq!(demux_dss(&file(2, &blocks)).unwrap().0, vec![swapped(&stream, 0, 0)]);
}

#[test]
fn continuation_counts_words_behind_the_block_header() {
    // Two bytes a word, less the six of the header; a swapped block counts one word more.
    for (byte0, byte1, start) in [
        (0u8, 0u8, 0usize),
        (0, 2, 0),
        (0, 3, 0),
        (0, 4, 2),
        (0, 17, 28),
        (0x80, 0, 0),
        (0x80, 2, 0),
        (0x80, 3, 2),
        (0x80, 17, 30),
    ] {
        let blocks = [block(byte0, byte1, 1, 0x35)];
        let stream = stream_of(&blocks);
        let expected = if byte0 == 0 {
            plain(&stream, start)
        } else {
            swapped(&stream, start, 0)
        };
        assert_eq!(demux_dss(&file(2, &blocks)).unwrap().0, vec![expected]);
    }
}

#[test]
fn largest_continuation_skips_the_whole_payload() {
    let blocks = [block(0x80, 255, 1, 0x35), block(0, 0, 1, 0x90)];
    let stream = stream_of(&blocks);
    let expected = vec![swapped(&stream, 506, 0), plain(&stream, 506)];
    assert_eq!(demux_dss(&file(2, &blocks)).unwrap().0, expected);
}

#[test]
fn frame_runs_on_into_the_next_block() {
    let blocks = [block(0, 0, 13, 0x10), block(0x80, 16, 2, 0x80)];
    let stream = stream_of(&blocks);
    let (frames, total) = demux_dss(&file(2, &blocks)).unwrap();
    assert_eq!(total, 15);
    assert_eq!(frames[12], plain(&stream, 492));
    // The plain frame at the end of one block carries a byte into the swapped one of the next.
    assert_eq!(frames[13], swapped(&stream, 534, stream[532]));
    assert_eq!(frames[14], plain(&stream, 574));
}

#[test]
fn each_block_is_read_where_it_declares() {
    // The first block's frames run on to 534, the second declares 506.
    let blocks = [block(0, 0, 13, 0x10), block(0, 0, 1, 0x80)];
    let stream = stream_of(&blocks);
    let (frames, _) = demux_dss(&file(2, &blocks)).unwrap();
    assert_eq!(frames[12], plain(&stream, 492));
    assert_eq!(frames[13], plain(&stream, 506));
}

#[test]
fn empty_block_only_continues_frames() {
    // The empty block declares 28 bytes of continuation: those that frame 12 lacks.
    let blocks = [block(0, 0, 13, 0x10), block(0, 17, 0, 0x80), block(0, 0, 1, 0xC0)];
    let stream = stream_of(&blocks);
    assert_eq!(stream.len(), 506 + 28 + 506);
    let (frames, total) = demux_dss(&file(2, &blocks)).unwrap();
    assert_eq!(total, 14);
    assert_eq!(frames[12], plain(&stream, 492));
    assert_eq!(frames[12][14], 0x80);
    assert_eq!(frames[13], plain(&stream, 534));
    assert_eq!(frames[13][0], 0xC0);
}

#[test]
fn empty_block_without_continuation_adds_nothing() {
    let blocks = [block(0, 3, 13, 0x10), block(0, 3, 0, 0x80), block(0, 17, 1, 0xC0)];
    let (frames, total) = demux_dss(&file(2, &blocks)).unwrap();
    assert_eq!(total, 14);
    for j in 0..14u8 {
        assert_eq!(frames[12][j as usize], 0xFCu8.wrapping_add(j));
    }
    for j in 0..28u8 {
        let expected = if j == 26 { 0 } else { 0xC0 + j };
        assert_eq!(frames[12][14 + j as usize], expected);
    }
    assert_eq!(frames[13][0], 0xC0 + 28);
}

#[test]
fn missing_bytes_are_zero() {
    // 14 frames take 574 bytes, the stream holds 506.
    let (frames, total) = demux_dss(&file(2, &[block(0, 3, 14, 0x20)])).unwrap();
    assert_eq!(total, 14);
    // Frame 12 begins at 492 and has 14 bytes.
    let pattern: Vec<u8> = (0..14usize).map(|i| 0x20u8.wrapping_add((492 + i) as u8)).collect();
    assert_eq!(frames[12][..14], pattern[..]);
    assert!(frames[12][14..].iter().all(|b| *b == 0));
    assert!(frames[13].iter().all(|b| *b == 0));
}

#[test]
fn carried_byte_survives_behind_the_end() {
    // A swapped first frame carries nothing; the plain frame at 40 carries its byte at 80.
    let blocks = [block(0x80, 0, 3, 0x20)];
    let stream = stream_of(&blocks);
    let (frames, _) = demux_dss(&file(2, &blocks)).unwrap();
    assert_eq!(frames[0], swapped(&stream, 0, 0));
    assert_eq!(frames[1], plain(&stream, 40));
    assert_eq!(frames[2], swapped(&stream, 82, stream[80]));
    // Wholly behind the end, a swapped frame holds the carried byte alone.
    let blocks = [block(0, 0, 1, 0x20), block(0x80, 255, 1, 0x20)];
    let stream = stream_of(&blocks);
    let (frames, _) = demux_dss(&file(2, &blocks)).unwrap();
    let mut blank = vec![0u8; 42];
    blank[1] = stream[40];
    assert_eq!(frames[1], blank);
}

#[test]
fn every_frame_has_the_same_shape() {
    let blocks = [block(0, 9, 255, 3), block(0x80, 200, 40, 5), block(0, 0, 0, 7)];
    let (frames, total) = demux_dss(&file(3, &blocks)).unwrap();
    assert_eq!(total, 295);
    assert_eq!(frames.len(), 295);
    assert!(frames.iter().all(|f| f.len() == 42 && f[40] == 0));
}

#[test]
fn zeros_behind_the_end_change_no_frame() {
    let short = [block(0, 3, 14, 0x20)];
    let mut zeros = vec![0u8; 512];
    zeros[2] = 1;
    let padded = [short[0].clone(), zeros];
    let (frames, _) = demux_dss(&file(2, &short)).unwrap();
    let (more, total) = demux_dss(&file(2, &padded)).unwrap();
    assert_eq!(total, 15);
    assert_eq!(more[..14], frames[..]);
}
