use rastercode::bits::{build_bitstream, reassemble};
use rastercode::codec::{decode_frames, encode_payload};
use rastercode::config::{CodecConfig, CodecError};
use rastercode::frames::Frame;

fn cfg(width: u32, height: u32, macro_size: u32) -> CodecConfig {
    CodecConfig { width, height, macro_size }
}

#[test]
fn concrete_two_byte_scenario() {
    // payload "AB" on a 64x1 frame with 1-pixel cells: 32 header bits for
    // N=2, then 16 payload bits, 48 bits in all -> exactly one frame.
    let c = cfg(64, 1, 1);
    let payload: Vec<u8> = vec![0x41, 0x42];
    let frames = encode_payload(&payload, &c).unwrap();
    assert_eq!(frames.len(), 1);
    let f = &frames[0];
    assert_eq!(f.width(), 64);
    assert_eq!(f.height(), 1);
    // header: N=2 -> bit 30 is the only 1 among the first 32
    let mut expected = [0u8; 64];
    expected[30] = 255;
    // 0x41 = 01000001
    expected[33] = 255;
    expected[39] = 255;
    // 0x42 = 01000010
    expected[41] = 255;
    expected[46] = 255;
    for x in 0..64u32 {
        assert_eq!(f.level_at(x, 0), Some(expected[x as usize]));
    }
    let back = decode_frames(&frames, &c).unwrap();
    assert_eq!(back, payload);
}

#[test]
fn empty_payload_round_trips_with_one_frame() {
    let c = cfg(64, 1, 1);
    let payload: Vec<u8> = vec![];
    let frames = encode_payload(&payload, &c).unwrap();
    assert_eq!(frames.len(), 1);
    let back = decode_frames(&frames, &c).unwrap();
    assert_eq!(back, payload);
}

#[test]
fn empty_payload_round_trips_with_macropixels() {
    let c = cfg(640, 480, 10);
    let payload: Vec<u8> = vec![];
    let frames = encode_payload(&payload, &c).unwrap();
    assert_eq!(frames.len(), 1);
    let back = decode_frames(&frames, &c).unwrap();
    assert_eq!(back, payload);
}

#[test]
fn exact_fill_produces_no_underfull_frame() {
    // 48 bits fill two 24-cell frames exactly
    let c = cfg(24, 1, 1);
    let payload: Vec<u8> = vec![0xAB, 0xCD];
    let frames = encode_payload(&payload, &c).unwrap();
    assert_eq!(frames.len(), 2);
    assert_eq!(decode_frames(&frames, &c).unwrap(), payload);
}

#[test]
fn one_bit_over_boundary_adds_one_frame() {
    // 48 bits against 47 cells per frame: one bit spills into a second frame
    let c = cfg(47, 1, 1);
    let payload: Vec<u8> = vec![0xAB, 0xCD];
    let frames = encode_payload(&payload, &c).unwrap();
    assert_eq!(frames.len(), 2);
    assert_eq!(decode_frames(&frames, &c).unwrap(), payload);
}

#[test]
fn truncated_sequence_is_an_error() {
    let c = cfg(8, 1, 1);
    let payload: Vec<u8> = vec![0xAA, 0x55];
    let mut frames = encode_payload(&payload, &c).unwrap();
    assert_eq!(frames.len(), 6);
    frames.pop();
    assert_eq!(decode_frames(&frames, &c), Err(CodecError::TruncatedStream));
}

#[test]
fn header_alone_without_payload_bits_is_truncated() {
    let c = cfg(8, 1, 1);
    let payload: Vec<u8> = vec![0xAA, 0x55];
    let mut frames = encode_payload(&payload, &c).unwrap();
    // keep only the 4 header frames: N=2 then demands 16 more bits
    frames.truncate(4);
    assert_eq!(decode_frames(&frames, &c), Err(CodecError::TruncatedStream));
}

#[test]
fn no_frames_at_all_is_truncated() {
    let c = cfg(8, 1, 1);
    let frames: Vec<Frame> = vec![];
    assert_eq!(decode_frames(&frames, &c), Err(CodecError::TruncatedStream));
}

#[test]
fn mismatched_frame_is_named_by_the_format_error() {
    let c = cfg(8, 1, 1);
    let payload: Vec<u8> = vec![0xAA, 0x55];
    let mut frames = encode_payload(&payload, &c).unwrap();
    let alien = Frame::from_levels(5, 3, &vec![0u8; 15]).unwrap();
    frames[2] = alien;
    assert_eq!(
        decode_frames(&frames, &c),
        Err(CodecError::Format { frame: 2, width: 5, height: 3 })
    );
}

#[test]
fn unusable_configuration_is_rejected() {
    let zero_cell = cfg(5, 5, 10);
    assert!(!zero_cell.validate());
    let payload: Vec<u8> = vec![1, 2, 3];
    assert!(matches!(encode_payload(&payload, &zero_cell), Err(CodecError::Config)));
    let frames: Vec<Frame> = vec![];
    assert_eq!(decode_frames(&frames, &zero_cell), Err(CodecError::Config));

    let zero_size = cfg(64, 64, 0);
    assert!(!zero_size.validate());
    assert!(matches!(encode_payload(&payload, &zero_size), Err(CodecError::Config)));
}

#[test]
fn decoding_twice_yields_identical_output() {
    let c = cfg(8, 1, 1);
    let payload: Vec<u8> = vec![0xAA, 0x55];
    let frames = encode_payload(&payload, &c).unwrap();
    let first = decode_frames(&frames, &c).unwrap();
    let second = decode_frames(&frames, &c).unwrap();
    assert_eq!(first, second);
}

#[test]
fn permuting_frames_changes_the_output() {
    let c = cfg(8, 1, 1);
    let payload: Vec<u8> = vec![0xAA, 0x55];
    let mut frames = encode_payload(&payload, &c).unwrap();
    assert_eq!(frames.len(), 6);
    // swap the two payload frames, leaving the header frames in place
    frames.swap(4, 5);
    let back = decode_frames(&frames, &c).unwrap();
    assert_eq!(back, vec![0x55, 0xAA]);
    assert_ne!(back, payload);
}

#[test]
fn macropixel_cells_are_uniform() {
    // 20x20 frames of 10x10 cells: 4 bits per frame. N=1 puts its header 1
    // in cell 3 of frame 7 (bit 31), the bottom-right cell.
    let c = cfg(20, 20, 10);
    let payload: Vec<u8> = vec![0xFF];
    let frames = encode_payload(&payload, &c).unwrap();
    assert_eq!(frames.len(), 10);
    let f7 = &frames[7];
    for (x, y) in [(10u32, 10u32), (15, 12), (19, 19)] {
        assert_eq!(f7.level_at(x, y), Some(255));
    }
    for (x, y) in [(0u32, 0u32), (9, 9), (5, 15), (19, 9)] {
        assert_eq!(f7.level_at(x, y), Some(0));
    }
    assert_eq!(decode_frames(&frames, &c).unwrap(), payload);
}

#[test]
fn threshold_reads_129_as_one_and_128_as_zero() {
    // a hand-built 40-cell frame: header N=1, then the bits of 0x41, with
    // "white" stored as 129 and "black" as 128
    let c = cfg(40, 1, 1);
    let mut levels = vec![128u8; 40];
    levels[31] = 129; // N = 1
    levels[33] = 129; // 0x41 = 01000001
    levels[39] = 129;
    let frame = Frame::from_levels(40, 1, &levels).unwrap();
    let frames = vec![frame];
    assert_eq!(decode_frames(&frames, &c).unwrap(), vec![0x41]);
}

#[test]
fn from_levels_rejects_wrong_length() {
    assert!(Frame::from_levels(4, 4, &vec![0u8; 15]).is_none());
    assert!(Frame::from_levels(4, 4, &vec![0u8; 16]).is_some());
}

#[test]
fn level_at_is_none_out_of_bounds() {
    let frame = Frame::from_levels(4, 2, &vec![7u8; 8]).unwrap();
    assert_eq!(frame.width(), 4);
    assert_eq!(frame.height(), 2);
    assert_eq!(frame.level_at(3, 1), Some(7));
    assert_eq!(frame.level_at(4, 1), None);
    assert_eq!(frame.level_at(3, 2), None);
}

#[test]
fn bitstream_of_empty_payload_is_the_zero_header() {
    let bits = build_bitstream(&vec![]).unwrap();
    assert_eq!(bits.len(), 32);
    assert!(bits.iter().all(|b| !*b));
    assert_eq!(reassemble(&bits).unwrap(), Vec::<u8>::new());
}

#[test]
fn reassemble_ignores_padding_and_rejects_short_streams() {
    let mut bits = build_bitstream(&vec![0x5A]).unwrap();
    assert_eq!(bits.len(), 40);
    // trailing padding from an underfull frame is discarded
    bits.push(true);
    bits.push(true);
    assert_eq!(reassemble(&bits).unwrap(), vec![0x5A]);
    // fewer than 32 bits: no header
    let short = vec![false; 31];
    assert_eq!(reassemble(&short), Err(CodecError::TruncatedStream));
    // a header promising more bits than follow
    let mut promised = vec![false; 32];
    promised[31] = true; // N = 1, but no payload bits at all
    assert_eq!(reassemble(&promised), Err(CodecError::TruncatedStream));
}

#[test]
fn larger_round_trip_with_macropixels() {
    let c = cfg(64, 48, 8);
    let payload: Vec<u8> = (0u16..=255).map(|b| b as u8).collect();
    let frames = encode_payload(&payload, &c).unwrap();
    // 32 + 8*256 = 2080 bits over 48 cells per frame
    assert_eq!(frames.len(), (2080 + 47) / 48);
    assert_eq!(decode_frames(&frames, &c).unwrap(), payload);
}

#[test]
fn rasterize_then_collect_recovers_the_bitstream() {
    // 40 bits over 10-cell frames: four exactly full frames, so sampling
    // gives back the very bitstream, with no padding
    let c = cfg(10, 1, 1);
    let bits_in = build_bitstream(&vec![0xC3]).unwrap();
    assert_eq!(bits_in.len(), 40);
    let frames = rastercode::raster::rasterize(&bits_in, &c).unwrap();
    assert_eq!(frames.len(), 4);
    let bits_out = rastercode::sample::collect_and_sample(&frames, &c).unwrap();
    assert_eq!(bits_out, bits_in);
}

#[test]
fn zero_height_frame_has_no_pixels() {
    // a degenerate frame of maximal width and zero height holds no pixel;
    // building it must not abort, and every lookup is out of bounds
    let frame = Frame::from_levels(u32::MAX, 0, &Vec::new()).unwrap();
    assert_eq!(frame.width(), u32::MAX);
    assert_eq!(frame.height(), 0);
    assert_eq!(frame.level_at(0, 0), None);
}
