use lib::helpers::{align_up, parse_mp3_frame_header, read_be_u32, Mp3FrameInfo};
use lib::mp3::{deinterleave_track, find_mp3_frame_offsets, interleave_pairs, pad_mp3_frames};
use lib::utils::{find_mp3_sync, is_mp3_sync};

/// One MPEG-1 Layer III frame, 128 kbit/s at 44100 Hz: 417 bytes, or 418 with padding.
fn frame(fill: u8, padding: bool) -> Vec<u8> {
    let b2 = if padding { 0x92 } else { 0x90 };
    let mut f = vec![0xFF, 0xFB, b2, 0x00];
    let len = if padding { 418 } else { 417 };
    while f.len() < len {
        f.push(fill);
    }
    f
}

fn stream(frames: &[Vec<u8>]) -> Vec<u8> {
    let mut v = Vec::new();
    for f in frames {
        v.extend_from_slice(f);
    }
    v
}

#[test]
fn align_up_rounds_to_next_multiple() {
    assert_eq!(align_up(33, 32), 64);
    assert_eq!(align_up(64, 32), 64);
    assert_eq!(align_up(396, 32), 416);
    assert_eq!(align_up(416, 32), 416);
    assert_eq!(align_up(0, 32), 0);
    assert_eq!(align_up(1, 1), 1);
    assert_eq!(align_up(5, 3), 6);
    assert_eq!(align_up(6, 3), 6);
    assert_eq!(align_up(u32::MAX - 4, 5), u32::MAX);
}

#[test]
fn parse_header_fields() {
    let info = parse_mp3_frame_header(0xFFFB_9264).unwrap();
    assert_eq!(info.version, 3);
    assert_eq!(info.layer, 1);
    assert_eq!(info.bitrate_idx, 9);
    assert_eq!(info.sample_rate_idx, 0);
    assert_eq!(info.padding, 1);
    assert_eq!(info.channel_bits, 1);
    assert_eq!(info.num_channels(), 2);
    assert_eq!(info.sample_rate(), 44100);
    assert_eq!(info.bitrate(), 128);
    assert_eq!(info.frame_size(), 418);
    assert_eq!(info.samples_per_frame(), 1152);
}

#[test]
fn parse_header_rejects_bad_values() {
    assert!(parse_mp3_frame_header(0x1234_5678).is_none());
    // reserved version
    assert!(parse_mp3_frame_header(0xFFEB_9000).is_none());
    // free-format bitrate
    assert!(parse_mp3_frame_header(0xFFFB_0000).is_none());
    // bad bitrate
    assert!(parse_mp3_frame_header(0xFFFB_F000).is_none());
    // reserved sample rate
    assert!(parse_mp3_frame_header(0xFFFB_9C00).is_none());
    // reserved layer
    assert!(parse_mp3_frame_header(0xFFF9_9000).is_none());
}

#[test]
fn frame_info_tables() {
    let mono = Mp3FrameInfo { version: 2, layer: 3, bitrate_idx: 14, sample_rate_idx: 1, padding: 0, channel_bits: 3 };
    assert_eq!(mono.num_channels(), 1);
    assert_eq!(mono.sample_rate(), 24000);
    assert_eq!(mono.bitrate(), 160);
    assert_eq!(mono.frame_size(), (12 * 160 * 1000 / 24000) * 4);
    assert_eq!(mono.samples_per_frame(), 384);
    let layer2 = Mp3FrameInfo { version: 0, layer: 2, bitrate_idx: 1, sample_rate_idx: 2, padding: 1, channel_bits: 0 };
    assert_eq!(layer2.sample_rate(), 8000);
    assert_eq!(layer2.bitrate(), 8);
    assert_eq!(layer2.frame_size(), 144 * 8 * 1000 / 8000 + 1);
    assert_eq!(layer2.samples_per_frame(), 1152);
    let mpeg25 = Mp3FrameInfo { version: 0, layer: 1, bitrate_idx: 1, sample_rate_idx: 0, padding: 0, channel_bits: 0 };
    assert_eq!(mpeg25.samples_per_frame(), 576);
    let reserved = Mp3FrameInfo { version: 1, layer: 1, bitrate_idx: 1, sample_rate_idx: 0, padding: 0, channel_bits: 0 };
    assert_eq!(reserved.sample_rate(), 0);
    assert_eq!(reserved.frame_size(), 0);
    let no_layer = Mp3FrameInfo { version: 3, layer: 0, bitrate_idx: 1, sample_rate_idx: 0, padding: 0, channel_bits: 0 };
    assert_eq!(no_layer.frame_size(), 0);
    assert_eq!(no_layer.samples_per_frame(), 0);
}

#[test]
fn read_be_u32_reads_big_endian() {
    assert_eq!(read_be_u32(&[1, 2, 3, 4, 5], 1), 0x0203_0405);
    assert_eq!(read_be_u32(&[0xFF, 0xFB, 0x90, 0x00], 0), 0xFFFB_9000);
}

#[test]
fn sync_markers() {
    let data = [0x00, 0xFF, 0xE0, 0xFF, 0x10, 0xFF, 0xFB];
    assert!(!is_mp3_sync(&data, 0));
    assert!(is_mp3_sync(&data, 1));
    assert!(!is_mp3_sync(&data, 3));
    assert!(is_mp3_sync(&data, 5));
    assert!(!is_mp3_sync(&data, 6));
    assert!(!is_mp3_sync(&data, 100));
    assert_eq!(find_mp3_sync(&data, 0), Some(1));
    assert_eq!(find_mp3_sync(&data, 2), Some(5));
    assert_eq!(find_mp3_sync(&data, 6), None);
    assert_eq!(find_mp3_sync(&[], 0), None);
}

#[test]
fn frame_scan_finds_frames_and_skips_garbage() {
    let a = frame(0x11, false);
    let b = frame(0x22, true);
    let mut data = vec![0x00, 0xFF, 0x00];
    data.extend_from_slice(&a);
    data.extend_from_slice(&b);
    data.extend_from_slice(&a[..100]);
    let frames = find_mp3_frame_offsets(&data);
    assert_eq!(frames, vec![(3, 417), (420, 418)]);
    assert!(find_mp3_frame_offsets(&[0xFF, 0xFB, 0x90]).is_empty());
}

#[test]
fn frame_scan_takes_mpeg1_layer3_only() {
    // MPEG-2 Layer III header: a valid header, but not taken
    let mut data = vec![0xFF, 0xF3, 0x90, 0x00];
    data.resize(600, 0x11);
    assert!(find_mp3_frame_offsets(&data).is_empty());
}

#[test]
fn pad_frames_to_alignment() {
    let a = frame(0x11, false);
    let b = frame(0x22, true);
    let data = stream(&[a.clone(), b.clone()]);
    let out = pad_mp3_frames(&data, 2).unwrap();
    assert_eq!(out.len(), 418 + 418);
    assert_eq!(&out[..417], &a[..]);
    assert_eq!(out[417], 0);
    assert_eq!(&out[418..], &b[..]);
    assert_eq!(out.len() % 2, 0);
    let out16 = pad_mp3_frames(&data, 16).unwrap();
    assert_eq!(out16.len(), 432 + 432);
    assert_eq!(pad_mp3_frames(&[1, 2, 3, 4, 5], 2), Err("no MP3 frames found".to_string()));
}

#[test]
fn interleave_two_pairs() {
    let a0 = frame(0x11, false);
    let a1 = frame(0x12, false);
    let b0 = frame(0x21, true);
    let p0 = stream(&[a0.clone(), a1.clone()]);
    let p1 = stream(&[b0.clone()]);
    let out = interleave_pairs(&[&p0, &p1]).unwrap();
    // one row: the shorter pair has one frame
    assert_eq!(out.len(), 432 + 432);
    assert_eq!(&out[..417], &a0[..]);
    assert!(out[417..432].iter().all(|&x| x == 0));
    assert_eq!(&out[432..850], &b0[..]);
    assert_eq!(out.len() % 16, 0);
    assert_eq!(interleave_pairs(&[]), Err("no pair data".to_string()));
    let empty: Vec<u8> = Vec::new();
    assert_eq!(interleave_pairs(&[&p0, &empty]).unwrap(), Vec::<u8>::new());
}

#[test]
fn deinterleave_gives_pairs_back() {
    let a = [frame(0x11, false), frame(0x12, true), frame(0x13, false)];
    let b = [frame(0x21, true), frame(0x22, false), frame(0x23, false)];
    let c = [frame(0x31, false), frame(0x32, false), frame(0x33, true)];
    let (pa, pb, pc) = (stream(&a), stream(&b), stream(&c));
    let track = interleave_pairs(&[&pa, &pb, &pc]).unwrap();
    let streams = deinterleave_track(&track, 6).unwrap();
    assert_eq!(streams, vec![pa, pb, pc]);
}

#[test]
fn deinterleave_single_pair_strips_padding() {
    let a = [frame(0x11, false), frame(0x12, true)];
    let data = stream(&a);
    let padded = pad_mp3_frames(&data, 2).unwrap();
    assert_eq!(deinterleave_track(&padded, 2).unwrap(), vec![data.clone()]);
    assert_eq!(deinterleave_track(&padded, 1).unwrap(), vec![data.clone()]);
    assert_eq!(deinterleave_track(&[0u8; 10], 2), Err("no MP3 frames found".to_string()));
}

#[test]
fn deinterleave_deals_frames_in_turn() {
    let f = [frame(0x11, false), frame(0x12, false), frame(0x13, false)];
    let data = stream(&f);
    let streams = deinterleave_track(&data, 4).unwrap();
    assert_eq!(streams, vec![stream(&[f[0].clone(), f[2].clone()]), f[1].clone()]);
}

#[test]
fn frames_behind_a_prefix_move_with_it() {
    let data = stream(&[frame(0x11, false), frame(0x22, true)]);
    let base = find_mp3_frame_offsets(&data);
    let mut shifted = vec![0x00, 0x7F, 0xFE, 0x10, 0x20];
    shifted.extend_from_slice(&data);
    let moved: Vec<(usize, usize)> = base.iter().map(|&(o, s)| (o + 5, s)).collect();
    assert_eq!(find_mp3_frame_offsets(&shifted), moved);
}

#[test]
fn padding_to_any_alignment_splits_back() {
    let data = stream(&[frame(0x11, false), frame(0x22, true), frame(0x33, false)]);
    for a in [1usize, 2, 3, 7, 16, 100] {
        let padded = pad_mp3_frames(&data, a).unwrap();
        assert_eq!(padded.len() % a, 0);
        assert_eq!(deinterleave_track(&padded, 2).unwrap(), vec![data.clone()]);
    }
}
