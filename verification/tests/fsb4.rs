use lib::config::{decode_header_flags, decode_play_mode};
use lib::fsb4::{create_fsb4, parse_fsb4, serialize_startpoints, try_create_fsb4, try_parse_fsb4, Fsb4Entry, Fsb4Error};
use lib::pipeline::{check_startpoints_fit, default_startpoints, generate_startpoints, track_extract, try_build_entries, try_build_fsb4};
use lib::mp3::deinterleave_track;

fn frame(fill: u8) -> Vec<u8> {
    let mut f = vec![0xFF, 0xFB, 0x90, 0x00];
    f.resize(417, fill);
    f
}

fn le32(v: &[u8], o: usize) -> u32 {
    u32::from_le_bytes([v[o], v[o + 1], v[o + 2], v[o + 3]])
}

fn le16(v: &[u8], o: usize) -> u16 {
    u16::from_le_bytes([v[o], v[o + 1]])
}

#[test]
fn decode_flags() {
    assert_eq!(decode_header_flags(0x20), vec!["MPEG_PADDED"]);
    assert_eq!(decode_header_flags(0x21), vec!["FORMAT", "MPEG_PADDED"]);
    assert!(decode_header_flags(0).is_empty());
    assert_eq!(decode_header_flags(0xFFFF_FF80), Vec::<&str>::new());
    assert_eq!(decode_play_mode(0x8000_0240), vec!["STEREO", "MPEG", "SYNCPOINTS"]);
    assert_eq!(decode_play_mode(0x8400_0200), vec!["MPEG", "MULTICHANNEL", "SYNCPOINTS"]);
    assert_eq!(decode_play_mode(0x0000_0240), vec!["STEREO", "MPEG"]);
    assert_eq!(decode_play_mode(u32::MAX).len(), 32);
}

#[test]
fn startpoint_table_layout() {
    let t = serialize_startpoints(&[1152, 7]);
    assert_eq!(t.len(), 8 + 2 * 260);
    assert_eq!(&t[..4], b"SYNC");
    assert_eq!(le32(&t, 4), 2);
    assert_eq!(le32(&t, 8), 1152);
    assert_eq!(&t[12..22], b"startpoint");
    assert!(t[22..268].iter().all(|&b| b == 0));
    assert_eq!(le32(&t, 268), 7);
    assert_eq!(serialize_startpoints(&[]), b"SYNC\0\0\0\0".to_vec());
}

#[test]
fn startpoints_are_spread_and_snapped() {
    assert_eq!(generate_startpoints(100_000, 0, 3), vec![25344, 49536, 74880]);
    assert_eq!(generate_startpoints(1000, 0, 2), vec![0, 999]);
    assert!(generate_startpoints(100_000, 1, 3).is_empty());
    assert!(generate_startpoints(0, 0, 3).is_empty());
    assert!(generate_startpoints(100_000, 0, 0).is_empty());
    assert!(check_startpoints_fit(100_000, 8));
    assert!(!check_startpoints_fit(u32::MAX, u32::MAX as usize));
    assert!(check_startpoints_fit(0, usize::MAX));
}

fn entry(name: &str, data: Vec<u8>, startpoints: Vec<u32>, sample_count: u32, num_channels: u16) -> Fsb4Entry {
    Fsb4Entry { filename: name.to_string(), data, startpoints, sample_count, num_channels }
}

#[test]
fn bank_layout() {
    let data = vec![1u8, 2, 3, 4, 5];
    let bank = create_fsb4(&[entry("song.wav", data.clone(), vec![], 1152, 2)]);
    assert_eq!(&bank[..4], b"FSB4");
    assert_eq!(le32(&bank, 4), 1);
    // 48 + 80 = 128, already a multiple of 32
    assert_eq!(le32(&bank, 8), 80);
    assert_eq!(le32(&bank, 12), 5);
    assert_eq!(le32(&bank, 16), 0x0004_0000);
    assert_eq!(le32(&bank, 20), 0x20);
    assert!(bank[24..48].iter().all(|&b| b == 0));
    assert_eq!(le16(&bank, 48), 80);
    assert_eq!(&bank[50..58], b"song.wav");
    assert!(bank[58..80].iter().all(|&b| b == 0));
    assert_eq!(le32(&bank, 80), 1152);
    assert_eq!(le32(&bank, 84), 5);
    assert_eq!(le32(&bank, 88), 0);
    assert_eq!(le32(&bank, 92), 1151);
    assert_eq!(le32(&bank, 96), 0x0000_0240);
    assert_eq!(le32(&bank, 100), 44100);
    assert_eq!(le16(&bank, 104), 255);
    assert_eq!(le16(&bank, 106), 128);
    assert_eq!(le16(&bank, 108), 128);
    assert_eq!(le16(&bank, 110), 2);
    assert_eq!(&bank[128..], &data[..]);
    assert_eq!(bank.len(), 133);
}

#[test]
fn bank_round_trip() {
    let a: Vec<u8> = (0..1000u32).map(|i| (i % 251) as u8).collect();
    let b: Vec<u8> = vec![9; 77];
    let entries = vec![
        entry("first.wav", a.clone(), vec![0, 1152, 2303], 2304, 6),
        entry("second-with-a-very-long-name.wav", b.clone(), vec![], 0, 2),
    ];
    let bank = create_fsb4(&entries);
    // directory: 80 + 8 + 3 * 260 = 868, then 80; 48 + 948 = 996, rounded to 1024
    assert_eq!(bank.len(), 1024 + 1077);
    let tracks = parse_fsb4(&bank).unwrap();
    assert_eq!(tracks.len(), 2);
    assert_eq!(tracks[0].filename, "first.wav");
    assert_eq!(tracks[0].sample_len, 2304);
    assert_eq!(tracks[0].compressed_len, 1000);
    assert_eq!(tracks[0].data_offset, 1024);
    assert_eq!(tracks[0].play_mode, 0x8400_0200);
    assert_eq!(tracks[0].sample_rate, 44100);
    assert_eq!(tracks[0].num_channels, 6);
    assert_eq!(tracks[0].startpoints, vec![0, 1152, 2303]);
    assert_eq!(tracks[1].filename, "second-with-a-very-long-name.w");
    assert_eq!(tracks[1].sample_len, 0);
    assert_eq!(tracks[1].compressed_len, 77);
    assert_eq!(tracks[1].data_offset, 2024);
    assert_eq!(tracks[1].play_mode, 0x0000_0240);
    assert!(tracks[1].startpoints.is_empty());
    assert_eq!(&bank[1024..2024], &a[..]);
    assert_eq!(&bank[2024..], &b[..]);
    assert_eq!(le32(&bank, 8), 1024 - 48);
}

#[test]
fn bank_of_no_entries() {
    let bank = create_fsb4(&[]);
    assert_eq!(bank.len(), 64);
    assert_eq!(parse_fsb4(&bank).unwrap().len(), 0);
    assert_eq!(try_create_fsb4(&[]), Some(bank));
}

#[test]
fn parse_errors() {
    assert!(matches!(parse_fsb4(&[0u8; 47]), Err(Fsb4Error::FileTooSmall)));
    let mut bank = create_fsb4(&[entry("x.wav", vec![1, 2, 3], vec![], 10, 2)]);
    let mut bad_magic = bank.clone();
    bad_magic[0] = b'X';
    assert!(matches!(parse_fsb4(&bad_magic), Err(Fsb4Error::NotFsb4)));
    let mut bad_version = bank.clone();
    bad_version[16] = 1;
    assert!(matches!(parse_fsb4(&bad_version), Err(Fsb4Error::UnsupportedVersion(0x0004_0001))));
    let short = &bank[..bank.len() - 1];
    assert!(matches!(parse_fsb4(short), Err(Fsb4Error::Truncated { need: 131, have: 130 })));
    // announce a second entry that the directory does not hold
    bank[4] = 2;
    bank[8] = 0;
    bank[12] = 0;
    let tail = bank.len();
    bank.truncate(tail.min(48 + 80 + 40));
    assert!(matches!(parse_fsb4(&bank), Err(Fsb4Error::TruncatedAtEntry(1))));
}

#[test]
fn parse_gives_up_on_overrunning_startpoints() {
    let mut bank = create_fsb4(&[entry("x.wav", vec![], vec![5, 6], 10, 2)]);
    // claim more startpoints than the bank holds
    bank[48 + 84] = 200;
    assert!(try_parse_fsb4(&bank).is_none());
    let ok = create_fsb4(&[entry("x.wav", vec![], vec![5, 6], 10, 2)]);
    assert_eq!(try_parse_fsb4(&ok).unwrap().unwrap()[0].startpoints, vec![5, 6]);
}

#[test]
fn invalid_utf8_names_are_replaced() {
    let mut bank = create_fsb4(&[entry("ab.wav", vec![], vec![], 1, 2)]);
    bank[50] = 0xC3;
    bank[51] = 0x28;
    let tracks = parse_fsb4(&bank).unwrap();
    assert_eq!(tracks[0].filename, "\u{FFFD}(.wav");
}

#[test]
fn entry_length_field_wraps_past_251_startpoints() {
    let fits = create_fsb4(&[entry("x.wav", vec![], vec![0; 251], 1, 2)]);
    assert_eq!(le16(&fits, 48) as usize, 80 + 8 + 260 * 251);
    assert_eq!(parse_fsb4(&fits).unwrap()[0].startpoints.len(), 251);
    let wraps = try_create_fsb4(&[entry("x.wav", vec![], vec![0; 252], 1, 2)]).unwrap();
    assert_eq!(le16(&wraps, 48) as usize, (80 + 8 + 260 * 252) % 65536);
}

#[test]
fn build_single_track() {
    let mut mp3 = frame(0x11);
    mp3.extend_from_slice(&frame(0x12));
    let bank = try_build_fsb4(&["music/song.mp3"], &[mp3.clone()], 8).unwrap().unwrap();
    let tracks = parse_fsb4(&bank).unwrap();
    assert_eq!(tracks.len(), 1);
    let t = &tracks[0];
    assert_eq!(t.filename, "song.wav");
    assert_eq!(t.num_channels, 2);
    assert_eq!(t.sample_len, 2 * 1152);
    // 8 startpoints over 2304 samples, snapped to frames and capped at the last sample
    assert_eq!(t.startpoints.len(), 8);
    assert_eq!(t.play_mode, 0x8000_0240);
    let data = &bank[t.data_offset..t.data_offset + t.compressed_len as usize];
    assert_eq!(data.len(), 418 * 2);
    assert_eq!(deinterleave_track(data, t.num_channels).unwrap(), vec![mp3]);
}

#[test]
fn build_multichannel_tracks() {
    let p: Vec<Vec<u8>> = (0..4u8).map(|i| {
        let mut v = frame(0x10 + i);
        v.extend_from_slice(&frame(0x20 + i));
        v
    }).collect();
    let names = ["a.mp3", "b.mp3", "c.mp3", "d.mp3"];
    let bank = try_build_fsb4(&names, &p, 7).unwrap().unwrap();
    let tracks = parse_fsb4(&bank).unwrap();
    assert_eq!(tracks.len(), 2);
    assert_eq!(tracks[0].filename, "a.wav");
    assert_eq!(tracks[0].num_channels, 6);
    assert_eq!(tracks[0].play_mode, 0x8400_0200);
    assert_eq!(tracks[0].startpoints.len(), 7);
    assert_eq!(tracks[1].filename, "d.wav");
    assert_eq!(tracks[1].num_channels, 2);
    assert!(tracks[1].startpoints.is_empty());
    assert_eq!(tracks[1].play_mode, 0x0000_0240);
    let t = &tracks[0];
    let data = &bank[t.data_offset..t.data_offset + t.compressed_len as usize];
    assert_eq!(deinterleave_track(data, t.num_channels).unwrap(), vec![p[0].clone(), p[1].clone(), p[2].clone()]);
}

#[test]
fn build_reports_missing_frames() {
    let r = try_build_fsb4(&["x.mp3"], &[vec![0u8; 100]], 8);
    assert_eq!(r, Some(Err("no MP3 frames found".to_string())));
    let entries = try_build_entries(&["x.mp3"], &[frame(1)], u32::MAX as usize);
    assert!(entries.is_none());
}

#[test]
fn default_startpoint_counts() {
    assert_eq!(default_startpoints(1), 8);
    assert_eq!(default_startpoints(3), 8);
    assert_eq!(default_startpoints(4), 7);
    assert_eq!(default_startpoints(0), 7);
    assert_eq!(default_startpoints(usize::MAX), 7);
}

#[test]
fn track_extract_ranges_and_names() {
    let bank = create_fsb4(&[
        entry("one.wav", vec![1; 10], vec![], 1, 2),
        entry("two.wav", vec![2; 5], vec![], 1, 2),
    ]);
    let tracks = parse_fsb4(&bank).unwrap();
    let x = track_extract(bank.len(), 2, 1, &tracks[1]).unwrap();
    assert_eq!(x.end - x.start, 5);
    assert_eq!(x.end, bank.len());
    assert_eq!(x.stem, "two");
    assert_eq!(x.number, Some(1));
    let single = track_extract(bank.len(), 1, 0, &tracks[0]).unwrap();
    assert_eq!(single.number, None);
    assert_eq!(single.stem, "one");
    assert!(track_extract(bank.len() - 1, 2, 1, &tracks[1]).is_none());
}
