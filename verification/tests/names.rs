use lib::utils::{extract_filename, filename_to_array, track_stem};

#[test]
fn file_names_from_paths() {
    assert_eq!(extract_filename("/music/stems/song.mp3"), "song.mp3");
    assert_eq!(extract_filename("song.mp3"), "song.mp3");
    assert_eq!(extract_filename("/"), "audio.mp3");
    assert_eq!(extract_filename("music/.."), "audio.mp3");
    assert_eq!(extract_filename(""), "audio.mp3");
}

#[test]
fn stems_from_paths() {
    assert_eq!(track_stem("dir/song.mp3"), "song");
    assert_eq!(track_stem("dir/archive.tar.gz"), "archive.tar");
    assert_eq!(track_stem(".hidden"), ".hidden");
    assert_eq!(track_stem(""), "track");
    assert_eq!(track_stem("dir/a."), "a");
    assert_eq!(track_stem("x/..a"), ".");
    assert_eq!(track_stem("x/\u{e9}t\u{e9}.mp3"), "\u{e9}t\u{e9}");
    assert_eq!(track_stem("x/noext"), "noext");
    assert_eq!(track_stem("x/.."), "track");
}

#[test]
fn name_field_is_truncated_and_zero_filled() {
    let mut expected = [0u8; 30];
    expected[..3].copy_from_slice(b"abc");
    assert_eq!(filename_to_array("abc"), expected);
    let long = "0123456789012345678901234567890123456789";
    assert_eq!(&filename_to_array(long)[..], &long.as_bytes()[..30]);
    assert_eq!(filename_to_array(""), [0u8; 30]);
}
