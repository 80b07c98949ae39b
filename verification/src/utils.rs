//! File names and MPEG sync markers.
use vstd::prelude::*;
use crate::buffer::zeros;
use crate::fsb4::name_field;
use crate::mp3::sync_at;
use vstd::utf8::encode_utf8;
use vstd::string::StrSliceExecFns;

verus! {

/// The last component of `path`, as `std::path::Path::file_name` finds it.
pub uninterp spec fn path_file_name(path: Seq<char>) -> Option<Seq<char>>;

/// The index of the last '.' in `name`, or -1 when it has none.
pub open spec fn last_dot(name: Seq<char>) -> int
    decreases name.len(),
{
    if name.len() == 0 {
        -1
    } else if name.last() == '.' {
        name.len() - 1
    } else {
        last_dot(name.drop_last())
    }
}

/// A file name without its extension: the part before its last '.', or the
/// whole name when it has no '.' or its only '.' opens it.
pub open spec fn name_stem(name: Seq<char>) -> Seq<char> {
    if last_dot(name) > 0 {
        name.take(last_dot(name))
    } else {
        name
    }
}

/// The file stem of `path`, as `std::path::Path::file_stem` documents it:
/// the stem of the path's file name, if it has one.
pub open spec fn path_file_stem(path: Seq<char>) -> Option<Seq<char>> {
    match path_file_name(path) {
        Some(n) => Some(name_stem(n)),
        None => None,
    }
}

/// Calls `std::path::Path::file_name` on `path`. Claims only that the result
/// is the named function of the path's text; which component that is, is
/// left unsaid.
#[verifier::external_body]
fn file_name_of(path: &str) -> (r: Option<&str>)
    ensures
        match r {
            Some(n) => path_file_name(path@) == Some(n@),
            None => path_file_name(path@) is None,
        },
{
    match std::path::Path::new(path).file_name() {
        Some(n) => n.to_str(),
        None => None,
    }
}

/// The stem of a file name: the part before its last '.', unless that dot
/// opens the name or there is none.
fn stem_of_name(name: &str) -> (stem: &str)
    ensures
        stem@ == name_stem(name@),
{
    let len = name.unicode_len();
    let mut i = len;
    assert(name@.take(len as int) =~= name@);
    while i > 0
        invariant
            len == name@.len(),
            i <= len,
            last_dot(name@) == last_dot(name@.take(i as int)),
        decreases i,
    {
        let c = name.get_char(i - 1);
        let ghost pre = name@.take(i as int);
        assert(pre.last() == c);
        if c == '.' {
            if i - 1 > 0 {
                return name.substring_char(0, i - 1);
            } else {
                return name;
            }
        }
        assert(pre.drop_last() =~= name@.take(i - 1));
        i = i - 1;
    }
    name
}
/// Get filename from a path, fallback to default if invalid
pub fn extract_filename(path: &str) -> (name: &str)
    ensures
        name@ == match path_file_name(path@) {
            Some(n) => n,
            None => "audio.mp3"@,
        },
{
    match file_name_of(path) {
        Some(n) => n,
        None => "audio.mp3",
    }
}

/// The name a track takes from its path: the path's file stem, or "track".
pub fn track_stem(path: &str) -> (stem: String)
    ensures
        stem@ == match path_file_stem(path@) {
            Some(s) => s,
            None => "track"@,
        },
{
    match file_name_of(path) {
        Some(n) => stem_of_name(n).to_string(),
        None => "track".to_string(),
    }
}

/// Copy filename into a fixed 30-byte array (FSB4 requirement)
pub fn filename_to_array(filename: &str) -> (arr: [u8; 30])
    ensures
        arr@ == name_field(encode_utf8(filename@)),
{
    let mut arr = [0u8; 30];
    let bytes = filename.as_bytes();
    let len = if bytes.len() < 30 { bytes.len() } else { 30 };
    let mut i: usize = 0;
    while i < len
        invariant
            len <= 30,
            len <= bytes@.len(),
            bytes@ == encode_utf8(filename@),
            i <= len,
            arr@.len() == 30,
            forall|k: int| 0 <= k < i ==> arr@[k] == bytes@[k],
            forall|k: int| i <= k < 30 ==> arr@[k] == 0,
        decreases len - i,
    {
        arr[i] = bytes[i];
        i = i + 1;
    }
    assert(arr@ =~= name_field(encode_utf8(filename@))) by {
        let n = encode_utf8(filename@);
        if n.len() < 30 {
            assert(name_field(n) == n + zeros(30 - n.len()));
        }
    }
    arr
}

/// Check if two bytes form an MP3 frame sync marker
pub fn is_mp3_sync(data: &[u8], offset: usize) -> (b: bool)
    requires
        offset + 2 <= usize::MAX,
    ensures
        b == (offset + 2 <= data@.len() && sync_at(data@, offset as int)),
{
    offset + 2 <= data.len() && data[offset] == 0xFF && (data[offset + 1] & 0xE0) == 0xE0
}

/// Scan forward to find the next MP3 sync marker
pub fn find_mp3_sync(data: &[u8], start: usize) -> (r: Option<usize>)
    requires
        start + 2 <= usize::MAX,
    ensures
        match r {
            Some(o) => {
                &&& start <= o
                &&& o + 2 <= data@.len()
                &&& sync_at(data@, o as int)
                &&& forall|k: int| start <= k < o ==> !sync_at(data@, k)
            },
            None => forall|k: int| start <= k && k + 2 <= data@.len() ==> !sync_at(data@, k),
        },
{
    let mut offset = start;
    while offset <= data.len() && data.len() - offset >= 2
        invariant
            start <= offset,
            start + 2 <= usize::MAX,
            forall|k: int| start <= k < offset ==> !sync_at(data@, k),
        decreases data@.len() - offset,
    {
        if is_mp3_sync(data, offset) {
            return Some(offset);
        }
        offset += 1;
    }
    None
}

} // verus!

verus! {

proof fn lemma_last_dot(name: Seq<char>)
    ensures
        -1 <= last_dot(name) < name.len(),
        last_dot(name) >= 0 ==> name[last_dot(name)] == '.',
        forall|i: int| last_dot(name) < i < name.len() ==> #[trigger] name[i] != '.',
    decreases name.len(),
{
    if name.len() > 0 && name.last() != '.' {
        lemma_last_dot(name.drop_last());
        assert forall|i: int| last_dot(name) < i < name.len() implies #[trigger] name[i] != '.' by {
            if i < name.len() - 1 {
                assert(name[i] == name.drop_last()[i]);
            }
        }
    }
}

/// A file name's stem is the name cut before its last '.', when that dot is
/// not the name's first character: then the stem is not empty, a '.' follows
/// it, and no '.' comes after that one. Otherwise (no '.' after the first
/// character) the stem is the whole name.
pub proof fn lemma_name_stem_cut(name: Seq<char>)
    ensures
        ({
            let s = name_stem(name);
            ||| s == name && forall|i: int| 0 < i < name.len() ==> #[trigger] name[i] != '.'
            ||| {
                &&& 0 < s.len() < name.len()
                &&& name.take(s.len() as int) == s
                &&& name[s.len() as int] == '.'
                &&& forall|i: int| s.len() < i < name.len() ==> #[trigger] name[i] != '.'
            }
        }),
{
    lemma_last_dot(name);
    if last_dot(name) <= 0 {
        assert forall|i: int| 0 < i < name.len() implies #[trigger] name[i] != '.' by {}
    } else {
        assert(name.take(last_dot(name)).len() == last_dot(name));
    }
}

/// Two bytes carry a frame sync marker exactly when the first is 0xFF and
/// the second has its three top bits set (0xE0 or more).
pub proof fn lemma_sync_marker(data: Seq<u8>, off: int)
    ensures
        sync_at(data, off) <==> data[off] == 0xFF && data[off + 1] >= 0xE0,
{
    let b = data[off + 1];
    assert((b & 0xE0) == 0xE0 <==> b >= 0xE0) by (bit_vector);
}

} // verus!
