//! Scanning MPEG-1 Layer III frames in raw MP3 data, padding them, and
//! interleaving and de-interleaving them across stereo pairs.
use vstd::prelude::*;
use crate::buffer::{push_range, push_zeros, zeros};
use crate::helpers::{
    bitrate_table, lemma_table_bounds, read_be_u32, sample_rate_table, spec_be_u32_at,
    spec_parse_mp3_frame_header,
};

verus! {

/// Whether the two bytes at `off` carry an MPEG frame sync marker.
pub open spec fn sync_at(data: Seq<u8>, off: int) -> bool {
    data[off] == 0xFF && (data[off + 1] & 0xE0) == 0xE0
}

/// The length of the MPEG-1 Layer III frame whose 4-byte header starts at
/// `off`, or `None` when no such frame header starts there.
pub open spec fn frame_len_at(data: Seq<u8>, off: int) -> Option<int> {
    if sync_at(data, off) {
        let header = spec_be_u32_at(data, off);
        let version = (header >> 19) & 3;
        let layer = (header >> 17) & 3;
        let br_idx = (header >> 12) & 0xF;
        let sr_idx = (header >> 10) & 3;
        let padding = (header >> 9) & 1;
        let sr = sample_rate_table()[version as int][sr_idx as int];
        let br = bitrate_table()[3][br_idx as int];
        if sr > 0 && br > 0 && version == 3 && layer == 1 {
            Some(144 * br * 1000 / (sr as int) + padding)
        } else {
            None
        }
    } else {
        None
    }
}

/// Every MPEG-1 Layer III frame is at least 96 and at most 1441 bytes long.
pub proof fn lemma_frame_len_bounds(data: Seq<u8>, off: int)
    requires
        0 <= off,
        off + 4 <= data.len(),
    ensures
        frame_len_at(data, off) matches Some(n) ==> 96 <= n <= 1441,
{
    if let Some(n) = frame_len_at(data, off) {
        let header = spec_be_u32_at(data, off);
        let version = (header >> 19) & 3;
        let br_idx = (header >> 12) & 0xF;
        let sr_idx = (header >> 10) & 3;
        let padding = (header >> 9) & 1;
        assert((header >> 19) & 3 < 4 && (header >> 12) & 0xF < 16 && (header >> 10) & 3 < 4
            && (header >> 9) & 1 < 2) by (bit_vector);
        let sr = sample_rate_table()[version as int][sr_idx as int];
        let br = bitrate_table()[3][br_idx as int];
        let row = bitrate_table()[3];
        assert(forall|i: int| 0 <= i < 16 ==> #[trigger] row[i] == 0 || 32 <= row[i] <= 320);
        let srow = sample_rate_table()[3];
        assert(forall|i: int| 0 <= i < 4 ==> #[trigger] srow[i] == 0 || 32000 <= srow[i] <= 48000);
        assert(32 <= br <= 320);
        assert(32000 <= sr <= 48000);
        let b = br as int;
        let s = sr as int;
        assert(144 * b * 1000 / s >= 96 && 144 * b * 1000 / s <= 1440) by (nonlinear_arith)
            requires
                32 <= b <= 320,
                32000 <= s <= 48000,
        {
            assert(144 * b * 1000 >= 96 * s);
            assert(144 * b * 1000 <= 1440 * s + 0);
        }
    }
}

/// The frames found by scanning `data` from `off`: at each position, a frame
/// that fits is taken whole, a frame that does not fit ends the scan, and any
/// other byte is skipped.
pub open spec fn frames_from(data: Seq<u8>, off: int) -> Seq<(usize, usize)>
    decreases data.len() - off,
{
    if off < 0 || off + 4 > data.len() {
        Seq::empty()
    } else {
        match frame_len_at(data, off) {
            Some(n) => {
                if n <= 0 || off + n > data.len() {
                    Seq::empty()
                } else {
                    seq![(off as usize, n as usize)] + frames_from(data, off + n)
                }
            },
            None => frames_from(data, off + 1),
        }
    }
}

/// All frames of `data`, scanning from its start.
pub open spec fn spec_frames(data: Seq<u8>) -> Seq<(usize, usize)> {
    frames_from(data, 0)
}

/// The frames are in order, do not overlap, lie inside `data`, and each is
/// the frame whose header starts at its offset.
pub open spec fn frames_well_formed(data: Seq<u8>, frames: Seq<(usize, usize)>) -> bool {
    &&& forall|i: int|
        0 <= i < frames.len() ==> {
            &&& frame_len_at(data, #[trigger] frames[i].0 as int) == Some(frames[i].1 as int)
            &&& frames[i].0 + frames[i].1 <= data.len()
            &&& 96 <= frames[i].1 <= 1441
        }
    &&& forall|i: int, j: int|
        0 <= i < j < frames.len() ==> #[trigger] frames[i].0 + frames[i].1 <= #[trigger] frames[j].0
}

/// Scanning from `off` yields well-formed frames that all start at or after `off`.
pub proof fn lemma_frames_from_well_formed(data: Seq<u8>, off: int)
    requires
        0 <= off,
        data.len() <= usize::MAX,
    ensures
        frames_well_formed(data, frames_from(data, off)),
        forall|i: int| 0 <= i < frames_from(data, off).len() ==> off <= #[trigger] frames_from(data, off)[i].0,
    decreases data.len() - off,
{
    if off + 4 > data.len() {
    } else {
        lemma_frame_len_bounds(data, off);
        match frame_len_at(data, off) {
            Some(n) => {
                if n <= 0 || off + n > data.len() {
                } else {
                    lemma_frames_from_well_formed(data, off + n);
                    let rest = frames_from(data, off + n);
                    let all = frames_from(data, off);
                    assert(all == seq![(off as usize, n as usize)] + rest);
                    assert forall|i: int| 0 <= i < all.len() implies off <= #[trigger] all[i].0 by {
                        if i > 0 {
                            assert(all[i] == rest[i - 1]);
                        }
                    }
                    assert forall|i: int, j: int| 0 <= i < j < all.len() implies #[trigger] all[i].0
                        + all[i].1 <= #[trigger] all[j].0 by {
                        assert(all[j] == rest[j - 1]);
                        if i > 0 {
                            assert(all[i] == rest[i - 1]);
                        }
                    }
                    assert forall|i: int| 0 <= i < all.len() implies {
                        &&& frame_len_at(data, #[trigger] all[i].0 as int) == Some(all[i].1 as int)
                        &&& all[i].0 + all[i].1 <= data.len()
                        &&& 96 <= all[i].1 <= 1441
                    } by {
                        if i > 0 {
                            assert(all[i] == rest[i - 1]);
                        }
                    }
                }
            },
            None => {
                lemma_frames_from_well_formed(data, off + 1);
            },
        }
    }
}

/// Find every MPEG-1 Layer III frame in `data`, as (offset, length) pairs.
pub fn find_mp3_frame_offsets(data: &[u8]) -> (frames: Vec<(usize, usize)>)
    ensures
        frames@ == spec_frames(data@),
        frames_well_formed(data@, frames@),
{
    let n = data.len();
    proof {
        lemma_frames_from_well_formed(data@, 0);
    }
    let mut frames: Vec<(usize, usize)> = Vec::new();
    let mut off: usize = 0;
    while data.len() >= 4 && off <= data.len() - 4
        invariant_except_break
            off <= data@.len(),
            frames@ + frames_from(data@, off as int) == spec_frames(data@),
        ensures
            frames@ == spec_frames(data@),
        decreases data@.len() - off,
    {
        if data[off] == 0xFF && (data[off + 1] & 0xE0) == 0xE0 {
            let header = read_be_u32(data, off);
            let version = (header >> 19) & 3;
            let layer = (header >> 17) & 3;
            let br_idx = (header >> 12) & 0xF;
            let sr_idx = (header >> 10) & 3;
            let padding = (header >> 9) & 1;
            assert((header >> 19) & 3 < 4 && (header >> 12) & 0xF < 16 && (header >> 10) & 3 < 4
                && (header >> 9) & 1 < 2) by (bit_vector);

            let rates: [[u32; 4]; 4] = [
                [11025, 12000, 8000, 0],
                [0, 0, 0, 0],
                [22050, 24000, 16000, 0],
                [44100, 48000, 32000, 0],
            ];
            let bitrates: [u32; 16] = [0, 32, 40, 48, 56, 64, 80, 96, 112, 128, 160, 192, 224, 256, 320, 0];
            let sr = rates[version as usize][sr_idx as usize];
            let br = bitrates[br_idx as usize];
            assert(sr == sample_rate_table()[version as int][sr_idx as int]);
            assert(br == bitrate_table()[3][br_idx as int]);

            if sr > 0 && br > 0 && version == 3 && layer == 1 {
                proof {
                    lemma_table_bounds(3, br_idx, sr_idx);
                    lemma_frame_len_bounds(data@, off as int);
                }
                let frame_size = (144 * br * 1000 / sr + padding) as usize;
                if frame_size > data.len() - off {
                    break;
                }
                frames.push((off, frame_size));
                off += frame_size;
                assert(frames@ + frames_from(data@, off as int) =~= spec_frames(data@));
                continue;
            }
        }
        off += 1;
    }
    frames
}

} // verus!

verus! {

/// The bytes of one frame.
pub open spec fn frame_bytes(data: Seq<u8>, frame: (usize, usize)) -> Seq<u8> {
    data.subrange(frame.0 as int, frame.0 + frame.1)
}

/// The number of zero bytes that bring `size` up to a multiple of `alignment`.
pub open spec fn pad_len(size: int, alignment: int) -> int {
    (alignment - size % alignment) % alignment
}

/// One frame followed by the zero bytes that align its end.
pub open spec fn padded_frame(data: Seq<u8>, frame: (usize, usize), alignment: int) -> Seq<u8> {
    frame_bytes(data, frame) + zeros(pad_len(frame.1 as int, alignment))
}

/// The frames in order, each followed by its alignment padding.
pub open spec fn padded_frames(data: Seq<u8>, frames: Seq<(usize, usize)>, alignment: int) -> Seq<u8>
    decreases frames.len(),
{
    if frames.len() == 0 {
        Seq::empty()
    } else {
        padded_frames(data, frames.drop_last(), alignment) + padded_frame(
            data,
            frames.last(),
            alignment,
        )
    }
}

/// A frame padded to `alignment` is a whole number of alignment units long.
pub proof fn lemma_padded_frame_aligned(size: int, alignment: int)
    requires
        size >= 0,
        alignment > 0,
    ensures
        (size + pad_len(size, alignment)) % alignment == 0,
        0 <= pad_len(size, alignment) < alignment,
{
    let r = size % alignment;
    vstd::arithmetic::div_mod::lemma_fundamental_div_mod(size, alignment);
    if r == 0 {
        assert(pad_len(size, alignment) == 0) by {
            vstd::arithmetic::div_mod::lemma_mod_self_0(alignment);
        }
    } else {
        assert(pad_len(size, alignment) == alignment - r) by {
            vstd::arithmetic::div_mod::lemma_small_mod((alignment - r) as nat, alignment as nat);
        }
        assert(size + alignment - r == alignment * (size / alignment + 1)) by (nonlinear_arith)
            requires
                size == alignment * (size / alignment) + r,
        ;
        vstd::arithmetic::div_mod::lemma_mod_multiples_basic(size / alignment + 1, alignment);
        vstd::arithmetic::mul::lemma_mul_is_commutative(alignment, size / alignment + 1);
    }
}

/// A padded frame is the frame's own bytes, then zero bytes, up to the
/// least multiple of `alignment` that holds the frame.
pub proof fn lemma_padded_frame_layout(data: Seq<u8>, frame: (usize, usize), alignment: int)
    requires
        alignment > 0,
        frame.0 + frame.1 <= data.len(),
    ensures
        (padded_frame(data, frame, alignment).len() as int) % alignment == 0,
        frame.1 <= padded_frame(data, frame, alignment).len() < frame.1 + alignment,
        forall|j: int| 0 <= j < frame.1 ==> #[trigger] padded_frame(data, frame, alignment)[j] == data[frame.0 + j],
        forall|j: int| frame.1 <= j < padded_frame(data, frame, alignment).len()
            ==> #[trigger] padded_frame(data, frame, alignment)[j] == 0,
{
    lemma_padded_frame_aligned(frame.1 as int, alignment);
}

/// Padded frames fill a whole number of alignment units.
pub proof fn lemma_padded_frames_aligned(data: Seq<u8>, frames: Seq<(usize, usize)>, alignment: int)
    requires
        alignment > 0,
        frames_well_formed(data, frames),
    ensures
        (padded_frames(data, frames, alignment).len() as int) % alignment == 0,
    decreases frames.len(),
{
    if frames.len() > 0 {
        let init = frames.drop_last();
        assert(frames_well_formed(data, init)) by {
            assert forall|i: int| 0 <= i < init.len() implies #[trigger] init[i] == frames[i] by {}
        }
        lemma_padded_frames_aligned(data, init, alignment);
        let f = frames.last();
        assert(frames[frames.len() - 1] == f);
        lemma_padded_frame_aligned(f.1 as int, alignment);
        let a = padded_frames(data, init, alignment).len() as int;
        let b = padded_frame(data, f, alignment).len() as int;
        assert(b == f.1 + pad_len(f.1 as int, alignment));
        vstd::arithmetic::div_mod::lemma_add_mod_noop(a, b, alignment);
        vstd::arithmetic::div_mod::lemma_mod_self_0(alignment);
        assert(0int % alignment == 0) by {
            vstd::arithmetic::div_mod::lemma_small_mod(0, alignment as nat);
        }
    }
}

/// Copy every MP3 frame of `data`, each padded with zero bytes to a multiple
/// of `alignment`.
pub fn pad_mp3_frames(data: &[u8], alignment: usize) -> (r: Result<Vec<u8>, String>)
    requires
        spec_frames(data@).len() > 0 ==> {
            &&& alignment > 0
            &&& data@.len() + spec_frames(data@).len() * alignment <= isize::MAX
        },
    ensures
        match r {
            Ok(out) => {
                &&& spec_frames(data@).len() > 0
                &&& out@ == padded_frames(data@, spec_frames(data@), alignment as int)
                &&& (out@.len() as int) % (alignment as int) == 0
            },
            Err(e) => spec_frames(data@).len() == 0 && e@ == "no MP3 frames found"@,
        },
{
    let frames = find_mp3_frame_offsets(data);
    if frames.len() == 0 {
        return Err("no MP3 frames found".to_string());
    }
    let n = data.len();
    let mut output = Vec::with_capacity(n + frames.len() * alignment);
    let mut i: usize = 0;
    while i < frames.len()
        invariant
            n == data@.len(),
            i <= frames@.len(),
            alignment > 0,
            frames@ == spec_frames(data@),
            frames_well_formed(data@, frames@),
            output@ == padded_frames(data@, frames@.take(i as int), alignment as int),
        decreases frames@.len() - i,
    {
        let (off, size) = frames[i];
        assert(frames@[i as int].0 + frames@[i as int].1 <= data@.len());
        push_range(&mut output, data, off, off + size);
        let pad = (alignment - (size % alignment)) % alignment;
        push_zeros(&mut output, pad);
        i = i + 1;
        assert(frames@.take(i as int).drop_last() =~= frames@.take(i - 1));
        assert(frames@.take(i as int).last() == frames@[i - 1]);
    }
    assert(frames@.take(i as int) =~= frames@);
    proof {
        lemma_padded_frames_aligned(data@, frames@, alignment as int);
    }
    Ok(output)
}

} // verus!

verus! {

/// The byte contents of each input.
pub open spec fn slice_views(inputs: Seq<&[u8]>) -> Seq<Seq<u8>> {
    inputs.map_values(|s: &[u8]| s@)
}

/// The smallest frame count among the inputs (0 for no input).
pub open spec fn min_frame_count(pairs: Seq<Seq<u8>>) -> int
    decreases pairs.len(),
{
    if pairs.len() == 0 {
        0
    } else if pairs.len() == 1 {
        spec_frames(pairs[0]).len() as int
    } else {
        let m = min_frame_count(pairs.drop_last());
        let k = spec_frames(pairs.last()).len() as int;
        if k < m { k } else { m }
    }
}

/// Frame `fi` of each of the first `n` inputs, each padded to 16 bytes.
pub open spec fn interleave_row(pairs: Seq<Seq<u8>>, fi: int, n: int) -> Seq<u8>
    decreases n,
{
    if n <= 0 {
        Seq::empty()
    } else {
        interleave_row(pairs, fi, n - 1) + padded_frame(
            pairs[n - 1],
            spec_frames(pairs[n - 1])[fi],
            16,
        )
    }
}

/// The first `rows` rows of interleaved frames.
pub open spec fn interleaved(pairs: Seq<Seq<u8>>, rows: int) -> Seq<u8>
    decreases rows,
{
    if rows <= 0 {
        Seq::empty()
    } else {
        interleaved(pairs, rows - 1) + interleave_row(pairs, rows - 1, pairs.len() as int)
    }
}

/// The smallest frame count is at most the frame count of each input, and is
/// the frame count of one of them.
pub proof fn lemma_min_frame_count(pairs: Seq<Seq<u8>>)
    requires
        pairs.len() > 0,
    ensures
        forall|i: int| 0 <= i < pairs.len() ==> min_frame_count(pairs) <= #[trigger] spec_frames(pairs[i]).len(),
        exists|i: int| 0 <= i < pairs.len() && min_frame_count(pairs) == #[trigger] spec_frames(pairs[i]).len(),
        min_frame_count(pairs) >= 0,
    decreases pairs.len(),
{
    if pairs.len() == 1 {
        assert(min_frame_count(pairs) == spec_frames(pairs[0]).len());
    } else {
        let init = pairs.drop_last();
        lemma_min_frame_count(init);
        assert forall|i: int| 0 <= i < pairs.len() implies min_frame_count(pairs) <= #[trigger] spec_frames(pairs[i]).len() by {
            if i < pairs.len() - 1 {
                assert(pairs[i] == init[i]);
            }
        }
        let m = min_frame_count(init);
        let k = spec_frames(pairs.last()).len() as int;
        if k < m {
            assert(min_frame_count(pairs) == spec_frames(pairs[pairs.len() - 1]).len());
        } else {
            let j = choose|j: int| 0 <= j < init.len() && m == #[trigger] spec_frames(init[j]).len();
            assert(pairs[j] == init[j]);
            assert(min_frame_count(pairs) == spec_frames(pairs[j]).len());
        }
    }
}

/// Interleave the MP3 frames of several stereo pairs: frame 0 of every pair,
/// then frame 1 of every pair, and so on, as many rows as the pair with the
/// fewest frames has; each frame is padded with zeros to a multiple of 16 bytes.
pub fn interleave_pairs(pair_data: &[&[u8]]) -> (r: Result<Vec<u8>, String>)
    ensures
        match r {
            Ok(out) => {
                &&& pair_data@.len() > 0
                &&& out@ == interleaved(
                    slice_views(pair_data@),
                    min_frame_count(slice_views(pair_data@)),
                )
                &&& (out@.len() as int) % 16 == 0
            },
            Err(e) => pair_data@.len() == 0 && e@ == "no pair data"@,
        },
{
    if pair_data.len() == 0 {
        return Err("no pair data".to_string());
    }
    let ghost views = slice_views(pair_data@);
    let pairs = pair_data.len();
    let mut pair_frames: Vec<Vec<(usize, usize)>> = Vec::new();
    let mut i: usize = 0;
    while i < pairs
        invariant
            pairs == pair_data@.len(),
            views == slice_views(pair_data@),
            i <= pairs,
            pair_frames@.len() == i,
            forall|j: int| 0 <= j < i ==> {
                &&& #[trigger] pair_frames@[j]@ == spec_frames(views[j])
                &&& frames_well_formed(views[j], pair_frames@[j]@)
                &&& views[j].len() <= usize::MAX
            },
        decreases pairs - i,
    {
        let src: &[u8] = pair_data[i];
        let _len = src.len();
        let f = find_mp3_frame_offsets(src);
        pair_frames.push(f);
        i = i + 1;
    }

    assert forall|j: int| 0 <= j < pairs implies #[trigger] views[j].len() <= usize::MAX by {
        assert(pair_frames@[j]@ == spec_frames(views[j]));
    }
    let mut frame_count = pair_frames[0].len();
    let mut i: usize = 1;
    while i < pairs
        invariant
            pairs == pair_data@.len(),
            pairs == views.len(),
            views == slice_views(pair_data@),
            1 <= i <= pairs,
            pair_frames@.len() == pairs,
            forall|j: int| 0 <= j < pairs ==> #[trigger] pair_frames@[j]@ == spec_frames(views[j]),
            forall|j: int| 0 <= j < pairs ==> #[trigger] views[j].len() <= usize::MAX,
            frame_count == min_frame_count(views.take(i as int)),
        decreases pairs - i,
    {
        let k = pair_frames[i].len();
        assert(views.take(i + 1).drop_last() =~= views.take(i as int));
        assert(views.take(i + 1).last() == views[i as int]);
        if k < frame_count {
            frame_count = k;
        }
        i = i + 1;
    }
    assert(views.take(pairs as int) =~= views);
    proof {
        lemma_min_frame_count(views);
    }

    let mut output: Vec<u8> = Vec::new();
    let mut fi: usize = 0;
    while fi < frame_count
        invariant
            pairs == pair_data@.len(),
            pairs == views.len(),
            pairs > 0,
            views == slice_views(pair_data@),
            pair_frames@.len() == pairs,
            forall|j: int| 0 <= j < pairs ==> {
                &&& #[trigger] pair_frames@[j]@ == spec_frames(views[j])
                &&& frames_well_formed(views[j], pair_frames@[j]@)
            },
            frame_count == min_frame_count(views),
            forall|j: int| 0 <= j < pairs ==> frame_count <= #[trigger] spec_frames(views[j]).len(),
            forall|j: int| 0 <= j < pairs ==> #[trigger] views[j].len() <= usize::MAX,
            fi <= frame_count,
            output@ == interleaved(views, fi as int),
        decreases frame_count - fi,
    {
        let ghost row_start = output@;
        let mut pi: usize = 0;
        while pi < pairs
            invariant
                pairs == pair_data@.len(),
                pairs == views.len(),
                views == slice_views(pair_data@),
                pair_frames@.len() == pairs,
                forall|j: int| 0 <= j < pairs ==> {
                    &&& #[trigger] pair_frames@[j]@ == spec_frames(views[j])
                    &&& frames_well_formed(views[j], pair_frames@[j]@)
                },
                forall|j: int| 0 <= j < pairs ==> frame_count <= #[trigger] spec_frames(views[j]).len(),
                fi < frame_count,
                pi <= pairs,
                output@ == row_start + interleave_row(views, fi as int, pi as int),
            decreases pairs - pi,
        {
            let frames_of_pair = &pair_frames[pi];
            assert(frames_of_pair@ == spec_frames(views[pi as int]));
            assert(frame_count <= spec_frames(views[pi as int]).len());
            let (off, size) = frames_of_pair[fi];
            let src: &[u8] = pair_data[pi];
            assert(src@ == views[pi as int]);
            assert(frames_of_pair@[fi as int].0 + frames_of_pair@[fi as int].1 <= src@.len());
            let n = src.len();
            push_range(&mut output, src, off, off + size);
            let pad = (16 - (size % 16)) % 16;
            push_zeros(&mut output, pad);
            pi = pi + 1;
            assert(output@ =~= row_start + interleave_row(views, fi as int, pi as int));
        }
        fi = fi + 1;
    }
    proof {
        lemma_interleaved_aligned(views, frame_count as int);
    }
    Ok(output)
}

/// The frames `p`, `p + pairs`, `p + 2 * pairs`, ... concatenated.
pub open spec fn pair_stream(data: Seq<u8>, frames: Seq<(usize, usize)>, pairs: int, p: int) -> Seq<u8>
    decreases frames.len() - p,
{
    if pairs <= 0 || p < 0 || p >= frames.len() {
        Seq::empty()
    } else if p + pairs >= frames.len() {
        frame_bytes(data, frames[p])
    } else {
        frame_bytes(data, frames[p]) + pair_stream(data, frames, pairs, p + pairs)
    }
}

/// All frames concatenated.
pub open spec fn concat_frames(data: Seq<u8>, frames: Seq<(usize, usize)>) -> Seq<u8>
    decreases frames.len(),
{
    if frames.len() == 0 {
        Seq::empty()
    } else {
        concat_frames(data, frames.drop_last()) + frame_bytes(data, frames.last())
    }
}

/// The MP3 streams held in one track: a single stream of all frames for a
/// track of at most one stereo pair, else one stream per pair, frames being
/// dealt to the pairs in turn.
pub open spec fn spec_track_streams(data: Seq<u8>, num_channels: u16) -> Seq<Seq<u8>> {
    let frames = spec_frames(data);
    let pairs = (num_channels / 2) as int;
    if pairs <= 1 {
        seq![concat_frames(data, frames)]
    } else {
        Seq::new(pairs as nat, |p: int| pair_stream(data, frames, pairs, p))
    }
}

/// Split the MP3 frames of one track into its stereo-pair streams: one stream
/// of all frames when the track has at most one pair, else frame `i` goes to
/// pair `i % pairs`.
pub fn deinterleave_track(mp3_data: &[u8], num_channels: u16) -> (r: Result<Vec<Vec<u8>>, String>)
    ensures
        match r {
            Ok(streams) => {
                &&& spec_frames(mp3_data@).len() > 0
                &&& streams@.len() == spec_track_streams(mp3_data@, num_channels).len()
                &&& forall|p: int| 0 <= p < streams@.len() ==>
                    #[trigger] streams@[p]@ == spec_track_streams(mp3_data@, num_channels)[p]
            },
            Err(e) => spec_frames(mp3_data@).len() == 0 && e@ == "no MP3 frames found"@,
        },
{
    let frames = find_mp3_frame_offsets(mp3_data);
    let pairs = (num_channels / 2) as usize;

    if frames.len() == 0 {
        return Err("no MP3 frames found".to_string());
    }
    let ghost d = mp3_data@;
    let n = mp3_data.len();

    let mut output: Vec<u8> = Vec::new();
    let mut i: usize = 0;
    while i < frames.len()
        invariant
            i <= frames@.len(),
            frames@ == spec_frames(d),
            d == mp3_data@,
            n == d.len(),
            frames_well_formed(d, frames@),
            output@ == concat_frames(d, frames@.take(i as int)),
        decreases frames@.len() - i,
    {
        let (off, size) = frames[i];
        assert(frames@[i as int].0 + frames@[i as int].1 <= d.len());
        push_range(&mut output, mp3_data, off, off + size);
        i = i + 1;
        assert(frames@.take(i as int).drop_last() =~= frames@.take(i - 1));
        assert(frames@.take(i as int).last() == frames@[i - 1]);
    }
    assert(frames@.take(i as int) =~= frames@);

    if pairs <= 1 {
        let mut streams: Vec<Vec<u8>> = Vec::new();
        streams.push(output);
        return Ok(streams);
    }

    let mut streams: Vec<Vec<u8>> = Vec::new();
    let mut p: usize = 0;
    while p < pairs
        invariant
            pairs == (num_channels / 2) as int,
            pairs > 1,
            p <= pairs,
            frames@ == spec_frames(d),
            d == mp3_data@,
            n == d.len(),
            frames_well_formed(d, frames@),
            streams@.len() == p,
            forall|q: int| 0 <= q < p ==> #[trigger] streams@[q]@ == pair_stream(d, frames@, pairs as int, q),
        decreases pairs - p,
    {
        let mut buf: Vec<u8> = Vec::new();
        let mut fi = p;
        while fi < frames.len()
            invariant
                pairs > 1,
                p < pairs,
                p <= fi,
                frames@ == spec_frames(d),
                d == mp3_data@,
                n == d.len(),
                frames_well_formed(d, frames@),
                buf@ + pair_stream(d, frames@, pairs as int, fi as int) == pair_stream(d, frames@, pairs as int, p as int),
            decreases frames@.len() - fi,
        {
            let (off, size) = frames[fi];
            assert(frames@[fi as int].0 + frames@[fi as int].1 <= d.len());
            push_range(&mut buf, mp3_data, off, off + size);
            if pairs >= frames.len() - fi {
                fi = frames.len();
            } else {
                fi = fi + pairs;
            }
            assert(buf@ + pair_stream(d, frames@, pairs as int, fi as int) =~= pair_stream(d, frames@, pairs as int, p as int));
        }
        streams.push(buf);
        p = p + 1;
    }
    Ok(streams)
}

} // verus!

verus! {

/// A frame the scanner takes has a header that `parse_mp3_frame_header`
/// accepts as MPEG-1 Layer III, and whose frame size is the frame's length.
pub proof fn lemma_scanned_frame_header(data: Seq<u8>, off: int)
    requires
        0 <= off,
        off + 4 <= data.len(),
        frame_len_at(data, off) is Some,
    ensures
        spec_parse_mp3_frame_header(spec_be_u32_at(data, off)) matches Some(info) && {
            &&& info.version == 3
            &&& info.layer == 1
            &&& info.spec_frame_size() == frame_len_at(data, off)->0
        },
{
    let b0 = data[off];
    let b1 = data[off + 1];
    let b2 = data[off + 2];
    let b3 = data[off + 3];
    let h = spec_be_u32_at(data, off);
    assert(h == ((b0 as u32) << 24) | ((b1 as u32) << 16) | ((b2 as u32) << 8) | (b3 as u32));
    assert(b0 == 0xFF && (b1 & 0xE0) == 0xE0 && h == ((b0 as u32) << 24) | ((b1 as u32) << 16) | ((b2 as u32) << 8) | (b3 as u32)
        ==> (h >> 21) & 0x7FF == 0x7FF) by (bit_vector);
    assert((h >> 19) & 3 < 4 && (h >> 12) & 0xF < 16 && (h >> 10) & 3 < 4 && (h >> 9) & 1 < 2) by (bit_vector);
    let br_idx = (h >> 12) & 0xF;
    let sr_idx = (h >> 10) & 3;
    let row = bitrate_table()[3];
    assert(row[0] == 0 && row[15] == 0);
    let srow = sample_rate_table()[3];
    assert(srow[3] == 0);
    assert(br_idx != 0 && br_idx != 15);
    assert(sr_idx != 3);
}

} // verus!

verus! {

/// A row of interleaved frames fills a whole number of 16-byte units.
proof fn lemma_interleave_row_aligned(pairs: Seq<Seq<u8>>, fi: int, n: int)
    requires
        0 <= n <= pairs.len(),
        0 <= fi,
        forall|p: int| 0 <= p < n ==> #[trigger] pairs[p].len() <= usize::MAX,
        forall|p: int| 0 <= p < n ==> fi < #[trigger] spec_frames(pairs[p]).len(),
    ensures
        (interleave_row(pairs, fi, n).len() as int) % 16 == 0,
    decreases n,
{
    if n > 0 {
        lemma_interleave_row_aligned(pairs, fi, n - 1);
        let d = pairs[n - 1];
        lemma_frames_from_well_formed(d, 0);
        let f = spec_frames(d)[fi];
        assert(f.0 + f.1 <= d.len());
        lemma_padded_frame_aligned(f.1 as int, 16);
        let a = interleave_row(pairs, fi, n - 1).len() as int;
        let b = padded_frame(d, f, 16).len() as int;
        vstd::arithmetic::div_mod::lemma_add_mod_noop(a, b, 16);
    }
}

/// Interleaved rows fill a whole number of 16-byte units.
proof fn lemma_interleaved_aligned(pairs: Seq<Seq<u8>>, rows: int)
    requires
        0 <= rows,
        forall|p: int| 0 <= p < pairs.len() ==> #[trigger] pairs[p].len() <= usize::MAX,
        forall|p: int| 0 <= p < pairs.len() ==> rows <= #[trigger] spec_frames(pairs[p]).len(),
    ensures
        (interleaved(pairs, rows).len() as int) % 16 == 0,
    decreases rows,
{
    if rows > 0 {
        lemma_interleaved_aligned(pairs, rows - 1);
        lemma_interleave_row_aligned(pairs, rows - 1, pairs.len() as int);
        let a = interleaved(pairs, rows - 1).len() as int;
        let b = interleave_row(pairs, rows - 1, pairs.len() as int).len() as int;
        vstd::arithmetic::div_mod::lemma_add_mod_noop(a, b, 16);
    }
}

} // verus!

verus! {

/// Frames moved `m` bytes further on.
pub open spec fn shift_frames(frames: Seq<(usize, usize)>, m: int) -> Seq<(usize, usize)> {
    frames.map_values(|f: (usize, usize)| ((f.0 + m) as usize, f.1))
}

/// Bytes other than 0xFF start no frame: scanning over them changes nothing.
proof fn lemma_scan_skips_non_sync(s: Seq<u8>, a: int, b: int)
    requires
        0 <= a <= b <= s.len(),
        forall|i: int| a <= i < b ==> s[i] != 0xFF,
    ensures
        frames_from(s, a) == frames_from(s, b),
    decreases b - a,
{
    if a < b && a + 4 <= s.len() {
        assert(frame_len_at(s, a) is None);
        lemma_scan_skips_non_sync(s, a + 1, b);
    }
}

/// Scanning `prefix + data` from `prefix.len() + x` finds the frames of
/// `data` from `x`, moved by the prefix's length.
proof fn lemma_scan_shift(prefix: Seq<u8>, data: Seq<u8>, x: int)
    requires
        0 <= x,
        prefix.len() + data.len() <= usize::MAX,
    ensures
        frames_from(prefix + data, prefix.len() + x) == shift_frames(frames_from(data, x), prefix.len() as int),
    decreases data.len() - x,
{
    let s = prefix + data;
    let m = prefix.len() as int;
    if x + 4 > data.len() {
        assert(shift_frames(Seq::<(usize, usize)>::empty(), m) =~= Seq::<(usize, usize)>::empty());
    } else {
        assert(s[m + x] == data[x]);
        assert(s[m + x + 1] == data[x + 1]);
        assert(s[m + x + 2] == data[x + 2]);
        assert(s[m + x + 3] == data[x + 3]);
        assert(frame_len_at(s, m + x) == frame_len_at(data, x));
        match frame_len_at(data, x) {
            Some(n) => {
                if n <= 0 || x + n > data.len() {
                    assert(shift_frames(Seq::<(usize, usize)>::empty(), m) =~= Seq::<(usize, usize)>::empty());
                } else {
                    lemma_scan_shift(prefix, data, x + n);
                    let rest = frames_from(data, x + n);
                    assert(frames_from(data, x) == seq![(x as usize, n as usize)] + rest);
                    assert(frames_from(s, m + x) == seq![((m + x) as usize, n as usize)] + frames_from(s, m + x + n));
                    assert(shift_frames(seq![(x as usize, n as usize)] + rest, m)
                        =~= seq![((m + x) as usize, n as usize)] + shift_frames(rest, m));
                }
            },
            None => {
                lemma_scan_shift(prefix, data, x + 1);
            },
        }
    }
}

/// Data behind a prefix that holds no 0xFF byte scans to the frames of the
/// data alone, moved by the prefix's length.
pub proof fn lemma_scan_after_prefix(prefix: Seq<u8>, data: Seq<u8>)
    requires
        !prefix.contains(0xFF),
        prefix.len() + data.len() <= usize::MAX,
    ensures
        spec_frames(prefix + data) == shift_frames(spec_frames(data), prefix.len() as int),
{
    let s = prefix + data;
    assert forall|i: int| 0 <= i < prefix.len() implies s[i] != 0xFF by {
        assert(s[i] == prefix[i]);
        if prefix[i] == 0xFF {
            assert(prefix.contains(0xFF));
        }
    }
    lemma_scan_skips_non_sync(s, 0, prefix.len() as int);
    lemma_scan_shift(prefix, data, 0);
}

} // verus!

verus! {

/// An MPEG-1 Layer III frame header, bytes 0xFF then 0xFA or 0xFB, starts a
/// frame of `144 * kbps * 1000 / rate + padding` bytes, where the third byte
/// holds the bitrate index (high four bits), the sample-rate index (next two
/// bits) and the padding bit, the bitrates are the standard 32, 40, 48, 56,
/// 64, 80, 96, 112, 128, 160, 192, 224, 256 and 320 kbit/s for indices 1 to
/// 14, and the sample rates 44100, 48000 and 32000 Hz for indices 0 to 2;
/// the free and reserved indices start no frame.
pub proof fn lemma_mpeg1_layer3_frame_len(data: Seq<u8>, off: int)
    requires
        0 <= off,
        off + 4 <= data.len(),
        data[off] == 0xFF,
        data[off + 1] == 0xFA || data[off + 1] == 0xFB,
    ensures
        ({
            let bi = (data[off + 2] >> 4u8) as int;
            let si = ((data[off + 2] >> 2u8) & 3) as int;
            let pad = ((data[off + 2] >> 1u8) & 1) as int;
            let kbps = seq![0int, 32, 40, 48, 56, 64, 80, 96, 112, 128, 160, 192, 224, 256, 320, 0][bi];
            let rate = seq![44100int, 48000, 32000, 0][si];
            frame_len_at(data, off) == if kbps == 0 || rate == 0 {
                None::<int>
            } else {
                Some(144 * kbps * 1000 / rate + pad)
            }
        }),
{
    let b0 = data[off];
    let b1 = data[off + 1];
    let b2 = data[off + 2];
    let b3 = data[off + 3];
    let h = spec_be_u32_at(data, off);
    assert(h == ((b0 as u32) << 24) | ((b1 as u32) << 16) | ((b2 as u32) << 8) | (b3 as u32));
    assert(b0 == 0xFF && (b1 == 0xFA || b1 == 0xFB)
        && h == ((b0 as u32) << 24) | ((b1 as u32) << 16) | ((b2 as u32) << 8) | (b3 as u32) ==> {
        &&& (b1 & 0xE0) == 0xE0
        &&& (h >> 19) & 3 == 3
        &&& (h >> 17) & 3 == 1
        &&& (h >> 12) & 0xF == (b2 >> 4u8) as u32
        &&& (h >> 10) & 3 == ((b2 >> 2u8) & 3) as u32
        &&& (h >> 9) & 1 == ((b2 >> 1u8) & 1) as u32
    }) by (bit_vector);
    assert((b2 >> 4u8) < 16 && ((b2 >> 2u8) & 3) < 4) by (bit_vector);
    let row = bitrate_table()[3];
    let std_kbps = seq![0int, 32, 40, 48, 56, 64, 80, 96, 112, 128, 160, 192, 224, 256, 320, 0];
    assert(forall|i: int| 0 <= i < 16 ==> #[trigger] row[i] as int == std_kbps[i]);
    let srow = sample_rate_table()[3];
    let std_rate = seq![44100int, 48000, 32000, 0];
    assert(forall|i: int| 0 <= i < 4 ==> #[trigger] srow[i] as int == std_rate[i]);
    let bi = (b2 >> 4u8) as int;
    let si = ((b2 >> 2u8) & 3) as int;
    assert(row[bi] as int == std_kbps[bi]);
    assert(srow[si] as int == std_rate[si]);
}

} // verus!

verus! {

/// The bitrate in kbit/s of an MPEG-1 Layer III header's third byte.
pub open spec fn mpeg1_layer3_kbps(b2: u8) -> int {
    seq![0int, 32, 40, 48, 56, 64, 80, 96, 112, 128, 160, 192, 224, 256, 320, 0][(b2 >> 4u8) as int]
}

/// The sample rate in Hz of an MPEG-1 header's third byte.
pub open spec fn mpeg1_rate(b2: u8) -> int {
    seq![44100int, 48000, 32000, 0][((b2 >> 2u8) & 3) as int]
}

/// Every frame the scan finds starts with the bytes 0xFF and 0xFA or 0xFB
/// of an MPEG-1 Layer III header, and is `144 * kbps * 1000 / rate +
/// padding` bytes long by the standard bitrate and sample-rate tables.
pub proof fn lemma_scanned_frame_lengths(data: Seq<u8>)
    requires
        data.len() <= usize::MAX,
    ensures
        forall|i: int| 0 <= i < spec_frames(data).len() ==> {
            let o = (#[trigger] spec_frames(data)[i]).0 as int;
            let n = spec_frames(data)[i].1 as int;
            &&& data[o] == 0xFF
            &&& data[o + 1] == 0xFA || data[o + 1] == 0xFB
            &&& mpeg1_layer3_kbps(data[o + 2]) != 0
            &&& mpeg1_rate(data[o + 2]) != 0
            &&& n == 144 * mpeg1_layer3_kbps(data[o + 2]) * 1000 / mpeg1_rate(data[o + 2]) + ((data[o + 2] >> 1u8) & 1)
        },
{
    lemma_frames_from_well_formed(data, 0);
    let frames = spec_frames(data);
    assert forall|i: int| 0 <= i < frames.len() implies {
        let o = (#[trigger] frames[i]).0 as int;
        let n = frames[i].1 as int;
        &&& data[o] == 0xFF
        &&& data[o + 1] == 0xFA || data[o + 1] == 0xFB
        &&& mpeg1_layer3_kbps(data[o + 2]) != 0
        &&& mpeg1_rate(data[o + 2]) != 0
        &&& n == 144 * mpeg1_layer3_kbps(data[o + 2]) * 1000 / mpeg1_rate(data[o + 2]) + ((data[o + 2] >> 1u8) & 1)
    } by {
        let o = frames[i].0 as int;
        assert(frame_len_at(data, o) == Some(frames[i].1 as int));
        assert(o + frames[i].1 <= data.len());
        assert(96 <= frames[i].1);
        let b0 = data[o];
        let b1 = data[o + 1];
        let b2 = data[o + 2];
        let b3 = data[o + 3];
        let h = spec_be_u32_at(data, o);
        assert(h == ((b0 as u32) << 24) | ((b1 as u32) << 16) | ((b2 as u32) << 8) | (b3 as u32));
        assert(b0 == 0xFF && (b1 & 0xE0) == 0xE0 && (h >> 19) & 3 == 3 && (h >> 17) & 3 == 1
            && h == ((b0 as u32) << 24) | ((b1 as u32) << 16) | ((b2 as u32) << 8) | (b3 as u32)
            ==> b1 == 0xFA || b1 == 0xFB) by (bit_vector);
        lemma_mpeg1_layer3_frame_len(data, o);
    }
}

} // verus!

verus! {

/// Whether an MPEG-1 Layer III frame header with a usable bitrate and
/// sample rate starts at `p`: bytes 0xFF, then 0xFA or 0xFB, then a third
/// byte whose bitrate index is neither free nor reserved and whose
/// sample-rate index is not reserved.
pub open spec fn mpeg1_header_at(data: Seq<u8>, p: int) -> bool {
    &&& data[p] == 0xFF
    &&& data[p + 1] == 0xFA || data[p + 1] == 0xFB
    &&& mpeg1_layer3_kbps(data[p + 2]) != 0
    &&& mpeg1_rate(data[p + 2]) != 0
}

/// The length in bytes of the frame whose header's third byte is `b2`.
pub open spec fn mpeg1_frame_len(b2: u8) -> int {
    144 * mpeg1_layer3_kbps(b2) * 1000 / mpeg1_rate(b2) + ((b2 >> 1u8) & 1)
}

/// A frame length is found at `p` exactly where such a header starts.
proof fn lemma_frame_len_iff_header(data: Seq<u8>, p: int)
    requires
        0 <= p,
        p + 4 <= data.len(),
    ensures
        frame_len_at(data, p) is Some <==> mpeg1_header_at(data, p),
        frame_len_at(data, p) is Some ==> frame_len_at(data, p)->0 == mpeg1_frame_len(data[p + 2]),
{
    let b0 = data[p];
    let b1 = data[p + 1];
    let b2 = data[p + 2];
    let b3 = data[p + 3];
    let h = spec_be_u32_at(data, p);
    if b0 == 0xFF && (b1 == 0xFA || b1 == 0xFB) {
        lemma_mpeg1_layer3_frame_len(data, p);
    } else if frame_len_at(data, p) is Some {
        assert(h == ((b0 as u32) << 24) | ((b1 as u32) << 16) | ((b2 as u32) << 8) | (b3 as u32));
        assert(b0 == 0xFF && (b1 & 0xE0) == 0xE0 && (h >> 19) & 3 == 3 && (h >> 17) & 3 == 1
            && h == ((b0 as u32) << 24) | ((b1 as u32) << 16) | ((b2 as u32) << 8) | (b3 as u32)
            ==> b1 == 0xFA || b1 == 0xFB) by (bit_vector);
    }
}

/// Where the scan from `off` looks for frame `i`: at `off`, or at the end
/// of frame `i - 1`.
spec fn gap_start(fs: Seq<(usize, usize)>, off: int, i: int) -> int {
    if i == 0 { off } else { fs[i - 1].0 + fs[i - 1].1 }
}

/// The scan from `off` skips no frame header, and stops only at a header
/// whose frame runs past the end of `data`, or at the end.
proof fn lemma_frames_from_greedy(data: Seq<u8>, off: int)
    requires
        0 <= off,
        data.len() <= usize::MAX,
    ensures
        forall|i: int, p: int|
            0 <= i < frames_from(data, off).len() && gap_start(frames_from(data, off), off, i) <= p
                < #[trigger] frames_from(data, off)[i].0 ==> #[trigger] frame_len_at(data, p) is None,
        forall|p: int|
            gap_start(frames_from(data, off), off, frames_from(data, off).len() as int) <= p && p + 4
                <= data.len() && #[trigger] frame_len_at(data, p) is Some && (forall|q: int|
                gap_start(frames_from(data, off), off, frames_from(data, off).len() as int) <= q < p
                    ==> #[trigger] frame_len_at(data, q) is None) ==> p + frame_len_at(data, p)->0
                > data.len(),
    decreases data.len() - off,
{
    let fs = frames_from(data, off);
    if off + 4 > data.len() {
    } else {
        lemma_frame_len_bounds(data, off);
        match frame_len_at(data, off) {
            Some(n) => {
                if n <= 0 || off + n > data.len() {
                    assert forall|p: int|
                        gap_start(fs, off, fs.len() as int) <= p && p + 4 <= data.len()
                            && #[trigger] frame_len_at(data, p) is Some && (forall|q: int|
                            gap_start(fs, off, fs.len() as int) <= q < p ==> #[trigger] frame_len_at(data, q) is None)
                        implies p + frame_len_at(data, p)->0 > data.len() by {
                        if p > off {
                            assert(frame_len_at(data, off) is None);
                        }
                    }
                } else {
                    lemma_frames_from_greedy(data, off + n);
                    let rest = frames_from(data, off + n);
                    assert(fs == seq![(off as usize, n as usize)] + rest);
                    assert forall|i: int, p: int|
                        0 <= i < fs.len() && gap_start(fs, off, i) <= p < #[trigger] fs[i].0
                        implies #[trigger] frame_len_at(data, p) is None by {
                        if i > 0 {
                            assert(fs[i] == rest[i - 1]);
                            assert(gap_start(fs, off, i) == gap_start(rest, off + n, i - 1));
                        }
                    }
                    assert(gap_start(fs, off, fs.len() as int) == gap_start(rest, off + n, rest.len() as int));
                }
            },
            None => {
                lemma_frames_from_greedy(data, off + 1);
                assert(fs == frames_from(data, off + 1));
                assert forall|i: int, p: int|
                    0 <= i < fs.len() && gap_start(fs, off, i) <= p < #[trigger] fs[i].0
                    implies #[trigger] frame_len_at(data, p) is None by {
                    if p > off && i == 0 {
                        assert(gap_start(fs, off + 1, 0) <= p);
                    }
                }
                assert forall|p: int|
                    gap_start(fs, off, fs.len() as int) <= p && p + 4 <= data.len()
                        && #[trigger] frame_len_at(data, p) is Some && (forall|q: int|
                        gap_start(fs, off, fs.len() as int) <= q < p ==> #[trigger] frame_len_at(data, q) is None)
                    implies p + frame_len_at(data, p)->0 > data.len() by {
                    if fs.len() == 0 {
                        assert(p != off);
                        assert(gap_start(fs, off + 1, 0) == off + 1);
                    }
                }
            },
        }
    }
}

/// The scan misses no frame: no MPEG-1 Layer III header starts in the bytes
/// before the first frame found or between two frames found; and past the
/// last frame found, the first such header, if there is one, starts a frame
/// that runs past the end of the data.
pub proof fn lemma_scan_misses_no_frame(data: Seq<u8>)
    requires
        data.len() <= usize::MAX,
    ensures
        forall|i: int, p: int|
            0 <= i < spec_frames(data).len() && (if i == 0 { 0 } else { spec_frames(data)[i - 1].0
                + spec_frames(data)[i - 1].1 }) <= p < #[trigger] spec_frames(data)[i].0
                ==> !#[trigger] mpeg1_header_at(data, p),
        ({
            let fs = spec_frames(data);
            let end = if fs.len() == 0 { 0 } else { fs.last().0 + fs.last().1 };
            forall|p: int|
                end <= p && p + 4 <= data.len() && #[trigger] mpeg1_header_at(data, p) && (forall|q: int|
                    end <= q < p ==> !#[trigger] mpeg1_header_at(data, q)) ==> p + mpeg1_frame_len(data[p + 2])
                    > data.len()
        }),
{
    let fs = spec_frames(data);
    lemma_frames_from_greedy(data, 0);
    lemma_frames_from_well_formed(data, 0);
    assert forall|i: int, p: int|
        0 <= i < fs.len() && (if i == 0 { 0 } else { fs[i - 1].0 + fs[i - 1].1 }) <= p < #[trigger] fs[i].0
        implies !#[trigger] mpeg1_header_at(data, p) by {
        assert(gap_start(fs, 0, i) <= p);
        assert(frame_len_at(data, p) is None);
        assert(fs[i].0 + fs[i].1 <= data.len());
        lemma_frame_len_iff_header(data, p);
    }
    let end = if fs.len() == 0 { 0 } else { fs.last().0 + fs.last().1 };
    assert(end == gap_start(fs, 0, fs.len() as int));
    assert forall|p: int|
        end <= p && p + 4 <= data.len() && #[trigger] mpeg1_header_at(data, p) && (forall|q: int|
            end <= q < p ==> !#[trigger] mpeg1_header_at(data, q)) implies p + mpeg1_frame_len(data[p + 2])
            > data.len() by {
        lemma_frame_len_iff_header(data, p);
        assert forall|q: int| end <= q < p implies #[trigger] frame_len_at(data, q) is None by {
            lemma_frame_len_iff_header(data, q);
            assert(!mpeg1_header_at(data, q));
        }
    }
}

} // verus!

verus! {

/// Each frame placed in an interleaved row is copied whole and followed by
/// zero bytes up to the least multiple of 16 bytes that holds it: the row of
/// the first `n` pairs is the row of the first `n - 1` pairs, then frame
/// `fi` of pair `n - 1`, then that padding.
pub proof fn lemma_interleave_row_piece(pairs: Seq<Seq<u8>>, fi: int, n: int)
    requires
        0 < n <= pairs.len(),
        pairs[n - 1].len() <= usize::MAX,
        0 <= fi < spec_frames(pairs[n - 1]).len(),
    ensures
        ({
            let prev = interleave_row(pairs, fi, n - 1);
            let row = interleave_row(pairs, fi, n);
            let f = spec_frames(pairs[n - 1])[fi];
            let piece = row.len() - prev.len();
            &&& row.subrange(0, prev.len() as int) == prev
            &&& piece % 16 == 0
            &&& f.1 <= piece < f.1 + 16
            &&& forall|j: int| 0 <= j < f.1 ==> #[trigger] row[prev.len() + j] == pairs[n - 1][f.0 + j]
            &&& forall|j: int| f.1 <= j < piece ==> #[trigger] row[prev.len() + j] == 0
        }),
{
    let d = pairs[n - 1];
    lemma_frames_from_well_formed(d, 0);
    let f = spec_frames(d)[fi];
    assert(f.0 + f.1 <= d.len());
    lemma_padded_frame_layout(d, f, 16);
    let prev = interleave_row(pairs, fi, n - 1);
    let row = interleave_row(pairs, fi, n);
    let pf = padded_frame(d, f, 16);
    assert(row == prev + pf);
    assert(row.subrange(0, prev.len() as int) =~= prev);
    assert forall|j: int| 0 <= j < pf.len() implies #[trigger] row[prev.len() + j] == pf[j] by {}
}

} // verus!
