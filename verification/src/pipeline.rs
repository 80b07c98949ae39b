//! Turning groups of MP3 streams into FSB4 entries.
use vstd::prelude::*;
use vstd::arithmetic::div_mod::{lemma_div_is_ordered, lemma_mod_multiples_basic};
use vstd::arithmetic::mul::lemma_mul_inequality;
use vstd::string::StringExecFns;
use crate::fsb4::{
    Fsb4Track, entry_views, fsb4_fits, fsb4_image, try_create_fsb4, EntryView, Fsb4Entry,
};
use crate::mp3::{
    find_mp3_frame_offsets, interleave_pairs, interleaved, min_frame_count, pad_mp3_frames,
    padded_frames, slice_views, spec_frames,
};
use crate::utils::{path_file_stem, track_stem};

verus! {

/// A startpoint near sample `raw`: rounded to the nearest multiple of 1152
/// samples, and kept below `total`.
pub open spec fn snap_startpoint(total: u32, raw: int) -> u32 {
    let snapped = (raw + 576) / 1152 * 1152;
    if snapped >= total {
        (total - 1) as u32
    } else {
        snapped as u32
    }
}

/// The startpoint arithmetic stays within `u32` for these arguments.
pub open spec fn startpoints_fit(total: u32, num_startpoints: usize) -> bool {
    let n = num_startpoints as u32;
    total == 0 || num_startpoints == 0 || (n < u32::MAX && (total as int / (n + 1)) * n + 576 <= u32::MAX)
}

/// The startpoints of a track: none for any track but the first, for an
/// empty track, or when none are asked for; else `n` points at `k` times
/// `total / (n + 1)` samples for `k` in `1..=n`, snapped to frame boundaries,
/// `n` being the count taken as a `u32`.
pub open spec fn spec_startpoints(total: u32, track_index: usize, num_startpoints: usize) -> Seq<u32> {
    if total == 0 || num_startpoints == 0 || track_index != 0 {
        Seq::empty()
    } else {
        let n = num_startpoints as u32;
        let segment = total as int / (n + 1);
        Seq::new(n as nat, |k: int| snap_startpoint(total, segment * (k + 1)))
    }
}

/// Snapping keeps the order of the raw positions, and its results lie below
/// `total` on a frame boundary or at the last sample.
pub proof fn lemma_snap_startpoint(total: u32, a: int, b: int)
    requires
        total > 0,
        0 <= a <= b,
    ensures
        snap_startpoint(total, a) <= snap_startpoint(total, b),
        snap_startpoint(total, a) < total,
        snap_startpoint(total, a) % 1152 == 0 || snap_startpoint(total, a) == total - 1,
{
    lemma_div_is_ordered(a + 576, b + 576, 1152);
    let qa = (a + 576) / 1152;
    let qb = (b + 576) / 1152;
    lemma_mul_inequality(qa, qb, 1152);
    lemma_mod_multiples_basic(qa, 1152);
}

/// The multiple of 1152 within 576 samples of a target, the one above on
/// a tie: it lies in `(target - 576, target + 576]`, and no other multiple
/// of 1152 does.
proof fn lemma_nearest_frame_boundary(target: int, m: int)
    requires
        target >= 0,
    ensures
        ((target + 576) / 1152 * 1152) % 1152 == 0,
        target - 576 < (target + 576) / 1152 * 1152 <= target + 576,
        m % 1152 == 0 && target - 576 < m <= target + 576 ==> m == (target + 576) / 1152 * 1152,
{
    let x = target + 576;
    let q = x / 1152;
    vstd::arithmetic::div_mod::lemma_fundamental_div_mod(x, 1152);
    lemma_mod_multiples_basic(q, 1152);
    if m % 1152 == 0 && target - 576 < m <= target + 576 {
        vstd::arithmetic::div_mod::lemma_fundamental_div_mod(m, 1152);
        let r = m / 1152;
        assert(r == q) by (nonlinear_arith)
            requires
                m == 1152 * r,
                x == 1152 * q + x % 1152,
                0 <= x % 1152 < 1152,
                x - 1152 < m <= x,
        ;
    }
}

/// The first track gets exactly `num_startpoints` points, the others none.
/// Point `k` (from 0) sits at the frame boundary nearest to `k + 1` equal
/// parts of the track, `(k + 1) * (total / (n + 1))`: the one multiple of
/// 1152 within 576 samples of it, rounding up on a tie, unless that boundary
/// is not below the track's end, where the point is the last sample.
pub proof fn lemma_startpoints_near_targets(total: u32, track_index: usize, num_startpoints: usize)
    requires
        startpoints_fit(total, num_startpoints),
    ensures
        track_index != 0 || total == 0 ==> spec_startpoints(total, track_index, num_startpoints).len() == 0,
        track_index == 0 && total > 0 ==> spec_startpoints(total, track_index, num_startpoints).len()
            == num_startpoints as u32,
        track_index == 0 && total > 0 ==> forall|k: int, m: int|
            0 <= k < spec_startpoints(total, track_index, num_startpoints).len() ==> {
                let p = #[trigger] spec_startpoints(total, track_index, num_startpoints)[k] as int;
                let target = (k + 1) * (total as int / (num_startpoints as u32 + 1));
                &&& p < total
                &&& p % 1152 == 0 && target - 576 < p <= target + 576
                    || p == total - 1 && (#[trigger] (m % 1152) == 0 && target - 576 < m <= target + 576 ==> m >= total)
                &&& p % 1152 == 0 && target - 576 < p <= target + 576 && m % 1152 == 0
                    && target - 576 < m <= target + 576 ==> m == p
            },
{
    if track_index == 0 && total > 0 && num_startpoints > 0 {
        let pts = spec_startpoints(total, track_index, num_startpoints);
        let n = num_startpoints as u32;
        let seg = total as int / (n + 1);
        assert forall|k: int, m: int| 0 <= k < pts.len() implies {
            let p = #[trigger] pts[k] as int;
            let target = (k + 1) * seg;
            &&& p < total
            &&& p % 1152 == 0 && target - 576 < p <= target + 576
                || p == total - 1 && (#[trigger] (m % 1152) == 0 && target - 576 < m <= target + 576 ==> m >= total)
            &&& p % 1152 == 0 && target - 576 < p <= target + 576 && m % 1152 == 0
                && target - 576 < m <= target + 576 ==> m == p
        } by {
            let target = (k + 1) * seg;
            assert(seg >= 0);
            assert(target >= 0) by (nonlinear_arith) requires seg >= 0, k >= 0, target == (k + 1) * seg;
            assert(seg * (k + 1) == target) by (nonlinear_arith) requires target == (k + 1) * seg;
            lemma_nearest_frame_boundary(target, m);
            lemma_snap_startpoint(total, target, target);
            let p = pts[k] as int;
            let snapped = (target + 576) / 1152 * 1152;
            if snapped >= total {
                assert(p == total - 1);
            } else {
                assert(p == snapped);
                if p == total - 1 && !(p % 1152 == 0 && target - 576 < p <= target + 576) {
                    assert(false);
                }
            }
        }
    }
}

/// The startpoint arithmetic fits exactly when there is nothing to compute
/// (an empty track or no startpoint), or when `n + 1` parts can be counted
/// in a `u32` and every raw target `k * (total / (n + 1))`, `k` from 1 to
/// `n`, stays a `u32` once 576 is added for the rounding.
pub proof fn lemma_startpoints_fit_means(total: u32, num_startpoints: usize)
    ensures
        startpoints_fit(total, num_startpoints) <==> (total == 0 || num_startpoints == 0 || ({
            let n = num_startpoints as u32 as int;
            &&& n + 1 <= u32::MAX
            &&& forall|k: int| 1 <= k <= n ==> #[trigger] (k * (total as int / (n + 1))) + 576 <= u32::MAX
        })),
{
    if total != 0 && num_startpoints != 0 {
        let n = num_startpoints as u32 as int;
        if n + 1 <= u32::MAX {
            let seg = total as int / (n + 1);
            if startpoints_fit(total, num_startpoints) {
                assert forall|k: int| 1 <= k <= n implies #[trigger] (k * seg) + 576 <= u32::MAX by {
                    lemma_mul_inequality(k, n, seg);
                    assert(seg * n == n * seg) by (nonlinear_arith);
                }
            } else {
                assert((n * seg) + 576 > u32::MAX) by (nonlinear_arith)
                    requires
                        seg * n + 576 > u32::MAX,
                ;
            }
        }
    }
}

/// Evenly spaced startpoints (in samples) for the first track.
pub fn generate_startpoints(total_samples: u32, track_index: usize, num_startpoints: usize) -> (v: Vec<u32>)
    requires
        track_index != 0 || startpoints_fit(total_samples, num_startpoints),
    ensures
        v@ == spec_startpoints(total_samples, track_index, num_startpoints),
        forall|k: int| 0 <= k < v@.len() ==> #[trigger] v@[k] < total_samples,
        forall|k: int| 0 <= k < v@.len() ==> #[trigger] v@[k] % 1152 == 0 || v@[k] == total_samples - 1,
        forall|i: int, j: int| 0 <= i <= j < v@.len() ==> #[trigger] v@[i] <= #[trigger] v@[j],
{
    if total_samples == 0 || num_startpoints == 0 || track_index != 0 {
        return Vec::new();
    }
    let n = num_startpoints as u32;
    let segment_size = total_samples / (n + 1);
    let ghost spec_v = spec_startpoints(total_samples, track_index, num_startpoints);
    let mut v: Vec<u32> = Vec::new();
    let mut i: u32 = 1;
    while i <= n
        invariant
            total_samples > 0,
            n == num_startpoints as u32,
            n < u32::MAX,
            segment_size == total_samples as int / (n + 1),
            segment_size * n + 576 <= u32::MAX,
            1 <= i <= n + 1,
            spec_v == spec_startpoints(total_samples, track_index, num_startpoints),
            spec_v.len() == n,
            v@ == spec_v.take(i - 1),
        decreases n + 1 - i,
    {
        assert(segment_size * i <= segment_size * n) by (nonlinear_arith)
            requires
                i <= n,
        ;
        let raw = segment_size * i;
        let snapped = (raw + 576) / 1152 * 1152;
        let point = if snapped >= total_samples { total_samples.saturating_sub(1) } else { snapped };
        v.push(point);
        assert(point == spec_v[i - 1]);
        i = i + 1;
        assert(v@ =~= spec_v.take(i - 1));
    }
    assert(v@ =~= spec_v);
    proof {
        let seg = segment_size as int;
        assert forall|k: int| 0 <= k < v@.len() implies #[trigger] v@[k] < total_samples && (v@[k] % 1152 == 0 || v@[k] == total_samples - 1) by {
            assert(seg * (k + 1) >= 0) by (nonlinear_arith) requires seg >= 0, k >= 0;
            lemma_snap_startpoint(total_samples, seg * (k + 1), seg * (k + 1));
        }
        assert forall|i: int, j: int| 0 <= i <= j < v@.len() implies #[trigger] v@[i] <= #[trigger] v@[j] by {
            lemma_mul_inequality(i + 1, j + 1, seg);
            assert(seg * (i + 1) >= 0) by (nonlinear_arith) requires seg >= 0, i >= 0;
            assert((i + 1) * seg == seg * (i + 1)) by (nonlinear_arith);
            assert((j + 1) * seg == seg * (j + 1)) by (nonlinear_arith);
            lemma_snap_startpoint(total_samples, seg * (i + 1), seg * (j + 1));
        }
    }
    v
}

} // verus!

verus! {

/// Whether `startpoints_fit` holds, computed.
pub fn check_startpoints_fit(total: u32, num_startpoints: usize) -> (b: bool)
    ensures
        b == startpoints_fit(total, num_startpoints),
{
    if total == 0 || num_startpoints == 0 {
        return true;
    }
    let n = num_startpoints as u32;
    if n == u32::MAX {
        return false;
    }
    let segment = (total / (n + 1)) as u64;
    assert(segment * n <= 0xFFFF_FFFFu64 * 0xFFFF_FFFFu64) by (nonlinear_arith)
        requires
            segment <= 0xFFFF_FFFF,
            n <= 0xFFFF_FFFF,
    ;
    segment * (n as u64) + 576 <= 0xFFFF_FFFF
}

} // verus!

verus! {

/// The inputs of track `i`: inputs `3 * i` up to `3 * i + 3`, fewer at the end.
pub open spec fn chunk_of(pairs: Seq<Seq<u8>>, i: int) -> Seq<Seq<u8>> {
    let start = 3 * i;
    let end = if start + 3 <= pairs.len() { start + 3 } else { pairs.len() as int };
    pairs.subrange(start, end)
}

/// The audio data of a track: a lone MP3 stream with its frames padded to an
/// even length, or the frames of several streams interleaved. `None` where
/// the buffer for the padded frames cannot be allocated.
pub open spec fn chunk_audio(chunk: Seq<Seq<u8>>) -> Option<Result<Seq<u8>, Seq<char>>> {
    if chunk.len() == 1 {
        let frames = spec_frames(chunk[0]);
        if frames.len() == 0 {
            Some(Err("no MP3 frames found"@))
        } else if chunk[0].len() + frames.len() * 2 > isize::MAX {
            None
        } else {
            Some(Ok(padded_frames(chunk[0], frames, 2)))
        }
    } else {
        Some(Ok(interleaved(chunk, min_frame_count(chunk))))
    }
}

/// The stem a track is named after: the path's file stem, or "track".
pub open spec fn stem_of(path: Seq<char>) -> Seq<char> {
    match path_file_stem(path) {
        Some(s) => s,
        None => "track"@,
    }
}

/// The outcome of building the entries of a bank: the entries, an error
/// message, or an abort where the arithmetic would overflow.
pub enum BuildOutcome {
    Built(Seq<EntryView>),
    Failed(Seq<char>),
    Aborted,
}

/// `e` followed by the entries of `outcome`, if it has entries.
pub open spec fn prepend_entries(es: Seq<EntryView>, outcome: BuildOutcome) -> BuildOutcome {
    match outcome {
        BuildOutcome::Built(rest) => BuildOutcome::Built(es + rest),
        other => other,
    }
}

/// The entry of track `i`, given its audio data.
pub open spec fn chunk_entry(paths: Seq<Seq<char>>, pairs: Seq<Seq<u8>>, num_startpoints: usize, i: int, data: Seq<u8>) -> EntryView {
    let chunk = chunk_of(pairs, i);
    let sample_count = (min_frame_count(chunk) * 1152) as u32;
    EntryView {
        filename: stem_of(paths[3 * i]) + ".wav"@,
        data,
        startpoints: spec_startpoints(sample_count, i as usize, num_startpoints),
        sample_count,
        num_channels: (chunk.len() * 2) as u16,
    }
}

/// Building the entries of the tracks from track `i` on.
pub open spec fn build_from(paths: Seq<Seq<char>>, pairs: Seq<Seq<u8>>, num_startpoints: usize, i: int) -> BuildOutcome
    decreases pairs.len() - i,
{
    if i < 0 || 3 * i >= pairs.len() {
        BuildOutcome::Built(Seq::empty())
    } else {
        let chunk = chunk_of(pairs, i);
        match chunk_audio(chunk) {
            None => BuildOutcome::Aborted,
            Some(Err(e)) => BuildOutcome::Failed(e),
            Some(Ok(data)) => {
                let frames = min_frame_count(chunk);
                if frames * 1152 > usize::MAX {
                    BuildOutcome::Aborted
                } else if i == 0 && !startpoints_fit((frames * 1152) as u32, num_startpoints) {
                    BuildOutcome::Aborted
                } else {
                    prepend_entries(
                        seq![chunk_entry(paths, pairs, num_startpoints, i, data)],
                        build_from(paths, pairs, num_startpoints, i + 1),
                    )
                }
            },
        }
    }
}

/// The text of each path.
pub open spec fn str_views(paths: Seq<&str>) -> Seq<Seq<char>> {
    paths.map_values(|p: &str| p@)
}

/// The bytes of each input.
pub open spec fn vec_views(data: Seq<Vec<u8>>) -> Seq<Seq<u8>> {
    data.map_values(|v: Vec<u8>| v@)
}

/// The outcome that a result of `try_build_entries` stands for.
pub open spec fn build_outcome_of(r: Option<Result<Vec<Fsb4Entry>, String>>) -> BuildOutcome {
    match r {
        None => BuildOutcome::Aborted,
        Some(Err(e)) => BuildOutcome::Failed(e@),
        Some(Ok(es)) => BuildOutcome::Built(entry_views(es@)),
    }
}

proof fn lemma_prepend_entries_push(a: Seq<EntryView>, e: EntryView, rest: BuildOutcome)
    ensures
        prepend_entries(a, prepend_entries(seq![e], rest)) == prepend_entries(a.push(e), rest),
{
    if let BuildOutcome::Built(r) = rest {
        assert(a + (seq![e] + r) =~= a.push(e) + r);
    }
}

proof fn lemma_prepend_entries_empty(rest: BuildOutcome)
    ensures
        prepend_entries(Seq::empty(), rest) == rest,
{
    if let BuildOutcome::Built(r) = rest {
        assert(Seq::<EntryView>::empty() + r =~= r);
    }
}

/// The smallest frame count among the streams of a chunk.
fn chunk_min_frames(chunk: &Vec<&[u8]>) -> (m: usize)
    requires
        chunk@.len() > 0,
    ensures
        m == min_frame_count(slice_views(chunk@)),
{
    let ghost views = slice_views(chunk@);
    let mut min_frames = find_mp3_frame_offsets(chunk[0]).len();
    assert(views.take(1) =~= seq![views[0]]);
    let mut k: usize = 1;
    while k < chunk.len()
        invariant
            views == slice_views(chunk@),
            1 <= k <= chunk@.len(),
            min_frames == min_frame_count(views.take(k as int)),
        decreases chunk@.len() - k,
    {
        let f = find_mp3_frame_offsets(chunk[k]);
        assert(views.take(k + 1).drop_last() =~= views.take(k as int));
        assert(views.take(k + 1).last() == views[k as int]);
        if f.len() < min_frames {
            min_frames = f.len();
        }
        k = k + 1;
    }
    assert(views.take(k as int) =~= views);
    min_frames
}

/// Build the FSB4 entries of the tracks: the inputs are taken three at a
/// time, each group making one track. `None` where the arithmetic would
/// overflow.
pub fn try_build_entries(input_paths: &[&str], pair_data: &[Vec<u8>], num_startpoints: usize) -> (r: Option<Result<Vec<Fsb4Entry>, String>>)
    requires
        input_paths@.len() == pair_data@.len(),
    ensures
        build_outcome_of(r) == build_from(str_views(input_paths@), vec_views(pair_data@), num_startpoints, 0),
{
    let ghost paths = str_views(input_paths@);
    let ghost pairs = vec_views(pair_data@);
    let limit = isize::MAX as usize;
    let n = pair_data.len();
    let mut entries: Vec<Fsb4Entry> = Vec::new();
    let mut i: usize = 0;
    let mut start: usize = 0;
    proof {
        lemma_prepend_entries_empty(build_from(paths, pairs, num_startpoints, 0));
        assert(entry_views(entries@) =~= Seq::<EntryView>::empty());
    }
    while start < n
        invariant
            paths == str_views(input_paths@),
            pairs == vec_views(pair_data@),
            n == pairs.len(),
            n == paths.len(),
            limit == isize::MAX,
            start == if 3 * i <= n { 3 * i } else { n as int },
            build_from(paths, pairs, num_startpoints, 0) == prepend_entries(
                entry_views(entries@),
                build_from(paths, pairs, num_startpoints, i as int),
            ),
        decreases n - start,
    {
        let end = if n - start >= 3 { start + 3 } else { n };
        let ghost chunk = chunk_of(pairs, i as int);
        let mut chunk_refs: Vec<&[u8]> = Vec::new();
        let mut k = start;
        while k < end
            invariant
                pairs == vec_views(pair_data@),
                n == pairs.len(),
                start <= k <= end <= n,
                chunk_refs@.len() == k - start,
                forall|j: int| 0 <= j < k - start ==> #[trigger] chunk_refs@[j]@ == pairs[start + j],
            decreases end - k,
        {
            chunk_refs.push(pair_data[k].as_slice());
            k = k + 1;
        }
        assert(slice_views(chunk_refs@) =~= chunk);
        let chunk_len = end - start;

        let data: Vec<u8> = if chunk_len == 1 {
            let src: &[u8] = chunk_refs[0];
            let frames = find_mp3_frame_offsets(src);
            if frames.len() > 0 {
                let len = src.len();
                if len > limit || frames.len() > (limit - len) / 2 {
                    return None;
                }
            }
            match pad_mp3_frames(src, 2) {
                Ok(d) => d,
                Err(e) => {
                    return Some(Err(e));
                },
            }
        } else {
            match interleave_pairs(chunk_refs.as_slice()) {
                Ok(d) => d,
                Err(e) => {
                    return Some(Err(e));
                },
            }
        };
        assert(chunk_audio(chunk) == Some(Ok::<Seq<u8>, Seq<char>>(data@)));

        let min_frames = chunk_min_frames(&chunk_refs);
        if min_frames > usize::MAX / 1152 {
            return None;
        }
        let sample_count = (min_frames * 1152) as u32;
        if i == 0 && !check_startpoints_fit(sample_count, num_startpoints) {
            return None;
        }
        let startpoints = generate_startpoints(sample_count, i, num_startpoints);

        let mut filename = track_stem(input_paths[start]);
        filename.append(".wav");
        let num_channels = (chunk_len * 2) as u16;

        let entry = Fsb4Entry { filename, data, startpoints, sample_count, num_channels };
        let ghost before = entry_views(entries@);
        assert(entry@ == chunk_entry(paths, pairs, num_startpoints, i as int, data@));
        entries.push(entry);
        proof {
            assert(entry_views(entries@) =~= before.push(entry@));
            lemma_prepend_entries_push(before, entry@, build_from(paths, pairs, num_startpoints, i + 1));
        }
        start = end;
        i = i + 1;
    }
    proof {
        let es = entry_views(entries@);
        assert(es + Seq::<EntryView>::empty() =~= es);
    }
    Some(Ok(entries))
}

/// The FSB4 bank built from the inputs: the bytes, an error message, or
/// `None` where the arithmetic would overflow or the bank cannot fit.
pub open spec fn spec_build_fsb4(paths: Seq<Seq<char>>, pairs: Seq<Seq<u8>>, num_startpoints: usize) -> Option<Result<Seq<u8>, Seq<char>>> {
    match build_from(paths, pairs, num_startpoints, 0) {
        BuildOutcome::Aborted => None,
        BuildOutcome::Failed(e) => Some(Err(e)),
        BuildOutcome::Built(es) => if fsb4_fits(es) {
            Some(Ok(fsb4_image(es)))
        } else {
            None
        },
    }
}

/// The value a result of `try_build_fsb4` stands for.
pub open spec fn bytes_outcome_of(r: Option<Result<Vec<u8>, String>>) -> Option<Result<Seq<u8>, Seq<char>>> {
    match r {
        None => None,
        Some(Err(e)) => Some(Err(e@)),
        Some(Ok(v)) => Some(Ok(v@)),
    }
}

/// Build an FSB4 bank from MP3 streams and the paths they came from: every
/// three streams make one track. `None` where the arithmetic would overflow
/// or the bank cannot fit in memory.
pub fn try_build_fsb4(input_paths: &[&str], pair_data: &[Vec<u8>], num_startpoints: usize) -> (r: Option<Result<Vec<u8>, String>>)
    requires
        input_paths@.len() == pair_data@.len(),
    ensures
        bytes_outcome_of(r) == spec_build_fsb4(str_views(input_paths@), vec_views(pair_data@), num_startpoints),
{
    match try_build_entries(input_paths, pair_data, num_startpoints) {
        None => None,
        Some(Err(e)) => Some(Err(e)),
        Some(Ok(entries)) => match try_create_fsb4(entries.as_slice()) {
            None => None,
            Some(bytes) => Some(Ok(bytes)),
        },
    }
}

} // verus!

verus! {

/// The number of tracks built from `n` inputs taken three at a time.
pub open spec fn track_count(n: int) -> int {
    (n + 2) / 3
}

/// Track `i` builds: its audio is made, its sample count fits `usize`, and,
/// for the first track, its startpoints fit `u32`.
pub open spec fn chunk_builds(pairs: Seq<Seq<u8>>, num_startpoints: usize, i: int) -> bool {
    let chunk = chunk_of(pairs, i);
    &&& chunk_audio(chunk) matches Some(Ok(_))
    &&& min_frame_count(chunk) * 1152 <= usize::MAX
    &&& i == 0 ==> startpoints_fit((min_frame_count(chunk) * 1152) as u32, num_startpoints)
}

/// The entries of all tracks, each with the audio its inputs make.
pub open spec fn built_entries(paths: Seq<Seq<char>>, pairs: Seq<Seq<u8>>, num_startpoints: usize) -> Seq<EntryView> {
    Seq::new(
        track_count(pairs.len() as int) as nat,
        |k: int| chunk_entry(paths, pairs, num_startpoints, k, chunk_audio(chunk_of(pairs, k))->Some_0->Ok_0),
    )
}

proof fn lemma_build_from(paths: Seq<Seq<char>>, pairs: Seq<Seq<u8>>, num_startpoints: usize, i: int)
    requires
        0 <= i <= track_count(pairs.len() as int),
    ensures
        (build_from(paths, pairs, num_startpoints, i) is Built) <==> (forall|k: int|
            i <= k < track_count(pairs.len() as int) ==> #[trigger] chunk_builds(pairs, num_startpoints, k)),
        (build_from(paths, pairs, num_startpoints, i) is Built) ==> build_from(paths, pairs, num_startpoints, i)
            == BuildOutcome::Built(built_entries(paths, pairs, num_startpoints).skip(i)),
    decreases pairs.len() - i,
{
    let tc = track_count(pairs.len() as int);
    let all = built_entries(paths, pairs, num_startpoints);
    if 3 * i >= pairs.len() {
        assert(i == tc);
        assert(all.skip(i) =~= Seq::<EntryView>::empty());
    } else {
        assert(i < tc);
        lemma_build_from(paths, pairs, num_startpoints, i + 1);
        if build_from(paths, pairs, num_startpoints, i) is Built {
            assert(chunk_builds(pairs, num_startpoints, i));
            assert(all.skip(i) =~= seq![all[i]] + all.skip(i + 1));
        } else if chunk_builds(pairs, num_startpoints, i) {
            assert(!(build_from(paths, pairs, num_startpoints, i + 1) is Built));
        }
        assert((forall|k: int| i <= k < tc ==> #[trigger] chunk_builds(pairs, num_startpoints, k))
            <==> (chunk_builds(pairs, num_startpoints, i) && forall|k: int| i + 1 <= k < tc ==> #[trigger] chunk_builds(pairs, num_startpoints, k)));
    }
}

/// The build succeeds exactly when every track builds, and then lists one
/// entry per track: named after the file stem of the track's first input
/// with ".wav", holding the audio its inputs make, its sample count (1152
/// samples per frame of its shortest input), two channels per input, and
/// startpoints on the first track only. When those entries fit a bank, the
/// built bank is the bank of those entries.
pub proof fn lemma_build_outcome(paths: Seq<Seq<char>>, pairs: Seq<Seq<u8>>, num_startpoints: usize)
    requires
        pairs.len() <= usize::MAX,
    ensures
        (build_from(paths, pairs, num_startpoints, 0) is Built) <==> (forall|k: int|
            0 <= k < track_count(pairs.len() as int) ==> #[trigger] chunk_builds(pairs, num_startpoints, k)),
        (build_from(paths, pairs, num_startpoints, 0) is Built) ==> build_from(paths, pairs, num_startpoints, 0)
            == BuildOutcome::Built(built_entries(paths, pairs, num_startpoints)),
        forall|k: int| 0 < k < track_count(pairs.len() as int) ==>
            (#[trigger] built_entries(paths, pairs, num_startpoints)[k]).startpoints.len() == 0,
        (build_from(paths, pairs, num_startpoints, 0) is Built) && fsb4_fits(built_entries(paths, pairs, num_startpoints))
            ==> spec_build_fsb4(paths, pairs, num_startpoints) == Some(
            Ok::<Seq<u8>, Seq<char>>(fsb4_image(built_entries(paths, pairs, num_startpoints))),
        ),
{
    lemma_build_from(paths, pairs, num_startpoints, 0);
    let all = built_entries(paths, pairs, num_startpoints);
    assert(all.skip(0) =~= all);
    assert forall|k: int| 0 < k < track_count(pairs.len() as int) implies
        (#[trigger] all[k]).startpoints.len() == 0 by {
        assert(k as usize != 0);
    }
}

} // verus!

verus! {

/// The number of startpoints used when none is asked for: 8 for a bank of
/// one track, 7 otherwise.
pub fn default_startpoints(num_inputs: usize) -> (n: usize)
    ensures
        n == if track_count(num_inputs as int) == 1 { 8usize } else { 7usize },
{
    let tracks = num_inputs / 3 + if num_inputs % 3 == 0 { 0 } else { 1 };
    assert(tracks == track_count(num_inputs as int));
    if tracks == 1 { 8 } else { 7 }
}

/// Where the data of one track lies in a bank and the name its files take.
pub struct TrackExtract {
    pub start: usize,
    pub end: usize,
    pub stem: String,
    /// The track's index, put before the stem when the bank holds more than one track.
    pub number: Option<usize>,
}

/// Where track `index` of `track_count` tracks lies in a bank of
/// `data_len` bytes, and its file stem; `None` when its data runs past the
/// end of the bank.
pub fn track_extract(data_len: usize, track_count: usize, index: usize, track: &Fsb4Track) -> (r: Option<TrackExtract>)
    ensures
        match r {
            None => track.data_offset + track.compressed_len > data_len,
            Some(x) => {
                &&& track.data_offset + track.compressed_len <= data_len
                &&& x.start == track.data_offset
                &&& x.end == track.data_offset + track.compressed_len
                &&& x.stem@ == stem_of(track.filename@)
                &&& x.number == if track_count > 1 { Some(index) } else { None::<usize> }
            },
        },
{
    let len = track.compressed_len as usize;
    if track.data_offset > data_len || len > data_len - track.data_offset {
        return None;
    }
    let stem = track_stem(track.filename.as_str());
    let number = if track_count > 1 { Some(index) } else { None };
    Some(TrackExtract { start: track.data_offset, end: track.data_offset + len, stem, number })
}

} // verus!

verus! {

/// Track `k` is made from inputs `3k` up to `3k + 3` (fewer for the last
/// track): its entry is named after the file stem of input `3k` with
/// ".wav", has two channels per input, and counts 1152 samples per frame of
/// the input with the fewest frames (taken as a `u32`); only track 0 has
/// startpoints. Its audio is the lone input's frames padded to an even
/// length, or, for two or three inputs, their frames interleaved for as
/// many rows as the shortest input has frames.
pub proof fn lemma_built_track_fields(paths: Seq<Seq<char>>, pairs: Seq<Seq<u8>>, num_startpoints: usize, k: int)
    requires
        pairs.len() <= usize::MAX,
        paths.len() == pairs.len(),
        0 <= k < track_count(pairs.len() as int),
        chunk_audio(chunk_of(pairs, k)) is Some,
    ensures
        ({
            let end = if 3 * k + 3 <= pairs.len() { 3 * k + 3 } else { pairs.len() as int };
            let e = built_entries(paths, pairs, num_startpoints)[k];
            &&& 3 * k < end <= 3 * k + 3
            &&& e.filename == stem_of(paths[3 * k]) + ".wav"@
            &&& e.num_channels == 2 * (end - 3 * k)
            &&& e.startpoints == if k == 0 {
                spec_startpoints(e.sample_count, 0, num_startpoints)
            } else {
                Seq::<u32>::empty()
            }
            &&& forall|j: int| 3 * k <= j < end ==> min_frame_count(pairs.subrange(3 * k, end))
                <= #[trigger] spec_frames(pairs[j]).len()
            &&& exists|j: int| 3 * k <= j < end && min_frame_count(pairs.subrange(3 * k, end))
                == #[trigger] spec_frames(pairs[j]).len()
            &&& e.sample_count == (min_frame_count(pairs.subrange(3 * k, end)) * 1152) as u32
            &&& end == 3 * k + 1 && chunk_audio(chunk_of(pairs, k))->0 is Ok
                ==> e.data == padded_frames(pairs[3 * k], spec_frames(pairs[3 * k]), 2)
            &&& end > 3 * k + 1 ==> e.data == interleaved(pairs.subrange(3 * k, end), min_frame_count(pairs.subrange(3 * k, end)))
        }),
{
    let n = pairs.len() as int;
    let end = if 3 * k + 3 <= n { 3 * k + 3 } else { n };
    let chunk = chunk_of(pairs, k);
    assert(chunk == pairs.subrange(3 * k, end));
    assert(chunk.len() == end - 3 * k);
    let e = built_entries(paths, pairs, num_startpoints)[k];
    let m = min_frame_count(chunk);
    crate::mp3::lemma_min_frame_count(chunk);
    assert forall|j: int| 3 * k <= j < end implies m <= #[trigger] spec_frames(pairs[j]).len() by {
        assert(chunk[j - 3 * k] == pairs[j]);
    }
    let i = choose|i: int| 0 <= i < chunk.len() && m == #[trigger] spec_frames(chunk[i]).len();
    assert(chunk[i] == pairs[3 * k + i]);
    assert(3 * k <= 3 * k + i < end && m == spec_frames(pairs[3 * k + i]).len());
    if end == 3 * k + 1 {
        assert(chunk[0] == pairs[3 * k]);
    }
    if k != 0 {
        assert(k as usize != 0);
    }
}

} // verus!
