//! What reading gives back of what was written: FSB4 banks and interleaved
//! MP3 streams.
use vstd::prelude::*;
use vstd::bytes::{
    lemma_auto_spec_u16_to_from_le_bytes, lemma_auto_spec_u32_to_from_le_bytes,
    spec_u16_to_le_bytes, spec_u32_to_le_bytes, spec_u16_from_le_bytes, spec_u32_from_le_bytes,
};
use vstd::utf8::encode_utf8;
use crate::pipeline::{build_from, chunk_audio, chunk_of, track_count};
use crate::buffer::zeros;
use crate::config::FSB4_VERSION;
use crate::mp3::{
    concat_frames, frame_bytes, frame_len_at, frames_from, frames_well_formed, interleave_row,
    interleaved, lemma_frame_len_bounds, lemma_frames_from_well_formed, min_frame_count, pad_len,
    padded_frame, padded_frames, pair_stream, spec_frames, spec_track_streams, lemma_padded_frame_aligned,
};
use crate::config::{BANK_VOLUME, PAN, PLAYBACK_PRIORITY, SAMPLE_RATE};
use crate::fsb4::{
    data_blocks, data_region_start, dir_blocks, fsb4_header, fsb4_image, lemma_fsb4_image_len,
    dir_block, entry_startpoint_table, entry_play_mode, lemma_dir_block_len, loop_end, name_field,
    startpoint_record, startpoint_records, startpoint_table, sync_tag,
    lemma_startpoint_table_len, EntryView, entry_startpoints, entry_track, first_zero, fsb4_fits,
    lossy_text, parse_entries, prepend_tracks, spec_parse_fsb4, ParseOutcome, TrackView, le16_at,
    le32_at, entry_filename,
};

verus! {

/// Where the fields of a directory block lie.
pub proof fn lemma_dir_block_fields(e: EntryView)
    ensures
        ({
            let b = dir_block(e);
            let sp = entry_startpoint_table(e);
            &&& b.len() == 80 + sp.len()
            &&& b.subrange(0, 2) == spec_u16_to_le_bytes((80 + sp.len()) as u16)
            &&& b.subrange(2, 32) == name_field(encode_utf8(e.filename))
            &&& b.subrange(32, 36) == spec_u32_to_le_bytes(e.sample_count)
            &&& b.subrange(36, 40) == spec_u32_to_le_bytes(e.data.len() as u32)
            &&& b.subrange(48, 52) == spec_u32_to_le_bytes(entry_play_mode(e.num_channels, e.startpoints.len() > 0))
            &&& b.subrange(52, 56) == spec_u32_to_le_bytes(SAMPLE_RATE)
            &&& b.subrange(62, 64) == spec_u16_to_le_bytes(e.num_channels)
            &&& b.subrange(80, b.len() as int) == sp
        }),
{
    lemma_auto_spec_u32_to_from_le_bytes();
    lemma_auto_spec_u16_to_from_le_bytes();
    lemma_dir_block_len(e);
    let b = dir_block(e);
    let sp = entry_startpoint_table(e);
    let p0 = spec_u16_to_le_bytes((80 + sp.len()) as u16);
    let p1 = name_field(encode_utf8(e.filename));
    let p2 = spec_u32_to_le_bytes(e.sample_count);
    let p3 = spec_u32_to_le_bytes(e.data.len() as u32);
    let p4 = spec_u32_to_le_bytes(0);
    let p5 = spec_u32_to_le_bytes(loop_end(e.sample_count));
    let p6 = spec_u32_to_le_bytes(entry_play_mode(e.num_channels, e.startpoints.len() > 0));
    let p7 = spec_u32_to_le_bytes(SAMPLE_RATE);
    let p8 = spec_u16_to_le_bytes(BANK_VOLUME);
    let p9 = spec_u16_to_le_bytes(PAN);
    let p10 = spec_u16_to_le_bytes(PLAYBACK_PRIORITY);
    let p11 = spec_u16_to_le_bytes(e.num_channels);
    let p12 = zeros(16);
    assert(p1.len() == 30);
    assert(b == p0 + p1 + p2 + p3 + p4 + p5 + p6 + p7 + p8 + p9 + p10 + p11 + p12 + sp);
    assert(b.subrange(0, 2) =~= p0);
    assert(b.subrange(2, 32) =~= p1);
    assert(b.subrange(32, 36) =~= p2);
    assert(b.subrange(36, 40) =~= p3);
    assert(b.subrange(48, 52) =~= p6);
    assert(b.subrange(52, 56) =~= p7);
    assert(b.subrange(62, 64) =~= p11);
    assert(b.subrange(80, b.len() as int) =~= sp);
}

/// Where the records of a startpoint table lie.
pub proof fn lemma_startpoint_records_at(offsets: Seq<u32>, j: int)
    requires
        0 <= j < offsets.len(),
    ensures
        startpoint_records(offsets).subrange(260 * j, 260 * j + 4) == spec_u32_to_le_bytes(offsets[j]),
    decreases offsets.len(),
{
    lemma_auto_spec_u32_to_from_le_bytes();
    lemma_startpoint_table_len(offsets);
    let init = offsets.drop_last();
    lemma_startpoint_table_len(init);
    let r = startpoint_records(offsets);
    if j < offsets.len() - 1 {
        lemma_startpoint_records_at(init, j);
        assert(init[j] == offsets[j]);
        assert(r.subrange(260 * j, 260 * j + 4) =~= startpoint_records(init).subrange(260 * j, 260 * j + 4));
    } else {
        let rec = startpoint_record(offsets.last());
        assert(r == startpoint_records(init) + rec);
        assert(r.subrange(260 * j, 260 * j + 4) =~= rec.subrange(0, 4));
        assert(rec.subrange(0, 4) =~= spec_u32_to_le_bytes(offsets.last()));
    }
}

} // verus!

verus! {

/// Where the directory block of entry `k` starts in a bank.
pub open spec fn entry_block_offset(es: Seq<EntryView>, k: int) -> int {
    48 + dir_blocks(es.take(k)).len() as int
}

/// Where the data of entry `k` starts in a bank.
pub open spec fn entry_data_offset(es: Seq<EntryView>, k: int) -> int {
    data_region_start(es) + data_blocks(es.take(k)).len()
}

proof fn lemma_take_step(es: Seq<EntryView>, k: int)
    requires
        0 <= k < es.len(),
    ensures
        dir_blocks(es.take(k + 1)) == dir_blocks(es.take(k)) + dir_block(es[k]),
        data_blocks(es.take(k + 1)) == data_blocks(es.take(k)) + es[k].data,
{
    assert(es.take(k + 1).drop_last() =~= es.take(k));
    assert(es.take(k + 1).last() == es[k]);
}

/// The blocks and data of the first `j` entries open those of all entries.
pub proof fn lemma_blocks_prefix(es: Seq<EntryView>, j: int)
    requires
        0 <= j <= es.len(),
    ensures
        dir_blocks(es.take(j)).len() <= dir_blocks(es).len(),
        dir_blocks(es).subrange(0, dir_blocks(es.take(j)).len() as int) == dir_blocks(es.take(j)),
        data_blocks(es.take(j)).len() <= data_blocks(es).len(),
        data_blocks(es).subrange(0, data_blocks(es.take(j)).len() as int) == data_blocks(es.take(j)),
    decreases es.len() - j,
{
    if j == es.len() {
        assert(es.take(j) =~= es);
        assert(dir_blocks(es).subrange(0, dir_blocks(es).len() as int) =~= dir_blocks(es));
        assert(data_blocks(es).subrange(0, data_blocks(es).len() as int) =~= data_blocks(es));
    } else {
        lemma_blocks_prefix(es, j + 1);
        lemma_take_step(es, j);
        let a = dir_blocks(es.take(j));
        let b = dir_blocks(es.take(j + 1));
        assert(dir_blocks(es).subrange(0, a.len() as int) =~= b.subrange(0, a.len() as int));
        assert(b.subrange(0, a.len() as int) =~= a);
        let c = data_blocks(es.take(j));
        let d = data_blocks(es.take(j + 1));
        assert(data_blocks(es).subrange(0, c.len() as int) =~= d.subrange(0, c.len() as int));
        assert(d.subrange(0, c.len() as int) =~= c);
    }
}

/// Entry `k`'s directory block and data sit at their offsets in the bank.
pub proof fn lemma_entry_in_image(es: Seq<EntryView>, k: int)
    requires
        0 <= k < es.len(),
    ensures
        ({
            let img = fsb4_image(es);
            let o = entry_block_offset(es, k);
            let b = dir_block(es[k]);
            let d = entry_data_offset(es, k);
            &&& o + b.len() == entry_block_offset(es, k + 1)
            &&& entry_block_offset(es, k + 1) <= 48 + dir_blocks(es).len()
            &&& img.subrange(o, o + b.len()) == b
            &&& d + es[k].data.len() == entry_data_offset(es, k + 1)
            &&& entry_data_offset(es, k + 1) <= img.len()
            &&& img.subrange(d, d + es[k].data.len()) == es[k].data
        }),
{
    let img = fsb4_image(es);
    lemma_blocks_prefix(es, k + 1);
    lemma_take_step(es, k);
    lemma_fsb4_image_len(es);
    let hd = fsb4_header(es.len() as u32, (data_region_start(es) - 48) as u32, data_blocks(es).len() as u32);
    crate::fsb4::lemma_fsb4_header_len(es.len() as u32, (data_region_start(es) - 48) as u32, data_blocks(es).len() as u32);
    let dirs = dir_blocks(es);
    let gap = zeros(pad_len(48 + dirs.len() as int, 32));
    let dat = data_blocks(es);
    assert(img == hd + dirs + gap + dat);
    let o = entry_block_offset(es, k);
    let b = dir_block(es[k]);
    let pre = dir_blocks(es.take(k));
    let pl = pre.len() as int;
    let bl = b.len() as int;
    assert(dirs.subrange(pl, pl + bl) =~= dir_blocks(es.take(k + 1)).subrange(pl, pl + bl));
    assert(dir_blocks(es.take(k + 1)).subrange(pl, pl + bl) =~= b);
    assert(img.subrange(o, o + bl) =~= dirs.subrange(pl, pl + bl));
    let d = entry_data_offset(es, k);
    let dpre = data_blocks(es.take(k));
    let e = es[k].data;
    let dl = dpre.len() as int;
    let el = e.len() as int;
    assert(dat.subrange(dl, dl + el) =~= data_blocks(es.take(k + 1)).subrange(dl, dl + el));
    assert(data_blocks(es.take(k + 1)).subrange(dl, dl + el) =~= e);
    assert(img.subrange(d, d + el) =~= dat.subrange(dl, dl + el));
}

/// What the header of a bank holds.
pub proof fn lemma_image_header(es: Seq<EntryView>)
    ensures
        ({
            let img = fsb4_image(es);
            &&& img.len() >= 48
            &&& img.subrange(0, 4) == seq![0x46u8, 0x53, 0x42, 0x34]
            &&& img.subrange(4, 8) == spec_u32_to_le_bytes(es.len() as u32)
            &&& img.subrange(8, 12) == spec_u32_to_le_bytes((data_region_start(es) - 48) as u32)
            &&& img.subrange(12, 16) == spec_u32_to_le_bytes(data_blocks(es).len() as u32)
            &&& img.subrange(16, 20) == spec_u32_to_le_bytes(FSB4_VERSION)
        }),
{
    lemma_auto_spec_u32_to_from_le_bytes();
    lemma_fsb4_image_len(es);
    let img = fsb4_image(es);
    let hd = fsb4_header(es.len() as u32, (data_region_start(es) - 48) as u32, data_blocks(es).len() as u32);
    crate::fsb4::lemma_fsb4_header_len(es.len() as u32, (data_region_start(es) - 48) as u32, data_blocks(es).len() as u32);
    let dirs = dir_blocks(es);
    let gap = zeros(pad_len(48 + dirs.len() as int, 32));
    let dat = data_blocks(es);
    assert(img == hd + dirs + gap + dat);
    assert(img.subrange(0, 48) =~= hd);
    assert(hd.subrange(0, 4) =~= seq![0x46u8, 0x53, 0x42, 0x34]);
    assert(hd.subrange(4, 8) =~= spec_u32_to_le_bytes(es.len() as u32));
    assert(hd.subrange(8, 12) =~= spec_u32_to_le_bytes((data_region_start(es) - 48) as u32));
    assert(hd.subrange(12, 16) =~= spec_u32_to_le_bytes(data_blocks(es).len() as u32));
    assert(hd.subrange(16, 20) =~= spec_u32_to_le_bytes(FSB4_VERSION));
    assert(img.subrange(0, 4) =~= hd.subrange(0, 4));
    assert(img.subrange(4, 8) =~= hd.subrange(4, 8));
    assert(img.subrange(8, 12) =~= hd.subrange(8, 12));
    assert(img.subrange(12, 16) =~= hd.subrange(12, 16));
    assert(img.subrange(16, 20) =~= hd.subrange(16, 20));
}

} // verus!

verus! {

/// The bytes of a file name that a bank keeps: its 30-byte field up to the
/// first zero byte.
pub open spec fn stored_name(name: Seq<char>) -> Seq<u8> {
    let field = name_field(encode_utf8(name));
    field.take(first_zero(field))
}

/// The track that reading back entry `k` of a bank gives.
pub open spec fn written_track(es: Seq<EntryView>, k: int) -> TrackView {
    let e = es[k];
    TrackView {
        filename: lossy_text(stored_name(e.filename)),
        sample_len: e.sample_count,
        compressed_len: e.data.len() as u32,
        data_offset: entry_data_offset(es, k),
        play_mode: entry_play_mode(e.num_channels, e.startpoints.len() > 0),
        sample_rate: SAMPLE_RATE,
        num_channels: e.num_channels,
        startpoints: e.startpoints,
    }
}

/// The tracks that reading back a bank gives, one per entry.
pub open spec fn written_tracks(es: Seq<EntryView>) -> Seq<TrackView> {
    Seq::new(es.len(), |k: int| written_track(es, k))
}

/// A bank whose header and directory fields hold their values unclipped:
/// it fits in memory, its count and directory length fit their 32-bit
/// fields, and every directory entry, startpoints included, fits the
/// 16-bit entry length field (at most 251 startpoints).
pub open spec fn bank_fields_unclipped(es: Seq<EntryView>) -> bool {
    &&& fsb4_fits(es)
    &&& es.len() <= u32::MAX
    &&& data_region_start(es) - 48 <= u32::MAX
    &&& forall|k: int| 0 <= k < es.len() ==> #[trigger] es[k].startpoints.len() <= 251
}

proof fn lemma_u16_bytes(v: u16)
    ensures
        spec_u16_from_le_bytes(spec_u16_to_le_bytes(v)) == v,
        spec_u16_to_le_bytes(v).len() == 2,
{
    lemma_auto_spec_u16_to_from_le_bytes();
}

proof fn lemma_u32_bytes(v: u32)
    ensures
        spec_u32_from_le_bytes(spec_u32_to_le_bytes(v)) == v,
        spec_u32_to_le_bytes(v).len() == 4,
{
    lemma_auto_spec_u32_to_from_le_bytes();
}

/// Reading one directory entry of a bank gives its written track and moves
/// on to the next entry and its data.
#[verifier::spinoff_prover]
#[verifier::rlimit(60)]
proof fn lemma_parse_entry_step(es: Seq<EntryView>, k: int)
    requires
        bank_fields_unclipped(es),
        0 <= k < es.len(),
    ensures
        parse_entries(fsb4_image(es), (es.len() - k) as nat, k, entry_block_offset(es, k), entry_data_offset(es, k))
            == prepend_tracks(
                seq![written_track(es, k)],
                parse_entries(
                    fsb4_image(es),
                    (es.len() - k - 1) as nat,
                    k + 1,
                    entry_block_offset(es, k + 1),
                    entry_data_offset(es, k + 1),
                ),
            ),
{
    let img = fsb4_image(es);
    let e = es[k];
    let o = entry_block_offset(es, k);
    let b = dir_block(e);
    let sp = entry_startpoint_table(e);
    let dpos = entry_data_offset(es, k);
    lemma_entry_in_image(es, k);
    lemma_dir_block_fields(e);
    lemma_dir_block_len(e);
    lemma_fsb4_image_len(es);
    lemma_blocks_prefix(es, k + 1);
    lemma_take_step(es, k);
    assert(e.startpoints.len() <= 251);
    let bl = b.len() as int;
    assert(o + bl <= img.len());
    let blk = img.subrange(o, o + bl);
    assert(blk == b);

    // the fixed fields
    assert(img.subrange(o, o + 2) =~= b.subrange(0, 2));
    lemma_u16_bytes((80 + sp.len()) as u16);
    let entry_len = le16_at(img, o) as int;
    assert(entry_len == 80 + sp.len());
    assert(img.subrange(o + 2, o + 32) =~= b.subrange(2, 32));
    assert(entry_filename(img, o) == lossy_text(stored_name(e.filename)));
    assert(img.subrange(o + 32, o + 36) =~= b.subrange(32, 36));
    lemma_u32_bytes(e.sample_count);
    assert(img.subrange(o + 36, o + 40) =~= b.subrange(36, 40));
    lemma_u32_bytes(e.data.len() as u32);
    assert(img.subrange(o + 48, o + 52) =~= b.subrange(48, 52));
    lemma_u32_bytes(entry_play_mode(e.num_channels, e.startpoints.len() > 0));
    assert(img.subrange(o + 52, o + 56) =~= b.subrange(52, 56));
    lemma_u32_bytes(SAMPLE_RATE);
    assert(img.subrange(o + 62, o + 64) =~= b.subrange(62, 64));
    lemma_u16_bytes(e.num_channels);

    // the startpoints
    if e.startpoints.len() == 0 {
        assert(entry_startpoints(img, o, entry_len) == Some(e.startpoints));
    } else {
        let n = e.startpoints.len();
        let recs = startpoint_records(e.startpoints);
        lemma_startpoint_table_len(e.startpoints);
        lemma_u32_bytes(n as u32);
        assert(sp == sync_tag() + spec_u32_to_le_bytes(n as u32) + recs);
        let spo = o + 80;
        assert(img.subrange(spo, o + bl) =~= sp) by {
            assert(img.subrange(spo, o + bl) =~= b.subrange(80, bl));
        }
        assert(img.subrange(spo, spo + 4) =~= sync_tag()) by {
            assert(img.subrange(spo, spo + 4) =~= sp.subrange(0, 4));
        }
        assert(img.subrange(spo + 4, spo + 8) =~= spec_u32_to_le_bytes(n as u32)) by {
            assert(img.subrange(spo + 4, spo + 8) =~= sp.subrange(4, 8));
        }
        assert(le32_at(img, spo + 4) == n);
        let count = n as int;
        assert(spo + 8 + (count - 1) * 260 + 4 <= img.len());
        let got = Seq::new(count as nat, |j: int| le32_at(img, spo + 8 + j * 260));
        assert forall|j: int| 0 <= j < count implies got[j] == e.startpoints[j] by {
            lemma_startpoint_records_at(e.startpoints, j);
            lemma_u32_bytes(e.startpoints[j]);
            assert(img.subrange(spo + 8 + j * 260, spo + 8 + j * 260 + 4) =~= recs.subrange(260 * j, 260 * j + 4)) by {
                assert(img.subrange(spo + 8 + j * 260, spo + 8 + j * 260 + 4) =~= sp.subrange(8 + 260 * j, 8 + 260 * j + 4));
                assert(sp.subrange(8 + 260 * j, 8 + 260 * j + 4) =~= recs.subrange(260 * j, 260 * j + 4));
            }
        }
        assert(got =~= e.startpoints);
        assert(entry_startpoints(img, o, entry_len) == Some(e.startpoints));
    }
    assert(entry_track(img, o, dpos, e.startpoints) == written_track(es, k));
    assert(e.data.len() <= data_blocks(es).len());
    assert(o + entry_len == entry_block_offset(es, k + 1));
}

/// Reading the directory of a bank from entry `k` on gives the written
/// tracks of those entries.
proof fn lemma_parse_entries_from(es: Seq<EntryView>, k: int)
    requires
        bank_fields_unclipped(es),
        0 <= k <= es.len(),
    ensures
        parse_entries(fsb4_image(es), (es.len() - k) as nat, k, entry_block_offset(es, k), entry_data_offset(es, k))
            == ParseOutcome::Parsed(written_tracks(es).skip(k)),
    decreases es.len() - k,
{
    if k == es.len() {
        assert(written_tracks(es).skip(k) =~= Seq::<TrackView>::empty());
    } else {
        lemma_parse_entry_step(es, k);
        lemma_parse_entries_from(es, k + 1);
        assert(seq![written_track(es, k)] + written_tracks(es).skip(k + 1) =~= written_tracks(es).skip(k));
    }
}

/// Reading back a bank that `create_fsb4` wrote gives one track per entry,
/// in order, with the entry's sample count, data length, play mode,
/// channel count and startpoints, the bank's sample rate, and the offset at
/// which the entry's data lies verbatim in the bank; a name of at most 30
/// UTF-8 bytes with no zero byte comes back whole.
pub proof fn lemma_read_back_bank(es: Seq<EntryView>)
    requires
        bank_fields_unclipped(es),
    ensures
        spec_parse_fsb4(fsb4_image(es)) == ParseOutcome::Parsed(written_tracks(es)),
        forall|k: int| 0 <= k < es.len() ==> fsb4_image(es).subrange(
            #[trigger] entry_data_offset(es, k),
            entry_data_offset(es, k) + es[k].data.len(),
        ) == es[k].data,
        forall|k: int|
            0 <= k < es.len() && encode_utf8(es[k].filename).len() <= 30 && !encode_utf8(
                es[k].filename,
            ).contains(0) ==> #[trigger] written_track(es, k).filename == es[k].filename,
{
    let img = fsb4_image(es);
    lemma_image_header(es);
    lemma_fsb4_image_len(es);
    lemma_u32_bytes(es.len() as u32);
    lemma_u32_bytes((data_region_start(es) - 48) as u32);
    lemma_u32_bytes(data_blocks(es).len() as u32);
    lemma_u32_bytes(FSB4_VERSION);
    assert(es.take(0) =~= Seq::<EntryView>::empty());
    assert(entry_block_offset(es, 0) == 48);
    assert(entry_data_offset(es, 0) == data_region_start(es));
    lemma_parse_entries_from(es, 0);
    assert(written_tracks(es).skip(0) =~= written_tracks(es));
    assert forall|k: int| 0 <= k < es.len() implies img.subrange(
        #[trigger] entry_data_offset(es, k),
        entry_data_offset(es, k) + es[k].data.len(),
    ) == es[k].data by {
        lemma_entry_in_image(es, k);
    }
    assert forall|k: int|
        0 <= k < es.len() && encode_utf8(es[k].filename).len() <= 30 && !encode_utf8(
            es[k].filename,
        ).contains(0) implies #[trigger] written_track(es, k).filename == es[k].filename by {
        lemma_stored_name(es[k].filename);
    }
}

/// The index of the first zero byte of `n` followed by zeros is `n`'s length
/// when `n` has no zero byte.
proof fn lemma_first_zero_after(n: Seq<u8>, z: Seq<u8>)
    requires
        !n.contains(0),
        z.len() == 0 || z[0] == 0,
    ensures
        first_zero(n + z) == n.len(),
    decreases n.len(),
{
    if n.len() == 0 {
        assert(n + z =~= z);
    } else {
        assert(n[0] != 0) by {
            if n[0] == 0 {
                assert(n.contains(0));
            }
        }
        assert(!n.drop_first().contains(0)) by {
            if n.drop_first().contains(0) {
                let i = choose|i: int| 0 <= i < n.drop_first().len() && n.drop_first()[i] == 0;
                assert(n[i + 1] == 0);
            }
        }
        lemma_first_zero_after(n.drop_first(), z);
        assert((n + z).drop_first() =~= n.drop_first() + z);
    }
}

/// A name of at most 30 UTF-8 bytes without a zero byte is kept whole.
proof fn lemma_stored_name(name: Seq<char>)
    requires
        encode_utf8(name).len() <= 30,
        !encode_utf8(name).contains(0),
    ensures
        lossy_text(stored_name(name)) == name,
{
    let n = encode_utf8(name);
    let field = name_field(n);
    if n.len() == 30 {
        assert(field =~= n + Seq::<u8>::empty());
        lemma_first_zero_after(n, Seq::<u8>::empty());
        assert(field.take(30) =~= n);
    } else {
        let z = zeros(30 - n.len());
        assert(z[0] == 0);
        lemma_first_zero_after(n, z);
        assert(field.take(n.len() as int) =~= n);
    }
    vstd::utf8::encode_utf8_valid_utf8(name);
    vstd::utf8::encode_utf8_decode_utf8(name);
}

} // verus!

verus! {

/// Frames, each followed by zero bytes up to a multiple of `a` bytes.
pub open spec fn pad_all(fs: Seq<Seq<u8>>, a: int) -> Seq<u8>
    decreases fs.len(),
{
    if fs.len() == 0 {
        Seq::empty()
    } else {
        pad_all(fs.drop_last(), a) + fs.last() + zeros(pad_len(fs.last().len() as int, a))
    }
}

/// Where each frame of `pad_all(fs, a)` starts, with its length.
pub open spec fn frame_starts(fs: Seq<Seq<u8>>, a: int) -> Seq<(usize, usize)> {
    Seq::new(fs.len(), |i: int| (pad_all(fs.take(i), a).len() as usize, fs[i].len() as usize))
}

/// Every element is a whole MPEG-1 Layer III frame.
pub open spec fn whole_frames(fs: Seq<Seq<u8>>) -> bool {
    forall|i: int| 0 <= i < fs.len() ==> #[trigger] fs[i].len() >= 4 && frame_len_at(fs[i], 0) == Some(fs[i].len() as int)
}

/// Whether a frame starts at `o` depends on the four bytes there only.
proof fn lemma_frame_len_same_bytes(s: Seq<u8>, o: int, t: Seq<u8>, p: int)
    requires
        0 <= o,
        o + 4 <= s.len(),
        0 <= p,
        p + 4 <= t.len(),
        s[o] == t[p],
        s[o + 1] == t[p + 1],
        s[o + 2] == t[p + 2],
        s[o + 3] == t[p + 3],
    ensures
        frame_len_at(s, o) == frame_len_at(t, p),
{
}

/// Zero bytes hold no frame: scanning over them changes nothing.
proof fn lemma_scan_skips_zeros(s: Seq<u8>, a: int, b: int)
    requires
        0 <= a <= b <= s.len(),
        forall|i: int| a <= i < b ==> s[i] == 0,
    ensures
        frames_from(s, a) == frames_from(s, b),
    decreases b - a,
{
    if a < b && a + 4 <= s.len() {
        assert(frame_len_at(s, a) is None);
        lemma_scan_skips_zeros(s, a + 1, b);
    }
}

proof fn lemma_pad_all_step(fs: Seq<Seq<u8>>, a: int, k: int)
    requires
        0 <= k < fs.len(),
    ensures
        pad_all(fs.take(k + 1), a) == pad_all(fs.take(k), a) + fs[k] + zeros(pad_len(fs[k].len() as int, a)),
{
    assert(fs.take(k + 1).drop_last() =~= fs.take(k));
    assert(fs.take(k + 1).last() == fs[k]);
}

proof fn lemma_pad_all_prefix(fs: Seq<Seq<u8>>, a: int, j: int)
    requires
        0 <= j <= fs.len(),
    ensures
        pad_all(fs.take(j), a).len() <= pad_all(fs, a).len(),
        pad_all(fs, a).subrange(0, pad_all(fs.take(j), a).len() as int) == pad_all(fs.take(j), a),
    decreases fs.len() - j,
{
    if j == fs.len() {
        assert(fs.take(j) =~= fs);
        assert(pad_all(fs, a).subrange(0, pad_all(fs, a).len() as int) =~= pad_all(fs, a));
    } else {
        lemma_pad_all_prefix(fs, a, j + 1);
        lemma_pad_all_step(fs, a, j);
        let x = pad_all(fs.take(j), a);
        let y = pad_all(fs.take(j + 1), a);
        assert(pad_all(fs, a).subrange(0, x.len() as int) =~= y.subrange(0, x.len() as int));
        assert(y.subrange(0, x.len() as int) =~= x);
    }
}

/// Where frame `k` and its padding lie in `pad_all(fs, a)`.
proof fn lemma_pad_all_at(fs: Seq<Seq<u8>>, a: int, k: int)
    requires
        0 <= k < fs.len(),
        a > 0,
    ensures
        ({
            let s = pad_all(fs, a);
            let st = pad_all(fs.take(k), a).len() as int;
            let nx = pad_all(fs.take(k + 1), a).len() as int;
            &&& nx == st + fs[k].len() + pad_len(fs[k].len() as int, a)
            &&& nx <= s.len()
            &&& s.subrange(st, st + fs[k].len()) == fs[k]
            &&& forall|i: int| st + fs[k].len() <= i < nx ==> s[i] == 0
        }),
{
    lemma_pad_all_prefix(fs, a, k + 1);
    lemma_pad_all_step(fs, a, k);
    lemma_padded_frame_aligned(fs[k].len() as int, a);
    let s = pad_all(fs, a);
    let st = pad_all(fs.take(k), a).len() as int;
    let nx = pad_all(fs.take(k + 1), a).len() as int;
    let y = pad_all(fs.take(k + 1), a);
    let fl = fs[k].len() as int;
    assert(s.subrange(st, st + fl) =~= y.subrange(st, st + fl));
    assert(y.subrange(st, st + fl) =~= fs[k]);
    assert forall|i: int| st + fl <= i < nx implies s[i] == 0 by {
        assert(s[i] == s.subrange(0, nx)[i]);
        assert(y[i] == zeros(pad_len(fl, a))[i - st - fl]);
    }
}

/// Scanning padded whole frames from frame `k` on finds exactly those frames.
proof fn lemma_scan_pad_all_from(fs: Seq<Seq<u8>>, a: int, k: int)
    requires
        whole_frames(fs),
        a > 0,
        pad_all(fs, a).len() <= usize::MAX,
        0 <= k <= fs.len(),
    ensures
        frames_from(pad_all(fs, a), pad_all(fs.take(k), a).len() as int) == frame_starts(fs, a).skip(k),
    decreases fs.len() - k,
{
    let s = pad_all(fs, a);
    if k == fs.len() {
        assert(fs.take(k) =~= fs);
        assert(frame_starts(fs, a).skip(k) =~= Seq::<(usize, usize)>::empty());
    } else {
        lemma_pad_all_at(fs, a, k);
        lemma_pad_all_prefix(fs, a, k);
        let st = pad_all(fs.take(k), a).len() as int;
        let nx = pad_all(fs.take(k + 1), a).len() as int;
        let f = fs[k];
        let fl = f.len() as int;
        assert(fl >= 4 && frame_len_at(f, 0) == Some(fl));
        assert(s.subrange(st, st + fl)[0] == f[0]);
        assert(s.subrange(st, st + fl)[1] == f[1]);
        assert(s.subrange(st, st + fl)[2] == f[2]);
        assert(s.subrange(st, st + fl)[3] == f[3]);
        lemma_frame_len_same_bytes(s, st, f, 0);
        lemma_frame_len_bounds(f, 0);
        assert(frames_from(s, st) == seq![(st as usize, fl as usize)] + frames_from(s, st + fl));
        lemma_scan_skips_zeros(s, st + fl, nx);
        lemma_scan_pad_all_from(fs, a, k + 1);
        assert(frame_starts(fs, a).skip(k) =~= seq![(st as usize, fl as usize)] + frame_starts(fs, a).skip(k + 1));
    }
}

/// Scanning padded whole frames finds exactly those frames, at their starts.
pub proof fn lemma_scan_pad_all(fs: Seq<Seq<u8>>, a: int)
    requires
        whole_frames(fs),
        a > 0,
        pad_all(fs, a).len() <= usize::MAX,
    ensures
        spec_frames(pad_all(fs, a)) == frame_starts(fs, a),
        forall|i: int| 0 <= i < fs.len() ==> frame_bytes(pad_all(fs, a), #[trigger] frame_starts(fs, a)[i]) == fs[i],
{
    assert(fs.take(0) =~= Seq::<Seq<u8>>::empty());
    lemma_scan_pad_all_from(fs, a, 0);
    assert(frame_starts(fs, a).skip(0) =~= frame_starts(fs, a));
    assert forall|i: int| 0 <= i < fs.len() implies frame_bytes(pad_all(fs, a), #[trigger] frame_starts(fs, a)[i]) == fs[i] by {
        lemma_pad_all_at(fs, a, i);
    }
}

} // verus!

verus! {

/// The bytes of each frame.
pub open spec fn frames_bytes(data: Seq<u8>, frames: Seq<(usize, usize)>) -> Seq<Seq<u8>> {
    Seq::new(frames.len(), |i: int| frame_bytes(data, frames[i]))
}

/// The byte sequences concatenated.
pub open spec fn concat_all(fs: Seq<Seq<u8>>) -> Seq<u8>
    decreases fs.len(),
{
    if fs.len() == 0 {
        Seq::empty()
    } else {
        concat_all(fs.drop_last()) + fs.last()
    }
}

/// Elements `p`, `p + n`, `p + 2 * n`, ... concatenated.
pub open spec fn every_nth(fs: Seq<Seq<u8>>, n: int, p: int) -> Seq<u8>
    decreases fs.len() - p,
{
    if n <= 0 || p < 0 || p >= fs.len() {
        Seq::empty()
    } else if p + n >= fs.len() {
        fs[p]
    } else {
        fs[p] + every_nth(fs, n, p + n)
    }
}

proof fn lemma_concat_all_front(x: Seq<u8>, rest: Seq<Seq<u8>>)
    ensures
        concat_all(seq![x] + rest) == x + concat_all(rest),
    decreases rest.len(),
{
    if rest.len() == 0 {
        assert(seq![x] + rest =~= seq![x]);
        assert(seq![x].drop_last() =~= Seq::<Seq<u8>>::empty());
        assert(concat_all(seq![x]) == concat_all(Seq::<Seq<u8>>::empty()) + x);
        assert(Seq::<u8>::empty() + x =~= x);
        assert(x + Seq::<u8>::empty() =~= x);
    } else {
        lemma_concat_all_front(x, rest.drop_last());
        let all = seq![x] + rest;
        assert(all.drop_last() =~= seq![x] + rest.drop_last());
        assert(all.last() == rest.last());
        assert(concat_all(all) == concat_all(all.drop_last()) + all.last());
        assert(concat_all(rest) == concat_all(rest.drop_last()) + rest.last());
        assert(x + concat_all(rest.drop_last()) + rest.last() =~= x + (concat_all(rest.drop_last()) + rest.last()));
    }
}

/// The frames of a scan, taken one by one, make up the concatenation and
/// the padded copy of the frames.
proof fn lemma_frames_bytes_concat(data: Seq<u8>, frames: Seq<(usize, usize)>, a: int)
    requires
        forall|i: int| 0 <= i < frames.len() ==> #[trigger] frames[i].0 + frames[i].1 <= data.len(),
    ensures
        concat_frames(data, frames) == concat_all(frames_bytes(data, frames)),
        padded_frames(data, frames, a) == pad_all(frames_bytes(data, frames), a),
    decreases frames.len(),
{
    if frames.len() > 0 {
        let init = frames.drop_last();
        assert forall|i: int| 0 <= i < init.len() implies #[trigger] init[i].0 + init[i].1 <= data.len() by {
            assert(init[i] == frames[i]);
        }
        lemma_frames_bytes_concat(data, init, a);
        assert(frames_bytes(data, frames).drop_last() =~= frames_bytes(data, init));
        let f = frames.last();
        assert(frames[frames.len() - 1] == f);
        assert(frames_bytes(data, frames).last() == frame_bytes(data, f));
        assert(frame_bytes(data, f).len() == f.1);
    } else {
        assert(frames_bytes(data, frames) =~= Seq::<Seq<u8>>::empty());
    }
}

/// The frames a scan finds are whole frames.
proof fn lemma_scanned_frames_whole(data: Seq<u8>, frames: Seq<(usize, usize)>)
    requires
        frames_well_formed(data, frames),
    ensures
        whole_frames(frames_bytes(data, frames)),
{
    let fs = frames_bytes(data, frames);
    assert forall|i: int| 0 <= i < fs.len() implies #[trigger] fs[i].len() >= 4 && frame_len_at(fs[i], 0) == Some(fs[i].len() as int) by {
        let f = frames[i];
        assert(frame_len_at(data, f.0 as int) == Some(f.1 as int));
        assert(96 <= f.1);
        let b = fs[i];
        assert(b == data.subrange(f.0 as int, f.0 + f.1));
        assert(b[0] == data[f.0 as int]);
        assert(b[1] == data[f.0 + 1]);
        assert(b[2] == data[f.0 + 2]);
        assert(b[3] == data[f.0 + 3]);
        lemma_frame_len_same_bytes(b, 0, data, f.0 as int);
    }
}

/// Taking every `n`-th frame of a scanned sequence gives every `n`-th byte block.
proof fn lemma_pair_stream_every_nth(s: Seq<u8>, starts: Seq<(usize, usize)>, fs: Seq<Seq<u8>>, n: int, p: int)
    requires
        starts.len() == fs.len(),
        forall|i: int| 0 <= i < fs.len() ==> frame_bytes(s, #[trigger] starts[i]) == fs[i],
    ensures
        pair_stream(s, starts, n, p) == every_nth(fs, n, p),
    decreases fs.len() - p,
{
    if n > 0 && 0 <= p < fs.len() && p + n < fs.len() {
        lemma_pair_stream_every_nth(s, starts, fs, n, p + n);
    }
}

/// Concatenating the scanned frames gives the concatenated byte blocks.
proof fn lemma_concat_frames_all(s: Seq<u8>, starts: Seq<(usize, usize)>, fs: Seq<Seq<u8>>)
    requires
        starts.len() == fs.len(),
        forall|i: int| 0 <= i < fs.len() ==> frame_bytes(s, #[trigger] starts[i]) == fs[i],
    ensures
        concat_frames(s, starts) == concat_all(fs),
    decreases fs.len(),
{
    if fs.len() > 0 {
        let st = starts.drop_last();
        let f = fs.drop_last();
        assert forall|i: int| 0 <= i < f.len() implies frame_bytes(s, #[trigger] st[i]) == f[i] by {
            assert(st[i] == starts[i]);
        }
        lemma_concat_frames_all(s, st, f);
        assert(frame_bytes(s, starts[fs.len() - 1]) == fs[fs.len() - 1]);
    }
}

/// A lone stereo pair whose frames were padded with zeros to a multiple of
/// any alignment splits back into exactly its frames.
pub proof fn lemma_padded_pair_splits_back(data: Seq<u8>, alignment: int, num_channels: u16)
    requires
        alignment >= 1,
        num_channels / 2 <= 1,
        padded_frames(data, spec_frames(data), alignment).len() <= usize::MAX,
        data.len() <= usize::MAX,
    ensures
        spec_frames(padded_frames(data, spec_frames(data), alignment)).len() == spec_frames(data).len(),
        spec_track_streams(padded_frames(data, spec_frames(data), alignment), num_channels)
            == seq![concat_frames(data, spec_frames(data))],
{
    let frames = spec_frames(data);
    let fs = frames_bytes(data, frames);
    lemma_frames_from_well_formed(data, 0);
    lemma_scanned_frames_whole(data, frames);
    lemma_frames_bytes_concat(data, frames, alignment);
    let out = padded_frames(data, frames, alignment);
    lemma_scan_pad_all(fs, alignment);
    lemma_concat_frames_all(out, spec_frames(out), fs);
}

} // verus!

verus! {

/// The frames of interleaved pairs in the order they are written: frame 0
/// of every pair, then frame 1 of every pair, and so on for `rows` rows.
pub open spec fn interleave_order(pairs: Seq<Seq<u8>>, rows: int) -> Seq<Seq<u8>> {
    let n = pairs.len() as int;
    Seq::new(
        (rows * n) as nat,
        |i: int| frame_bytes(pairs[i % n], spec_frames(pairs[i % n])[i / n]),
    )
}

proof fn lemma_div_mod_pos(r: int, n: int, q: int)
    requires
        n > 0,
        0 <= q < n,
        r >= 0,
    ensures
        (r * n + q) / n == r,
        (r * n + q) % n == q,
        r * n + q >= 0,
{
    vstd::arithmetic::div_mod::lemma_fundamental_div_mod_converse_div(r * n + q, n, r, q);
    vstd::arithmetic::div_mod::lemma_fundamental_div_mod_converse_mod(r * n + q, n, r, q);
    assert(r * n >= 0) by (nonlinear_arith)
        requires
            r >= 0,
            n > 0,
    ;
}

/// Facts on the inputs of an interleaving that the proofs below share.
pub open spec fn interleave_inputs(pairs: Seq<Seq<u8>>, rows: int) -> bool {
    &&& pairs.len() > 0
    &&& 0 <= rows
    &&& forall|p: int| 0 <= p < pairs.len() ==> #[trigger] pairs[p].len() <= usize::MAX
    &&& forall|p: int| 0 <= p < pairs.len() ==> rows <= #[trigger] spec_frames(pairs[p]).len()
}

proof fn lemma_frame_of_pair(pairs: Seq<Seq<u8>>, rows: int, p: int, r: int)
    requires
        interleave_inputs(pairs, rows),
        0 <= p < pairs.len(),
        0 <= r < rows,
    ensures
        frame_bytes(pairs[p], spec_frames(pairs[p])[r]).len() == spec_frames(pairs[p])[r].1,
        whole_frames(seq![frame_bytes(pairs[p], spec_frames(pairs[p])[r])]),
{
    let d = pairs[p];
    assert(d.len() <= usize::MAX);
    lemma_frames_from_well_formed(d, 0);
    let fr = spec_frames(d);
    assert(r < fr.len());
    let f = fr[r];
    assert(f.0 + f.1 <= d.len());
    let fs = frames_bytes(d, fr);
    lemma_scanned_frames_whole(d, fr);
    assert(fs[r] == frame_bytes(d, f));
    let one = seq![frame_bytes(d, f)];
    assert forall|i: int| 0 <= i < one.len() implies #[trigger] one[i].len() >= 4 && frame_len_at(one[i], 0) == Some(one[i].len() as int) by {
        assert(one[i] == fs[r]);
    }
}

/// Writing the first `q` frames of row `r` extends the first `r` rows by
/// that part of the row.
proof fn lemma_interleaved_row_prefix(pairs: Seq<Seq<u8>>, rows: int, r: int, q: int)
    requires
        interleave_inputs(pairs, rows),
        0 <= r < rows,
        0 <= q <= pairs.len(),
        pad_all(interleave_order(pairs, rows).take(r * pairs.len()), 16) == interleaved(pairs, r),
    ensures
        pad_all(interleave_order(pairs, rows).take(r * pairs.len() + q), 16)
            == interleaved(pairs, r) + interleave_row(pairs, r, q),
    decreases q,
{
    let n = pairs.len() as int;
    let fs = interleave_order(pairs, rows);
    if q == 0 {
        assert(interleaved(pairs, r) + interleave_row(pairs, r, 0) =~= interleaved(pairs, r));
    } else {
        lemma_interleaved_row_prefix(pairs, rows, r, q - 1);
        let i = r * n + (q - 1);
        lemma_div_mod_pos(r, n, q - 1);
        vstd::arithmetic::mul::lemma_mul_inequality(r + 1, rows, n);
        assert((r + 1) * n == r * n + n) by (nonlinear_arith);
        assert(i < rows * n);
        lemma_pad_all_step(fs, 16, i);
        let f = spec_frames(pairs[q - 1])[r];
        assert(fs[i] == frame_bytes(pairs[q - 1], f));
        lemma_frame_of_pair(pairs, rows, q - 1, r);
        assert(fs[i].len() == f.1);
        assert(interleave_row(pairs, r, q) == interleave_row(pairs, r, q - 1) + padded_frame(pairs[q - 1], f, 16));
        assert(interleaved(pairs, r) + interleave_row(pairs, r, q - 1) + fs[i] + zeros(pad_len(fs[i].len() as int, 16))
            =~= interleaved(pairs, r) + (interleave_row(pairs, r, q - 1) + padded_frame(pairs[q - 1], f, 16)));
    }
}

/// The first `r` rows are the padded frames of the first `r` rows in order.
proof fn lemma_interleaved_rows(pairs: Seq<Seq<u8>>, rows: int, r: int)
    requires
        interleave_inputs(pairs, rows),
        0 <= r <= rows,
    ensures
        pad_all(interleave_order(pairs, rows).take(r * pairs.len()), 16) == interleaved(pairs, r),
    decreases r,
{
    let n = pairs.len() as int;
    let fs = interleave_order(pairs, rows);
    if r == 0 {
        assert(fs.take(0) =~= Seq::<Seq<u8>>::empty());
    } else {
        lemma_interleaved_rows(pairs, rows, r - 1);
        lemma_interleaved_row_prefix(pairs, rows, r - 1, n);
        assert((r - 1) * n + n == r * n) by (nonlinear_arith);
    }
}

/// The frames of interleaved pairs are whole frames.
proof fn lemma_interleave_order_whole(pairs: Seq<Seq<u8>>, rows: int)
    requires
        interleave_inputs(pairs, rows),
    ensures
        whole_frames(interleave_order(pairs, rows)),
{
    let n = pairs.len() as int;
    let fs = interleave_order(pairs, rows);
    assert forall|i: int| 0 <= i < fs.len() implies #[trigger] fs[i].len() >= 4 && frame_len_at(fs[i], 0) == Some(fs[i].len() as int) by {
        let p = i % n;
        let r = i / n;
        vstd::arithmetic::div_mod::lemma_fundamental_div_mod(i, n);
        assert(0 <= p < n);
        assert(0 <= r < rows) by (nonlinear_arith)
            requires
                i == n * r + p,
                0 <= i < rows * n,
                0 <= p < n,
                n > 0,
        ;
        lemma_frame_of_pair(pairs, rows, p, r);
        let one = seq![frame_bytes(pairs[p], spec_frames(pairs[p])[r])];
        assert(one[0] == fs[i]);
    }
}

/// Every `n`-th interleaved frame from row `j` on, starting at pair `p`, is
/// the rest of pair `p`'s frames.
proof fn lemma_every_nth_interleaved(pairs: Seq<Seq<u8>>, rows: int, p: int, j: int)
    requires
        interleave_inputs(pairs, rows),
        0 <= p < pairs.len(),
        0 <= j <= rows,
    ensures
        every_nth(interleave_order(pairs, rows), pairs.len() as int, p + j * pairs.len())
            == concat_all(frames_bytes(pairs[p], spec_frames(pairs[p]).take(rows)).skip(j)),
    decreases rows - j,
{
    let n = pairs.len() as int;
    let fs = interleave_order(pairs, rows);
    let g = frames_bytes(pairs[p], spec_frames(pairs[p]).take(rows));
    lemma_div_mod_pos(j, n, p);
    assert(p + j * n == j * n + p);
    if j == rows {
        assert(p + j * n >= fs.len());
        assert(g.skip(j) =~= Seq::<Seq<u8>>::empty());
    } else {
        assert(p + j * n < rows * n) by (nonlinear_arith)
            requires
                0 <= p < n,
                j < rows,
                j >= 0,
        ;
        assert(fs[p + j * n] == g[j]);
        assert(g.skip(j) =~= seq![g[j]] + g.skip(j + 1));
        lemma_concat_all_front(g[j], g.skip(j + 1));
        assert(p + j * n + n == p + (j + 1) * n) by (nonlinear_arith);
        if j + 1 == rows {
            assert(g.skip(j + 1) =~= Seq::<Seq<u8>>::empty());
            assert(p + (j + 1) * n >= rows * n);
            assert(g[j] + Seq::<u8>::empty() =~= g[j]);
        } else {
            assert(p + (j + 1) * n < rows * n) by (nonlinear_arith)
                requires
                    0 <= p < n,
                    j + 1 < rows,
                    j >= 0,
            ;
            lemma_every_nth_interleaved(pairs, rows, p, j + 1);
        }
    }
}

/// Interleaved stereo pairs split back into each pair's frames: the track
/// of `n` pairs, `2n` channels, holds one stream per pair, made of that
/// pair's frames of the rows written, in order.
pub proof fn lemma_interleaved_pairs_split_back(pairs: Seq<Seq<u8>>)
    requires
        2 <= pairs.len() <= 32767,
        forall|p: int| 0 <= p < pairs.len() ==> #[trigger] pairs[p].len() <= usize::MAX,
        interleaved(pairs, min_frame_count(pairs)).len() <= usize::MAX,
    ensures
        ({
            let rows = min_frame_count(pairs);
            let out = interleaved(pairs, rows);
            let streams = spec_track_streams(out, (2 * pairs.len()) as u16);
            &&& spec_frames(out).len() == rows * pairs.len()
            &&& streams.len() == pairs.len()
            &&& forall|p: int| 0 <= p < pairs.len() ==>
                #[trigger] streams[p] == concat_frames(pairs[p], spec_frames(pairs[p]).take(rows))
        }),
{
    let n = pairs.len() as int;
    let rows = min_frame_count(pairs);
    crate::mp3::lemma_min_frame_count(pairs);
    assert(interleave_inputs(pairs, rows));
    let fs = interleave_order(pairs, rows);
    lemma_interleaved_rows(pairs, rows, rows);
    assert(fs.take(rows * n) =~= fs);
    let out = interleaved(pairs, rows);
    assert(out == pad_all(fs, 16));
    lemma_interleave_order_whole(pairs, rows);
    lemma_scan_pad_all(fs, 16);
    let starts = spec_frames(out);
    assert(((2 * n) as u16) / 2 == n);
    let streams = spec_track_streams(out, (2 * n) as u16);
    assert forall|p: int| 0 <= p < n implies #[trigger] streams[p] == concat_frames(pairs[p], spec_frames(pairs[p]).take(rows)) by {
        lemma_pair_stream_every_nth(out, starts, fs, n, p);
        lemma_every_nth_interleaved(pairs, rows, p, 0);
        let g = frames_bytes(pairs[p], spec_frames(pairs[p]).take(rows));
        assert(g.skip(0) =~= g);
        let d = pairs[p];
        lemma_frames_from_well_formed(d, 0);
        let tk = spec_frames(d).take(rows);
        assert forall|i: int| 0 <= i < tk.len() implies #[trigger] tk[i].0 + tk[i].1 <= d.len() by {
            assert(tk[i] == spec_frames(d)[i]);
        }
        lemma_frames_bytes_concat(d, tk, 16);
    }
}

} // verus!

verus! {

/// The MP3 streams a track built from `chunk` holds: the frames of a lone
/// stream, or for several streams each stream's frames of the rows that all
/// of them have.
pub open spec fn chunk_streams(chunk: Seq<Seq<u8>>) -> Seq<Seq<u8>> {
    if chunk.len() == 1 {
        seq![concat_frames(chunk[0], spec_frames(chunk[0]))]
    } else {
        Seq::new(
            chunk.len(),
            |p: int| concat_frames(chunk[p], spec_frames(chunk[p]).take(min_frame_count(chunk))),
        )
    }
}


/// What the entries built from track `i` on hold.
proof fn lemma_built_entries(paths: Seq<Seq<char>>, pairs: Seq<Seq<u8>>, num_startpoints: usize, i: int)
    requires
        0 <= i,
        build_from(paths, pairs, num_startpoints, i) is Built,
    ensures
        ({
            let es = build_from(paths, pairs, num_startpoints, i)->Built_0;
            &&& es.len() == if 3 * i >= pairs.len() { 0 } else { track_count(pairs.len() as int) - i }
            &&& forall|k: int| 0 <= k < es.len() ==> {
                &&& chunk_audio(chunk_of(pairs, i + k)) == Some(Ok::<Seq<u8>, Seq<char>>(#[trigger] es[k].data))
                &&& es[k].num_channels == (chunk_of(pairs, i + k).len() * 2) as u16
            }
        }),
    decreases pairs.len() - i,
{
    if 3 * i < pairs.len() {
        lemma_built_entries(paths, pairs, num_startpoints, i + 1);
        let es = build_from(paths, pairs, num_startpoints, i)->Built_0;
        let rest = build_from(paths, pairs, num_startpoints, i + 1)->Built_0;
        assert(es == seq![es[0]] + rest);
        assert forall|k: int| 0 <= k < es.len() implies {
            &&& chunk_audio(chunk_of(pairs, i + k)) == Some(Ok::<Seq<u8>, Seq<char>>(#[trigger] es[k].data))
            &&& es[k].num_channels == (chunk_of(pairs, i + k).len() * 2) as u16
        } by {
            if k > 0 {
                assert(es[k] == rest[k - 1]);
                assert(i + 1 + (k - 1) == i + k);
            }
        }
        if 3 * (i + 1) >= pairs.len() {
            assert(track_count(pairs.len() as int) - i == 1);
        }
    }
}

/// Extracting a bank built from MP3 streams gives the streams back: the
/// data of track `k`, split by its channel count, is the frames of the
/// streams that made it, padding dropped; for several streams, the frames
/// of the rows that all of them have.
#[verifier::rlimit(40)]
pub proof fn lemma_extract_built_bank(paths: Seq<Seq<char>>, pairs: Seq<Seq<u8>>, num_startpoints: usize)
    requires
        forall|p: int| 0 <= p < pairs.len() ==> #[trigger] pairs[p].len() <= usize::MAX,
        build_from(paths, pairs, num_startpoints, 0) is Built,
        bank_fields_unclipped(build_from(paths, pairs, num_startpoints, 0)->Built_0),
    ensures
        ({
            let es = build_from(paths, pairs, num_startpoints, 0)->Built_0;
            let bank = fsb4_image(es);
            &&& es.len() == track_count(pairs.len() as int)
            &&& forall|k: int| 0 <= k < es.len() ==> spec_track_streams(
                bank.subrange(entry_data_offset(es, k), entry_data_offset(es, k) + es[k].data.len()),
                #[trigger] es[k].num_channels,
            ) == chunk_streams(chunk_of(pairs, k))
        }),
{
    let es = build_from(paths, pairs, num_startpoints, 0)->Built_0;
    lemma_built_entries(paths, pairs, num_startpoints, 0);
    lemma_read_back_bank(es);
    crate::fsb4::lemma_fsb4_image_len(es);
    if pairs.len() == 0 {
        assert(track_count(0) == 0);
    }
    assert forall|k: int| 0 <= k < es.len() implies spec_track_streams(
        fsb4_image(es).subrange(entry_data_offset(es, k), entry_data_offset(es, k) + es[k].data.len()),
        #[trigger] es[k].num_channels,
    ) == chunk_streams(chunk_of(pairs, k)) by {
        let chunk = chunk_of(pairs, k);
        let data = es[k].data;
        assert(chunk_audio(chunk) == Some(Ok::<Seq<u8>, Seq<char>>(data)));
        assert(fsb4_image(es).subrange(entry_data_offset(es, k), entry_data_offset(es, k) + data.len()) == data);
        lemma_entry_in_image(es, k);
        lemma_blocks_prefix(es, k + 1);
        lemma_take_step(es, k);
        assert(data.len() <= usize::MAX);
        assert(3 * k < pairs.len()) by {
            assert(k < track_count(pairs.len() as int));
        }
        assert forall|p: int| 0 <= p < chunk.len() implies #[trigger] chunk[p].len() <= usize::MAX by {
            assert(chunk[p] == pairs[3 * k + p]);
        }
        if chunk.len() == 1 {
            assert(es[k].num_channels == 2);
            lemma_padded_pair_splits_back(chunk[0], 2, 2);
        } else {
            lemma_interleaved_pairs_split_back(chunk);
            assert(spec_track_streams(data, es[k].num_channels) =~= chunk_streams(chunk));
        }
    }
}

} // verus!

verus! {

/// The play mode a bank records for each entry: MPEG always; MULTICHANNEL
/// for an entry of more than two channels, STEREO otherwise; SYNCPOINTS
/// when it has startpoints; no other flag.
pub proof fn lemma_bank_play_mode(es: Seq<EntryView>, k: int)
    requires
        0 <= k < es.len(),
    ensures
        entry_block_offset(es, k) + 52 <= fsb4_image(es).len(),
        spec_u32_from_le_bytes(
            fsb4_image(es).subrange(entry_block_offset(es, k) + 48, entry_block_offset(es, k) + 52),
        ) == (0x200u32 | (if es[k].num_channels > 2 { 0x0400_0000u32 } else { 0x40u32 }) | (if es[k].startpoints.len() > 0 {
            0x8000_0000u32
        } else {
            0u32
        })),
{
    let img = fsb4_image(es);
    let e = es[k];
    let o = entry_block_offset(es, k);
    let b = dir_block(e);
    lemma_entry_in_image(es, k);
    lemma_dir_block_fields(e);
    lemma_fsb4_image_len(es);
    let bl = b.len() as int;
    assert(img.subrange(o + 48, o + 52) =~= b.subrange(48, 52)) by {
        assert(img.subrange(o, o + bl) == b);
        assert(img.subrange(o + 48, o + 52) =~= img.subrange(o, o + bl).subrange(48, 52));
    }
    let pm = entry_play_mode(e.num_channels, e.startpoints.len() > 0);
    lemma_u32_bytes(pm);
    assert((0x200u32 | 0x0400_0000u32 | 0x8000_0000u32) == 0x8400_0200u32) by (bit_vector);
    assert((0x200u32 | 0x0400_0000u32 | 0u32) == 0x0400_0200u32) by (bit_vector);
    assert((0x200u32 | 0x40u32 | 0x8000_0000u32) == 0x8000_0240u32) by (bit_vector);
    assert((0x200u32 | 0x40u32 | 0u32) == 0x0000_0240u32) by (bit_vector);
    assert((0x8000_0240u32 & !0x8000_0000u32) == 0x0000_0240u32) by (bit_vector);
}

} // verus!

verus! {

/// The 48-byte header of a bank: "FSB4", the entry count, the directory
/// length (up to the 32-byte aligned data start), the data length, format
/// version 0x00040000, header flags 0x20 (MPEG_PADDED), then 24 zero bytes;
/// the data starts at the least multiple of 32 after header and directory.
pub proof fn lemma_bank_header_layout(es: Seq<EntryView>)
    ensures
        ({
            let img = fsb4_image(es);
            let d = data_region_start(es);
            &&& img.len() >= 48
            &&& img.subrange(0, 4) == seq![0x46u8, 0x53, 0x42, 0x34]
            &&& spec_u32_from_le_bytes(img.subrange(4, 8)) == es.len() as u32
            &&& spec_u32_from_le_bytes(img.subrange(8, 12)) == (d - 48) as u32
            &&& spec_u32_from_le_bytes(img.subrange(12, 16)) == data_blocks(es).len() as u32
            &&& spec_u32_from_le_bytes(img.subrange(16, 20)) == 0x0004_0000u32
            &&& spec_u32_from_le_bytes(img.subrange(20, 24)) == 0x20u32
            &&& forall|i: int| 24 <= i < 48 ==> img[i] == 0
            &&& d % 32 == 0
            &&& 48 + dir_blocks(es).len() <= d < 48 + dir_blocks(es).len() + 32
            &&& img.len() == d + data_blocks(es).len()
        }),
{
    lemma_auto_spec_u32_to_from_le_bytes();
    lemma_image_header(es);
    lemma_fsb4_image_len(es);
    let img = fsb4_image(es);
    let hd = fsb4_header(es.len() as u32, (data_region_start(es) - 48) as u32, data_blocks(es).len() as u32);
    crate::fsb4::lemma_fsb4_header_len(es.len() as u32, (data_region_start(es) - 48) as u32, data_blocks(es).len() as u32);
    let dirs = dir_blocks(es);
    let gap = zeros(pad_len(48 + dirs.len() as int, 32));
    assert(img == hd + dirs + gap + data_blocks(es));
    assert(img.subrange(20, 24) =~= hd.subrange(20, 24));
    assert(hd.subrange(20, 24) =~= spec_u32_to_le_bytes(0x20));
    assert(spec_u32_to_le_bytes(0x20).len() == 4);
    assert forall|i: int| 24 <= i < 48 implies img[i] == 0 by {
        assert(img[i] == hd[i]);
    }
    let b = 48 + dirs.len() as int;
    lemma_padded_frame_aligned(b, 32);
}

/// The directory entry of entry `k` in a bank: its length (80 bytes, plus
/// 8 and 260 per startpoint when it has startpoints), its name's first 30
/// UTF-8 bytes zero-filled, its sample count, data length, loop start 0,
/// loop end (the last sample, or 0), sample rate 44100 Hz, volume 255, pan
/// 128, priority 128, channel count and 16 zero bytes, then its startpoint
/// table; the next entry follows it.
pub proof fn lemma_bank_entry_layout(es: Seq<EntryView>, k: int)
    requires
        0 <= k < es.len(),
    ensures
        ({
            let img = fsb4_image(es);
            let o = entry_block_offset(es, k);
            let e = es[k];
            let n = e.startpoints.len() as int;
            let sp = if n > 0 { 8 + 260 * n } else { 0 };
            let name = encode_utf8(e.filename);
            &&& entry_block_offset(es, k + 1) == o + 80 + sp
            &&& o + 80 + sp <= img.len()
            &&& spec_u16_from_le_bytes(img.subrange(o, o + 2)) == (80 + sp) as u16
            &&& forall|i: int| 0 <= i < 30 ==> #[trigger] img[o + 2 + i] == if i < name.len() { name[i] } else { 0u8 }
            &&& spec_u32_from_le_bytes(img.subrange(o + 32, o + 36)) == e.sample_count
            &&& spec_u32_from_le_bytes(img.subrange(o + 36, o + 40)) == e.data.len() as u32
            &&& spec_u32_from_le_bytes(img.subrange(o + 40, o + 44)) == 0
            &&& spec_u32_from_le_bytes(img.subrange(o + 44, o + 48)) == if e.sample_count == 0 { 0u32 } else { (e.sample_count - 1) as u32 }
            &&& spec_u32_from_le_bytes(img.subrange(o + 52, o + 56)) == 44100
            &&& spec_u16_from_le_bytes(img.subrange(o + 56, o + 58)) == 255
            &&& spec_u16_from_le_bytes(img.subrange(o + 58, o + 60)) == 128
            &&& spec_u16_from_le_bytes(img.subrange(o + 60, o + 62)) == 128
            &&& spec_u16_from_le_bytes(img.subrange(o + 62, o + 64)) == e.num_channels
            &&& forall|i: int| o + 64 <= i < o + 80 ==> img[i] == 0
            &&& n > 0 ==> img.subrange(o + 80, o + 80 + sp) == startpoint_table(e.startpoints)
        }),
{
    lemma_auto_spec_u32_to_from_le_bytes();
    lemma_auto_spec_u16_to_from_le_bytes();
    let img = fsb4_image(es);
    let e = es[k];
    let o = entry_block_offset(es, k);
    let b = dir_block(e);
    let spt = entry_startpoint_table(e);
    lemma_entry_in_image(es, k);
    lemma_dir_block_fields(e);
    lemma_dir_block_len(e);
    lemma_fsb4_image_len(es);
    let bl = b.len() as int;
    assert(img.subrange(o, o + bl) == b);
    let p0 = spec_u16_to_le_bytes((80 + spt.len()) as u16);
    let p1 = name_field(encode_utf8(e.filename));
    let p2 = spec_u32_to_le_bytes(e.sample_count);
    let p3 = spec_u32_to_le_bytes(e.data.len() as u32);
    let p4 = spec_u32_to_le_bytes(0);
    let p5 = spec_u32_to_le_bytes(loop_end(e.sample_count));
    let p6 = spec_u32_to_le_bytes(entry_play_mode(e.num_channels, e.startpoints.len() > 0));
    let p7 = spec_u32_to_le_bytes(SAMPLE_RATE);
    let p8 = spec_u16_to_le_bytes(BANK_VOLUME);
    let p9 = spec_u16_to_le_bytes(PAN);
    let p10 = spec_u16_to_le_bytes(PLAYBACK_PRIORITY);
    let p11 = spec_u16_to_le_bytes(e.num_channels);
    let p12 = zeros(16);
    assert(p1.len() == 30);
    assert(b == p0 + p1 + p2 + p3 + p4 + p5 + p6 + p7 + p8 + p9 + p10 + p11 + p12 + spt);
    assert forall|a: int, c: int| 0 <= a <= c <= bl implies #[trigger] img.subrange(o + a, o + c) == b.subrange(a, c) by {
        assert(img.subrange(o + a, o + c) =~= img.subrange(o, o + bl).subrange(a, c));
    }
    assert(img.subrange(o, o + 2) == b.subrange(0, 2));
    assert(img.subrange(o + 32, o + 36) == b.subrange(32, 36));
    assert(img.subrange(o + 36, o + 40) == b.subrange(36, 40));
    assert(img.subrange(o + 40, o + 44) == b.subrange(40, 44));
    assert(b.subrange(40, 44) =~= p4);
    assert(img.subrange(o + 44, o + 48) == b.subrange(44, 48));
    assert(b.subrange(44, 48) =~= p5);
    assert(img.subrange(o + 52, o + 56) == b.subrange(52, 56));
    assert(img.subrange(o + 56, o + 58) == b.subrange(56, 58));
    assert(b.subrange(56, 58) =~= p8);
    assert(img.subrange(o + 58, o + 60) == b.subrange(58, 60));
    assert(b.subrange(58, 60) =~= p9);
    assert(img.subrange(o + 60, o + 62) == b.subrange(60, 62));
    assert(b.subrange(60, 62) =~= p10);
    assert(img.subrange(o + 62, o + 64) == b.subrange(62, 64));
    assert(p2.len() == 4 && p3.len() == 4 && p4.len() == 4 && p5.len() == 4 && p7.len() == 4);
    assert(p0.len() == 2 && p8.len() == 2 && p9.len() == 2 && p10.len() == 2 && p11.len() == 2);
    let name = encode_utf8(e.filename);
    assert forall|i: int| 0 <= i < 30 implies #[trigger] img[o + 2 + i] == if i < name.len() { name[i] } else { 0u8 } by {
        assert(img[o + 2 + i] == img.subrange(o, o + bl)[2 + i]);
        assert(b.subrange(2, 32) == p1);
        assert(b[2 + i] == b.subrange(2, 32)[i]);
        if name.len() >= 30 {
            assert(p1 == name.take(30));
            assert(p1[i] == name[i]);
        } else {
            assert(p1 == name + zeros(30 - name.len()));
            if i < name.len() {
                assert(p1[i] == name[i]);
            } else {
                assert(p1[i] == zeros(30 - name.len())[i - name.len()]);
            }
        }
    }
    assert forall|i: int| o + 64 <= i < o + 80 implies img[i] == 0 by {
        assert(img[i] == img.subrange(o, o + bl)[i - o]);
        assert(b[i - o] == p12[i - o - 64]);
    }
    assert(img.subrange(o + 80, o + bl) == b.subrange(80, bl));
    let n = e.startpoints.len() as int;
    let sp = if n > 0 { 8 + 260 * n } else { 0 };
    assert(entry_block_offset(es, k + 1) == o + 80 + sp);
    assert(spec_u16_from_le_bytes(img.subrange(o, o + 2)) == (80 + sp) as u16);
    assert(spec_u32_from_le_bytes(img.subrange(o + 32, o + 36)) == e.sample_count);
    assert(spec_u32_from_le_bytes(img.subrange(o + 36, o + 40)) == e.data.len() as u32);
    assert(spec_u32_from_le_bytes(img.subrange(o + 40, o + 44)) == 0);
    assert(spec_u32_from_le_bytes(img.subrange(o + 44, o + 48)) == if e.sample_count == 0 { 0u32 } else { (e.sample_count - 1) as u32 });
    assert(spec_u32_from_le_bytes(img.subrange(o + 52, o + 56)) == 44100);
    assert(spec_u16_from_le_bytes(img.subrange(o + 56, o + 58)) == 255);
    assert(spec_u16_from_le_bytes(img.subrange(o + 58, o + 60)) == 128);
    assert(spec_u16_from_le_bytes(img.subrange(o + 60, o + 62)) == 128);
    assert(spec_u16_from_le_bytes(img.subrange(o + 62, o + 64)) == e.num_channels);
    assert(n > 0 ==> img.subrange(o + 80, o + 80 + sp) == startpoint_table(e.startpoints));
    assert(o + 80 + sp <= img.len());
}

} // verus!

verus! {

/// Which banks are refused, and why: one shorter than 48 bytes is too
/// small; one whose first four bytes are not "FSB4" is not a bank; one whose
/// version field (bytes 16..20) is not 0x00040000 has an unsupported
/// version; one shorter than 48 bytes plus the directory and data lengths
/// of bytes 8..12 and 12..16 is truncated.
pub proof fn lemma_parse_refusals(d: Seq<u8>)
    ensures
        d.len() < 48 ==> spec_parse_fsb4(d) == ParseOutcome::Failed(crate::fsb4::Fsb4Error::FileTooSmall),
        d.len() >= 48 && d.subrange(0, 4) != seq![0x46u8, 0x53, 0x42, 0x34]
            ==> spec_parse_fsb4(d) == ParseOutcome::Failed(crate::fsb4::Fsb4Error::NotFsb4),
        d.len() >= 48 && d.subrange(0, 4) == seq![0x46u8, 0x53, 0x42, 0x34]
            && spec_u32_from_le_bytes(d.subrange(16, 20)) != 0x0004_0000u32 ==> spec_parse_fsb4(d)
            == ParseOutcome::Failed(crate::fsb4::Fsb4Error::UnsupportedVersion(spec_u32_from_le_bytes(d.subrange(16, 20)))),
        ({
            let need = 48 + spec_u32_from_le_bytes(d.subrange(8, 12)) + spec_u32_from_le_bytes(d.subrange(12, 16));
            d.len() >= 48 && d.subrange(0, 4) == seq![0x46u8, 0x53, 0x42, 0x34]
                && spec_u32_from_le_bytes(d.subrange(16, 20)) == 0x0004_0000u32
                && d.len() < need && need <= usize::MAX
                ==> spec_parse_fsb4(d) == ParseOutcome::Failed(
                crate::fsb4::Fsb4Error::Truncated { need: need as usize, have: d.len() as usize },
            )
        }),
{
}

} // verus!

verus! {

/// A bank lays out its directory from byte 48, one entry after another;
/// zero bytes fill the gap up to the data start; then comes the data of
/// every entry, in entry order and back to back: entry 0's data at the data
/// start, entry `k + 1`'s right after entry `k`'s, and the bank ends with
/// the last entry's data.
pub proof fn lemma_bank_data_layout(es: Seq<EntryView>)
    ensures
        ({
            let img = fsb4_image(es);
            let n = es.len() as int;
            &&& entry_block_offset(es, 0) == 48
            &&& entry_block_offset(es, n) == 48 + dir_blocks(es).len()
            &&& entry_data_offset(es, 0) == data_region_start(es)
            &&& forall|i: int| entry_block_offset(es, n) <= i < data_region_start(es) ==> #[trigger] img[i] == 0
            &&& forall|k: int| 0 <= k < n ==> entry_data_offset(es, k + 1) == #[trigger] entry_data_offset(es, k)
                + es[k].data.len()
            &&& forall|k: int| 0 <= k < n ==> img.subrange(#[trigger] entry_data_offset(es, k), entry_data_offset(es, k)
                + es[k].data.len()) == es[k].data
            &&& img.len() == entry_data_offset(es, n)
        }),
{
    let img = fsb4_image(es);
    let n = es.len() as int;
    assert(es.take(0) =~= Seq::<EntryView>::empty());
    assert(es.take(n) =~= es);
    lemma_fsb4_image_len(es);
    let hd = fsb4_header(es.len() as u32, (data_region_start(es) - 48) as u32, data_blocks(es).len() as u32);
    crate::fsb4::lemma_fsb4_header_len(es.len() as u32, (data_region_start(es) - 48) as u32, data_blocks(es).len() as u32);
    let dirs = dir_blocks(es);
    let gap = zeros(pad_len(48 + dirs.len() as int, 32));
    assert(img == hd + dirs + gap + data_blocks(es));
    assert forall|i: int| entry_block_offset(es, n) <= i < data_region_start(es) implies #[trigger] img[i] == 0 by {
        assert(img[i] == gap[i - 48 - dirs.len()]);
    }
    assert forall|k: int| 0 <= k < n implies entry_data_offset(es, k + 1) == #[trigger] entry_data_offset(es, k)
        + es[k].data.len() && img.subrange(entry_data_offset(es, k), entry_data_offset(es, k)
        + es[k].data.len()) == es[k].data by {
        lemma_entry_in_image(es, k);
    }
}

} // verus!

verus! {

/// Every `n`-th frame from frame `p` on: frames `p`, `p + n`, `p + 2n`, ...
/// below `frames.len()`.
pub open spec fn dealt_frames(frames: Seq<(usize, usize)>, n: int, p: int) -> Seq<(usize, usize)> {
    Seq::new(((frames.len() - p + n - 1) / n) as nat, |j: int| frames[p + j * n])
}

proof fn lemma_concat_frames_front(data: Seq<u8>, x: (usize, usize), rest: Seq<(usize, usize)>)
    ensures
        concat_frames(data, seq![x] + rest) == frame_bytes(data, x) + concat_frames(data, rest),
    decreases rest.len(),
{
    if rest.len() == 0 {
        assert(seq![x] + rest =~= seq![x]);
        assert(seq![x].drop_last() =~= Seq::<(usize, usize)>::empty());
        assert(concat_frames(data, seq![x]) == concat_frames(data, seq![x].drop_last()) + frame_bytes(data, x));
        assert(frame_bytes(data, x) + Seq::<u8>::empty() =~= frame_bytes(data, x));
        assert(Seq::<u8>::empty() + frame_bytes(data, x) =~= frame_bytes(data, x));
    } else {
        lemma_concat_frames_front(data, x, rest.drop_last());
        let all = seq![x] + rest;
        assert(all.drop_last() =~= seq![x] + rest.drop_last());
        assert(all.last() == rest.last());
        assert(concat_frames(data, all) == concat_frames(data, all.drop_last()) + frame_bytes(data, all.last()));
        assert(concat_frames(data, rest) == concat_frames(data, rest.drop_last()) + frame_bytes(data, rest.last()));
        assert(frame_bytes(data, x) + concat_frames(data, rest.drop_last()) + frame_bytes(data, rest.last())
            =~= frame_bytes(data, x) + (concat_frames(data, rest.drop_last()) + frame_bytes(data, rest.last())));
    }
}

proof fn lemma_pair_stream_dealt(data: Seq<u8>, frames: Seq<(usize, usize)>, n: int, p: int)
    requires
        n > 0,
        0 <= p < n || (n <= p < frames.len()),
    ensures
        pair_stream(data, frames, n, p) == concat_frames(data, dealt_frames(frames, n, p)),
    decreases frames.len() - p,
{
    let f = frames.len() as int;
    let d = dealt_frames(frames, n, p);
    if p >= f {
        vstd::arithmetic::div_mod::lemma_basic_div(f - p + n - 1, n);
        assert(d =~= Seq::<(usize, usize)>::empty());
    } else if p + n >= f {
        vstd::arithmetic::div_mod::lemma_div_multiples_vanish_fancy(1, f - p - 1, n);
        assert(n * 1 + (f - p - 1) == f - p + n - 1);
        assert(d =~= seq![frames[p]]);
        assert(seq![frames[p]] =~= seq![frames[p]] + Seq::<(usize, usize)>::empty());
        lemma_concat_frames_front(data, frames[p], Seq::empty());
        assert(frame_bytes(data, frames[p]) + Seq::<u8>::empty() =~= frame_bytes(data, frames[p]));
    } else {
        lemma_pair_stream_dealt(data, frames, n, p + n);
        let rest = dealt_frames(frames, n, p + n);
        let x = f - (p + n) + n - 1;
        vstd::arithmetic::div_mod::lemma_div_plus_one(x, n);
        assert(n + x == f - p + n - 1);
        assert forall|j: int| 0 <= j < rest.len() implies #[trigger] rest[j] == frames[p + (j + 1) * n] by {
            assert(p + n + j * n == p + (j + 1) * n) by (nonlinear_arith);
        }
        assert(d =~= seq![frames[p]] + rest) by {
            assert forall|j: int| 0 < j < d.len() implies #[trigger] d[j] == rest[j - 1] by {
                assert(p + (j - 1 + 1) * n == p + j * n);
            }
        }
        lemma_concat_frames_front(data, frames[p], rest);
    }
}

/// Splitting a track deals its frames to its stereo pairs in turn: with
/// `n = num_channels / 2` pairs, `n >= 2`, there are `n` streams, and stream
/// `p` is frames `p`, `p + n`, `p + 2n`, ... concatenated; a track of at
/// most one pair is one stream of all its frames.
pub proof fn lemma_track_streams_deal_frames(data: Seq<u8>, num_channels: u16)
    ensures
        num_channels / 2 <= 1 ==> spec_track_streams(data, num_channels) == seq![concat_frames(data, spec_frames(data))],
        num_channels / 2 > 1 ==> spec_track_streams(data, num_channels).len() == num_channels / 2,
        num_channels / 2 > 1 ==> forall|p: int| 0 <= p < num_channels / 2 ==>
            #[trigger] spec_track_streams(data, num_channels)[p] == concat_frames(
                data,
                Seq::new(
                    ((spec_frames(data).len() - p + num_channels / 2 - 1) / (num_channels / 2) as int) as nat,
                    |j: int| spec_frames(data)[p + j * (num_channels / 2)],
                ),
            ),
{
    let n = (num_channels / 2) as int;
    if n > 1 {
        assert forall|p: int| 0 <= p < n implies #[trigger] spec_track_streams(data, num_channels)[p]
            == concat_frames(data, dealt_frames(spec_frames(data), n, p)) by {
            lemma_pair_stream_dealt(data, spec_frames(data), n, p);
        }
    }
}

} // verus!

verus! {

proof fn lemma_parse_entries_shape(d: Seq<u8>, remaining: nat, index: int, offset: int, data_pos: int)
    ensures
        parse_entries(d, remaining, index, offset, data_pos) matches ParseOutcome::Parsed(ts) ==> {
            &&& ts.len() == remaining
            &&& remaining > 0 ==> {
                &&& offset + 80 <= d.len()
                &&& ts[0] == entry_track(d, offset, data_pos, ts[0].startpoints)
                &&& entry_startpoints(d, offset, le16_at(d, offset) as int) == Some(ts[0].startpoints)
            }
            &&& forall|k: int| 0 <= k < ts.len() - 1 ==> #[trigger] ts[k + 1].data_offset == ts[k].data_offset
                + ts[k].compressed_len
        },
    decreases remaining,
{
    if remaining > 0 && offset + 80 <= usize::MAX && offset + 80 <= d.len() {
        let entry_len = le16_at(d, offset) as int;
        if let Some(sps) = entry_startpoints(d, offset, entry_len) {
            let compressed = le32_at(d, offset + 36) as int;
            if !(data_pos + compressed > usize::MAX || offset + entry_len > usize::MAX) {
                let next = (remaining - 1) as nat;
                lemma_parse_entries_shape(d, next, index + 1, offset + entry_len, data_pos + compressed);
                let t = entry_track(d, offset, data_pos, sps);
                if let ParseOutcome::Parsed(rest) = parse_entries(d, next, index + 1, offset + entry_len, data_pos + compressed) {
                    let ts = seq![t] + rest;
                    assert(parse_entries(d, remaining, index, offset, data_pos) == ParseOutcome::Parsed(ts));
                    assert forall|k: int| 0 <= k < ts.len() - 1 implies #[trigger] ts[k + 1].data_offset
                        == ts[k].data_offset + ts[k].compressed_len by {
                        assert(ts[k + 1] == rest[k]);
                        if k > 0 {
                            assert(ts[k] == rest[k - 1]);
                            assert(rest[(k - 1) + 1].data_offset == rest[k - 1].data_offset + rest[k - 1].compressed_len);
                        } else {
                            assert(rest.len() == next && next > 0);
                            assert(rest[0] == entry_track(d, offset + entry_len, data_pos + compressed, rest[0].startpoints));
                            assert(ts[0] == t);
                            assert(t.data_offset == data_pos);
                            assert(t.compressed_len as int == compressed);
                            assert(rest[0].data_offset == data_pos + compressed);
                        }
                    }
                }
            }
        }
    }
}

/// A bank that reads successfully is at least 48 bytes long, starts with
/// "FSB4", has version 0x00040000, and holds the directory and data lengths
/// of its header; it gives as many tracks as the count at bytes 4..8; the
/// first track's data starts right after the directory, and each next
/// track's data right after the previous one's; the first entry's fields
/// are read at bytes 80 (sample count), 84 (data length), 96 (play mode),
/// 100 (sample rate) and 110 (channel count); its startpoints are read
/// only when its entry length (bytes 48..50) exceeds 80 and bytes 128..132
/// hold "SYNC": then as many as the count at 132..136, the `j`-th at
/// `136 + 260 * j`.
pub proof fn lemma_parsed_bank_tracks(d: Seq<u8>)
    ensures
        spec_parse_fsb4(d) matches ParseOutcome::Parsed(ts) ==> {
            &&& d.len() >= 48
            &&& d.subrange(0, 4) == seq![0x46u8, 0x53, 0x42, 0x34]
            &&& spec_u32_from_le_bytes(d.subrange(16, 20)) == 0x0004_0000u32
            &&& 48 + spec_u32_from_le_bytes(d.subrange(8, 12)) + spec_u32_from_le_bytes(d.subrange(12, 16)) <= d.len()
            &&& ts.len() == spec_u32_from_le_bytes(d.subrange(4, 8))
            &&& ts.len() > 0 ==> {
                &&& ts[0].data_offset == 48 + spec_u32_from_le_bytes(d.subrange(8, 12))
                &&& ts[0].sample_len == spec_u32_from_le_bytes(d.subrange(80, 84))
                &&& ts[0].compressed_len == spec_u32_from_le_bytes(d.subrange(84, 88))
                &&& ts[0].play_mode == spec_u32_from_le_bytes(d.subrange(96, 100))
                &&& ts[0].sample_rate == spec_u32_from_le_bytes(d.subrange(100, 104))
                &&& ts[0].num_channels == spec_u16_from_le_bytes(d.subrange(110, 112))
                &&& spec_u16_from_le_bytes(d.subrange(48, 50)) <= 80 || d.subrange(128, 132) != seq![0x53u8, 0x59, 0x4E, 0x43]
                    ==> ts[0].startpoints.len() == 0
                &&& spec_u16_from_le_bytes(d.subrange(48, 50)) > 80 && d.subrange(128, 132) == seq![0x53u8, 0x59, 0x4E, 0x43]
                    ==> {
                    &&& ts[0].startpoints.len() == spec_u32_from_le_bytes(d.subrange(132, 136))
                    &&& forall|j: int| 0 <= j < ts[0].startpoints.len() ==> #[trigger] ts[0].startpoints[j]
                        == spec_u32_from_le_bytes(d.subrange(136 + 260 * j, 140 + 260 * j))
                }
            }
            &&& forall|k: int| 0 <= k < ts.len() - 1 ==> #[trigger] ts[k + 1].data_offset == ts[k].data_offset
                + ts[k].compressed_len
        },
{
    if d.len() >= 48 && d.subrange(0, 4) == seq![0x46u8, 0x53, 0x42, 0x34] {
        let num_files = le32_at(d, 4);
        let dir_len = le32_at(d, 8) as int;
        lemma_parse_entries_shape(d, num_files as nat, 0, 48, 48 + dir_len);
        if let ParseOutcome::Parsed(ts) = spec_parse_fsb4(d) {
            if ts.len() > 0 {
                assert(sync_tag() == seq![0x53u8, 0x59, 0x4E, 0x43]);
                let sps = ts[0].startpoints;
                assert forall|j: int| 0 <= j < sps.len() implies #[trigger] sps[j]
                    == spec_u32_from_le_bytes(d.subrange(136 + 260 * j, 140 + 260 * j)) by {
                    assert(48 + 80 + 8 + j * 260 == 136 + 260 * j);
                }
            }
        }
    }
}

} // verus!
