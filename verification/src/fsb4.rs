//! Writing and reading FSB4 sound banks of MPEG tracks.
use vstd::prelude::*;
use vstd::bytes::{
    lemma_auto_spec_u16_to_from_le_bytes, lemma_auto_spec_u32_to_from_le_bytes,
    spec_u16_to_le_bytes, spec_u32_to_le_bytes,
};
use vstd::utf8::encode_utf8;
use crate::buffer::{push_le_u16, push_le_u32, push_range, push_zeros, zeros};
use crate::config::{BANK_VOLUME, FSB4_ENTRY_SIZE, FSB4_HEADER_SIZE, FSB4_VERSION, MPEG_ALIGNMENT, PAN, PLAYBACK_PRIORITY, PLAY_MODE, SAMPLE_RATE};
use crate::mp3::pad_len;

verus! {

const STARTPOINT_ENTRY_SIZE: usize = 260;

/// The tag that opens a startpoint table: the ASCII bytes of "SYNC".
pub open spec fn sync_tag() -> Seq<u8> {
    seq![0x53u8, 0x59, 0x4E, 0x43]
}

/// The label of every startpoint record: the ASCII bytes of "startpoint".
pub open spec fn startpoint_label() -> Seq<u8> {
    seq![0x73u8, 0x74, 0x61, 0x72, 0x74, 0x70, 0x6F, 0x69, 0x6E, 0x74]
}

/// One 260-byte startpoint record: the sample offset, the label, then zeros.
pub open spec fn startpoint_record(offset: u32) -> Seq<u8> {
    spec_u32_to_le_bytes(offset) + startpoint_label() + zeros(246)
}

/// The records of all offsets, in order.
pub open spec fn startpoint_records(offsets: Seq<u32>) -> Seq<u8>
    decreases offsets.len(),
{
    if offsets.len() == 0 {
        Seq::empty()
    } else {
        startpoint_records(offsets.drop_last()) + startpoint_record(offsets.last())
    }
}

/// A startpoint table: the tag, the record count, then the records.
pub open spec fn startpoint_table(offsets: Seq<u32>) -> Seq<u8> {
    sync_tag() + spec_u32_to_le_bytes(offsets.len() as u32) + startpoint_records(offsets)
}

/// A startpoint table holds 8 bytes and 260 per offset.
pub proof fn lemma_startpoint_table_len(offsets: Seq<u32>)
    ensures
        startpoint_records(offsets).len() == 260 * offsets.len(),
        startpoint_table(offsets).len() == 8 + 260 * offsets.len(),
    decreases offsets.len(),
{
    lemma_auto_spec_u32_to_from_le_bytes();
    if offsets.len() > 0 {
        lemma_startpoint_table_len(offsets.drop_last());
    }
}

/// Record `j` of the records of `offsets` is the record of `offsets[j]`.
proof fn lemma_startpoint_record_at(offsets: Seq<u32>, j: int)
    requires
        0 <= j < offsets.len(),
    ensures
        startpoint_records(offsets).subrange(260 * j, 260 * j + 260) == startpoint_record(offsets[j]),
    decreases offsets.len(),
{
    lemma_auto_spec_u32_to_from_le_bytes();
    lemma_startpoint_table_len(offsets);
    let init = offsets.drop_last();
    lemma_startpoint_table_len(init);
    let r = startpoint_records(offsets);
    let rec = startpoint_record(offsets.last());
    assert(rec.len() == 260);
    assert(r == startpoint_records(init) + rec);
    if j < offsets.len() - 1 {
        lemma_startpoint_record_at(init, j);
        assert(init[j] == offsets[j]);
        assert(r.subrange(260 * j, 260 * j + 260) =~= startpoint_records(init).subrange(260 * j, 260 * j + 260));
    } else {
        assert(r.subrange(260 * j, 260 * j + 260) =~= rec);
    }
}

/// The bytes of record `j` of a startpoint table.
proof fn lemma_startpoint_record_bytes(offsets: Seq<u32>, j: int)
    requires
        0 <= j < offsets.len(),
    ensures
        ({
            let t = startpoint_table(offsets);
            &&& 268 + 260 * j <= t.len()
            &&& vstd::bytes::spec_u32_from_le_bytes(t.subrange(8 + 260 * j, 12 + 260 * j)) == offsets[j]
            &&& t.subrange(12 + 260 * j, 22 + 260 * j) == seq![0x73u8, 0x74, 0x61, 0x72, 0x74, 0x70, 0x6F, 0x69, 0x6E, 0x74]
            &&& forall|i: int| 22 + 260 * j <= i < 268 + 260 * j ==> t[i] == 0
        }),
{
    lemma_auto_spec_u32_to_from_le_bytes();
    lemma_startpoint_table_len(offsets);
    let t = startpoint_table(offsets);
    let head = sync_tag() + spec_u32_to_le_bytes(offsets.len() as u32);
    let recs = startpoint_records(offsets);
    assert(head.len() == 8);
    assert(t == head + recs);
    lemma_startpoint_record_at(offsets, j);
    let rec = startpoint_record(offsets[j]);
    assert(rec.len() == 260);
    assert(t.subrange(8 + 260 * j, 268 + 260 * j) =~= rec) by {
        assert(t.subrange(8 + 260 * j, 268 + 260 * j) =~= recs.subrange(260 * j, 260 * j + 260));
    }
    assert(t.subrange(8 + 260 * j, 12 + 260 * j) =~= rec.subrange(0, 4));
    assert(rec.subrange(0, 4) =~= spec_u32_to_le_bytes(offsets[j]));
    assert(t.subrange(12 + 260 * j, 22 + 260 * j) =~= rec.subrange(4, 14));
    assert(rec.subrange(4, 14) =~= seq![0x73u8, 0x74, 0x61, 0x72, 0x74, 0x70, 0x6F, 0x69, 0x6E, 0x74]);
    assert forall|i: int| 22 + 260 * j <= i < 268 + 260 * j implies t[i] == 0 by {
        assert(t[i] == t.subrange(8 + 260 * j, 268 + 260 * j)[i - 8 - 260 * j]);
        assert(rec[i - 8 - 260 * j] == zeros(246)[i - 22 - 260 * j]);
    }
}

/// A startpoint table is "SYNC", the number of offsets as a little-endian
/// 32-bit value, then one 260-byte record per offset, in order: the offset
/// as a little-endian 32-bit value, the bytes "startpoint", and 246 zero
/// bytes.
pub proof fn lemma_startpoint_table_layout(offsets: Seq<u32>)
    ensures
        startpoint_table(offsets).len() == 8 + 260 * offsets.len(),
        startpoint_table(offsets).subrange(0, 4) == seq![0x53u8, 0x59, 0x4E, 0x43],
        vstd::bytes::spec_u32_from_le_bytes(startpoint_table(offsets).subrange(4, 8)) == offsets.len() as u32,
        forall|j: int| 0 <= j < offsets.len() ==> vstd::bytes::spec_u32_from_le_bytes(
            #[trigger] startpoint_table(offsets).subrange(8 + 260 * j, 12 + 260 * j),
        ) == offsets[j],
        forall|j: int| 0 <= j < offsets.len() ==> #[trigger] startpoint_table(offsets).subrange(12 + 260 * j, 22 + 260 * j)
            == seq![0x73u8, 0x74, 0x61, 0x72, 0x74, 0x70, 0x6F, 0x69, 0x6E, 0x74],
        forall|i: int| 8 <= i < startpoint_table(offsets).len() && (i - 8) % 260 >= 14 ==> #[trigger] startpoint_table(offsets)[i] == 0,
{
    lemma_auto_spec_u32_to_from_le_bytes();
    lemma_startpoint_table_len(offsets);
    let t = startpoint_table(offsets);
    let head = sync_tag() + spec_u32_to_le_bytes(offsets.len() as u32);
    assert(head.len() == 8);
    assert(t == head + startpoint_records(offsets));
    assert(t.subrange(0, 4) =~= seq![0x53u8, 0x59, 0x4E, 0x43]);
    assert(t.subrange(4, 8) =~= spec_u32_to_le_bytes(offsets.len() as u32));
    assert(spec_u32_to_le_bytes(offsets.len() as u32).len() == 4);
    assert forall|j: int| 0 <= j < offsets.len() implies vstd::bytes::spec_u32_from_le_bytes(
        #[trigger] t.subrange(8 + 260 * j, 12 + 260 * j),
    ) == offsets[j] by {
        lemma_startpoint_record_bytes(offsets, j);
    }
    assert forall|j: int| 0 <= j < offsets.len() implies #[trigger] t.subrange(12 + 260 * j, 22 + 260 * j)
        == seq![0x73u8, 0x74, 0x61, 0x72, 0x74, 0x70, 0x6F, 0x69, 0x6E, 0x74] by {
        lemma_startpoint_record_bytes(offsets, j);
    }
    assert forall|i: int| 8 <= i < t.len() && (i - 8) % 260 >= 14 implies #[trigger] t[i] == 0 by {
        let j = (i - 8) / 260;
        vstd::arithmetic::div_mod::lemma_fundamental_div_mod(i - 8, 260);
        assert(0 <= j < offsets.len()) by (nonlinear_arith)
            requires
                i - 8 == 260 * j + (i - 8) % 260,
                0 <= (i - 8) % 260 < 260,
                8 <= i < 8 + 260 * offsets.len(),
        ;
        lemma_startpoint_record_bytes(offsets, j);
    }
}

/// Serialize sample offsets as an FSB4 startpoint ("SYNC") table.
pub fn serialize_startpoints(offsets: &[u32]) -> (v: Vec<u8>)
    requires
        8 + offsets@.len() * 260 <= isize::MAX,
    ensures
        v@ == startpoint_table(offsets@),
        v@.len() == 8 + 260 * offsets@.len(),
        forall|j: int| 0 <= j < offsets@.len() ==> vstd::bytes::spec_u32_from_le_bytes(
            #[trigger] v@.subrange(8 + 260 * j, 12 + 260 * j),
        ) == offsets@[j],
        forall|j: int| 0 <= j < offsets@.len() ==> #[trigger] v@.subrange(12 + 260 * j, 22 + 260 * j)
            == seq![0x73u8, 0x74, 0x61, 0x72, 0x74, 0x70, 0x6F, 0x69, 0x6E, 0x74],
{
    let mut v: Vec<u8> = Vec::with_capacity(8 + offsets.len() * STARTPOINT_ENTRY_SIZE);
    v.push(0x53);
    v.push(0x59);
    v.push(0x4E);
    v.push(0x43);
    push_le_u32(&mut v, offsets.len() as u32);
    let ghost head = v@;
    assert(head =~= sync_tag() + spec_u32_to_le_bytes(offsets@.len() as u32));
    let mut i: usize = 0;
    while i < offsets.len()
        invariant
            i <= offsets@.len(),
            v@ == head + startpoint_records(offsets@.take(i as int)),
        decreases offsets@.len() - i,
    {
        let offset = offsets[i];
        push_le_u32(&mut v, offset);
        v.push(0x73);
        v.push(0x74);
        v.push(0x61);
        v.push(0x72);
        v.push(0x74);
        v.push(0x70);
        v.push(0x6F);
        v.push(0x69);
        v.push(0x6E);
        v.push(0x74);
        push_zeros(&mut v, STARTPOINT_ENTRY_SIZE - 14);
        i = i + 1;
        assert(offsets@.take(i as int).drop_last() =~= offsets@.take(i - 1));
        assert(offsets@.take(i as int).last() == offsets@[i - 1]);
        assert(v@ =~= head + startpoint_records(offsets@.take(i as int)));
    }
    assert(offsets@.take(i as int) =~= offsets@);
    proof {
        lemma_startpoint_table_len(offsets@);
        lemma_startpoint_table_layout(offsets@);
    }
    v
}

/// One track to be written into an FSB4 bank.
pub struct Fsb4Entry {
    pub filename: String,
    pub data: Vec<u8>,
    pub startpoints: Vec<u32>,
    pub sample_count: u32,
    pub num_channels: u16,
}

/// The contents of an entry to be written into an FSB4 bank.
pub struct EntryView {
    pub filename: Seq<char>,
    pub data: Seq<u8>,
    pub startpoints: Seq<u32>,
    pub sample_count: u32,
    pub num_channels: u16,
}

impl View for Fsb4Entry {
    type V = EntryView;

    open spec fn view(&self) -> EntryView {
        EntryView {
            filename: self.filename@,
            data: self.data@,
            startpoints: self.startpoints@,
            sample_count: self.sample_count,
            num_channels: self.num_channels,
        }
    }
}

/// The contents of each entry.
pub open spec fn entry_views(entries: Seq<Fsb4Entry>) -> Seq<EntryView> {
    entries.map_values(|e: Fsb4Entry| e@)
}

/// The 30-byte file name field: the first 30 bytes of the name, zero-filled.
pub open spec fn name_field(name: Seq<u8>) -> Seq<u8> {
    if name.len() >= 30 {
        name.take(30)
    } else {
        name + zeros(30 - name.len())
    }
}

/// The play mode of an entry: multichannel for more than two channels, and
/// the sync-point flag when it has startpoints.
pub open spec fn entry_play_mode(num_channels: u16, has_startpoints: bool) -> u32 {
    if num_channels > 2 {
        if has_startpoints { 0x84000200u32 } else { 0x04000200u32 }
    } else {
        if has_startpoints { PLAY_MODE } else { PLAY_MODE & !0x80000000u32 }
    }
}

/// The startpoint table of an entry, empty when it has no startpoints.
pub open spec fn entry_startpoint_table(e: EntryView) -> Seq<u8> {
    if e.startpoints.len() > 0 {
        startpoint_table(e.startpoints)
    } else {
        Seq::empty()
    }
}

/// The loop end of a sample of `n` samples: its last sample, or 0.
pub open spec fn loop_end(n: u32) -> u32 {
    if n == 0 { 0 } else { (n - 1) as u32 }
}

/// The directory block of one entry: 80 bytes of fixed fields, then its startpoint table.
pub open spec fn dir_block(e: EntryView) -> Seq<u8> {
    let sp = entry_startpoint_table(e);
    spec_u16_to_le_bytes((80 + sp.len()) as u16)
        + name_field(encode_utf8(e.filename))
        + spec_u32_to_le_bytes(e.sample_count)
        + spec_u32_to_le_bytes(e.data.len() as u32)
        + spec_u32_to_le_bytes(0)
        + spec_u32_to_le_bytes(loop_end(e.sample_count))
        + spec_u32_to_le_bytes(entry_play_mode(e.num_channels, e.startpoints.len() > 0))
        + spec_u32_to_le_bytes(SAMPLE_RATE)
        + spec_u16_to_le_bytes(BANK_VOLUME)
        + spec_u16_to_le_bytes(PAN)
        + spec_u16_to_le_bytes(PLAYBACK_PRIORITY)
        + spec_u16_to_le_bytes(e.num_channels)
        + zeros(16)
        + sp
}

/// The directory blocks of all entries, in order.
pub open spec fn dir_blocks(es: Seq<EntryView>) -> Seq<u8>
    decreases es.len(),
{
    if es.len() == 0 {
        Seq::empty()
    } else {
        dir_blocks(es.drop_last()) + dir_block(es.last())
    }
}

/// The sample data of all entries, in order.
pub open spec fn data_blocks(es: Seq<EntryView>) -> Seq<u8>
    decreases es.len(),
{
    if es.len() == 0 {
        Seq::empty()
    } else {
        data_blocks(es.drop_last()) + es.last().data
    }
}

/// The 48-byte FSB4 file header.
pub open spec fn fsb4_header(num_files: u32, dir_len: u32, dat_len: u32) -> Seq<u8> {
    seq![0x46u8, 0x53, 0x42, 0x34]
        + spec_u32_to_le_bytes(num_files)
        + spec_u32_to_le_bytes(dir_len)
        + spec_u32_to_le_bytes(dat_len)
        + spec_u32_to_le_bytes(FSB4_VERSION)
        + spec_u32_to_le_bytes(0x20)
        + zeros(24)
}

/// Where the sample data starts: after the header and the directory,
/// rounded up to a multiple of 32.
pub open spec fn data_region_start(es: Seq<EntryView>) -> int {
    let before = 48 + dir_blocks(es).len() as int;
    before + pad_len(before, 32)
}

/// The FSB4 bank of the entries: header, directory, padding to a 32-byte
/// boundary, then the sample data of every entry.
pub open spec fn fsb4_image(es: Seq<EntryView>) -> Seq<u8> {
    let before = 48 + dir_blocks(es).len() as int;
    fsb4_header(
        es.len() as u32,
        (data_region_start(es) - 48) as u32,
        data_blocks(es).len() as u32,
    ) + dir_blocks(es) + zeros(pad_len(before, 32)) + data_blocks(es)
}

/// A directory block is 80 bytes plus its startpoint table.
pub proof fn lemma_dir_block_len(e: EntryView)
    ensures
        dir_block(e).len() == 80 + entry_startpoint_table(e).len(),
        e.startpoints.len() > 0 ==> entry_startpoint_table(e).len() == 8 + 260 * e.startpoints.len(),
        e.startpoints.len() == 0 ==> entry_startpoint_table(e).len() == 0,
{
    lemma_auto_spec_u32_to_from_le_bytes();
    lemma_auto_spec_u16_to_from_le_bytes();
    lemma_startpoint_table_len(e.startpoints);
    let n = encode_utf8(e.filename);
    assert(name_field(n).len() == 30);
}

/// Appending an entry grows the directory and the data by its block and its data.
pub proof fn lemma_prefix_lengths(es: Seq<EntryView>, i: int)
    requires
        0 <= i <= es.len(),
    ensures
        dir_blocks(es.take(i)).len() <= dir_blocks(es).len(),
        data_blocks(es.take(i)).len() <= data_blocks(es).len(),
        i < es.len() ==> dir_block(es[i]).len() <= dir_blocks(es).len(),
    decreases es.len() - i,
{
    if i < es.len() {
        lemma_prefix_lengths(es, i + 1);
        assert(es.take(i + 1).drop_last() =~= es.take(i));
        assert(es.take(i + 1).last() == es[i]);
    } else {
        assert(es.take(i) =~= es);
    }
}

/// Build the directory block of one entry.
fn build_dir_block(e: &Fsb4Entry) -> (block: Vec<u8>)
    requires
        80 + entry_startpoint_table(e@).len() <= isize::MAX,
    ensures
        block@ == dir_block(e@),
{
    let compressed_len = e.data.len() as u32;
    let sample_len = e.sample_count;
    let num_channels = e.num_channels;
    let has_sp = e.startpoints.len() > 0;
    let play_mode: u32 = if num_channels > 2 {
        if has_sp { 0x84000200 } else { 0x04000200 }
    } else {
        if has_sp { PLAY_MODE } else { PLAY_MODE & !0x80000000 }
    };

    proof {
        lemma_dir_block_len(e@);
    }
    let sp_table: Vec<u8> = if has_sp {
        serialize_startpoints(e.startpoints.as_slice())
    } else {
        Vec::new()
    };
    let sp_size = sp_table.len();
    let entry_len = (FSB4_ENTRY_SIZE + sp_size) as u16;

    let mut block: Vec<u8> = Vec::new();
    push_le_u16(&mut block, entry_len);
    let fname = e.filename.as_str().as_bytes();
    let fname_len = if fname.len() < 30 { fname.len() } else { 30 };
    push_range(&mut block, fname, 0, fname_len);
    push_zeros(&mut block, 30 - fname_len);
    assert(fname@.subrange(0, fname_len as int) + zeros(30 - fname_len) =~= name_field(encode_utf8(e.filename@)));
    push_le_u32(&mut block, sample_len);
    push_le_u32(&mut block, compressed_len);
    push_le_u32(&mut block, 0);
    push_le_u32(&mut block, sample_len.saturating_sub(1));
    push_le_u32(&mut block, play_mode);
    push_le_u32(&mut block, SAMPLE_RATE);
    push_le_u16(&mut block, BANK_VOLUME);
    push_le_u16(&mut block, PAN);
    push_le_u16(&mut block, PLAYBACK_PRIORITY);
    push_le_u16(&mut block, num_channels);
    push_zeros(&mut block, 16);
    push_range(&mut block, sp_table.as_slice(), 0, sp_size);
    assert(sp_table@.subrange(0, sp_size as int) =~= entry_startpoint_table(e@));
    assert(block@ =~= dir_block(e@));
    block
}

} // verus!

verus! {

/// Rounding `x` up to a multiple of 32 with a mask adds its alignment padding.
pub proof fn lemma_round_up_32(x: usize)
    requires
        x + 31 <= usize::MAX,
    ensures
        ((x + 31) as usize) & !31usize == x + pad_len(x as int, 32),
        (x + pad_len(x as int, 32)) % 32 == 0,
{
    let y = (x + 31) as usize;
    assert(y & !31usize == y - y % 32) by (bit_vector);
    let r = x % 32;
    if r == 0 {
        assert((x + 31) % 32 == 31);
        assert(pad_len(x as int, 32) == 0);
    } else {
        assert((x + 31) % 32 == r - 1);
        assert(pad_len(x as int, 32) == 32 - r);
    }
}

/// The FSB4 header is 48 bytes long.
pub proof fn lemma_fsb4_header_len(num_files: u32, dir_len: u32, dat_len: u32)
    ensures
        fsb4_header(num_files, dir_len, dat_len).len() == 48,
{
    lemma_auto_spec_u32_to_from_le_bytes();
}

/// Build an FSB4 sound bank holding the entries' MPEG data.
pub fn create_fsb4(entries: &[Fsb4Entry]) -> (out: Vec<u8>)
    requires
        data_blocks(entry_views(entries@)).len() <= u32::MAX,
        fsb4_image(entry_views(entries@)).len() <= isize::MAX,
    ensures
        out@ == fsb4_image(entry_views(entries@)),
        data_region_start(entry_views(entries@)) % 32 == 0,
        out@.len() == data_region_start(entry_views(entries@)) + data_blocks(entry_views(entries@)).len(),
{
    let ghost es = entry_views(entries@);
    let num_files = entries.len() as u32;
    proof {
        lemma_fsb4_header_len(es.len() as u32, (data_region_start(es) - 48) as u32, data_blocks(es).len() as u32);
        lemma_prefix_lengths(es, es.len() as int);
        assert(es.take(es.len() as int) =~= es);
    }

    let mut blocks: Vec<Vec<u8>> = Vec::new();
    let mut dat_len: u32 = 0;
    let mut raw_dir_len: usize = 0;
    let mut k: usize = 0;
    while k < entries.len()
        invariant
            es == entry_views(entries@),
            k <= es.len(),
            data_blocks(es).len() <= u32::MAX,
            fsb4_image(es).len() <= isize::MAX,
            fsb4_image(es).len() >= 48 + dir_blocks(es).len(),
            blocks@.len() == k,
            forall|j: int| 0 <= j < k ==> #[trigger] blocks@[j]@ == dir_block(es[j]),
            raw_dir_len == dir_blocks(es.take(k as int)).len(),
            dat_len == data_blocks(es.take(k as int)).len(),
        decreases es.len() - k,
    {
        let e = &entries[k];
        proof {
            lemma_prefix_lengths(es, k as int);
            lemma_prefix_lengths(es, k + 1);
            lemma_dir_block_len(e@);
            assert(es.take(k + 1).drop_last() =~= es.take(k as int));
            assert(es.take(k + 1).last() == es[k as int]);
        }
        dat_len = dat_len + e.data.len() as u32;
        let block = build_dir_block(e);
        raw_dir_len = raw_dir_len + block.len();
        blocks.push(block);
        k = k + 1;
    }
    assert(es.take(k as int) =~= es);

    let total_before_data = FSB4_HEADER_SIZE + raw_dir_len;
    proof {
        lemma_round_up_32(total_before_data);
    }
    let data_start = (total_before_data + MPEG_ALIGNMENT as usize - 1) & !(MPEG_ALIGNMENT as usize - 1);
    let dir_len = (data_start - FSB4_HEADER_SIZE) as u32;
    let header_flags = 0x20u32;

    let mut output: Vec<u8> = Vec::new();
    output.push(0x46);
    output.push(0x53);
    output.push(0x42);
    output.push(0x34);
    push_le_u32(&mut output, num_files);
    push_le_u32(&mut output, dir_len);
    push_le_u32(&mut output, dat_len);
    push_le_u32(&mut output, FSB4_VERSION);
    push_le_u32(&mut output, header_flags);
    push_zeros(&mut output, 24);
    let ghost header = output@;
    assert(header =~= fsb4_header(es.len() as u32, (data_region_start(es) - 48) as u32, data_blocks(es).len() as u32));

    let mut j: usize = 0;
    while j < blocks.len()
        invariant
            es == entry_views(entries@),
            blocks@.len() == es.len(),
            forall|i: int| 0 <= i < es.len() ==> #[trigger] blocks@[i]@ == dir_block(es[i]),
            j <= es.len(),
            output@ == header + dir_blocks(es.take(j as int)),
        decreases es.len() - j,
    {
        let block = &blocks[j];
        let n = block.len();
        push_range(&mut output, block.as_slice(), 0, n);
        j = j + 1;
        assert(es.take(j as int).drop_last() =~= es.take(j - 1));
        assert(es.take(j as int).last() == es[j - 1]);
        assert(block@.subrange(0, n as int) =~= block@);
        assert(output@ =~= header + dir_blocks(es.take(j as int)));
    }
    assert(es.take(j as int) =~= es);

    push_zeros(&mut output, data_start - total_before_data);
    let ghost before_data = output@;

    let mut j: usize = 0;
    while j < entries.len()
        invariant
            es == entry_views(entries@),
            j <= es.len(),
            output@ == before_data + data_blocks(es.take(j as int)),
        decreases es.len() - j,
    {
        let data = &entries[j].data;
        assert(es[j as int].data == data@);
        let n = data.len();
        push_range(&mut output, data.as_slice(), 0, n);
        j = j + 1;
        assert(es.take(j as int).drop_last() =~= es.take(j - 1));
        assert(es.take(j as int).last() == es[j - 1]);
        assert(data@.subrange(0, n as int) =~= data@);
        assert(output@ =~= before_data + data_blocks(es.take(j as int)));
    }
    assert(es.take(j as int) =~= es);
    assert(output@ =~= fsb4_image(es));
    output
}

} // verus!

verus! {

/// Why an FSB4 bank could not be read.
#[derive(Debug, Clone, Copy, PartialEq, Eq, Structural)]
pub enum Fsb4Error {
    /// Shorter than the 48-byte header.
    FileTooSmall,
    /// The magic bytes are not "FSB4".
    NotFsb4,
    /// The header holds another format version.
    UnsupportedVersion(u32),
    /// The header announces more data than the bank holds.
    Truncated { need: usize, have: usize },
    /// The directory entry with this index runs past the end.
    TruncatedAtEntry(u32),
}

/// A track read from an FSB4 bank.
pub struct Fsb4Track {
    pub filename: String,
    pub sample_len: u32,
    pub compressed_len: u32,
    pub data_offset: usize,
    pub play_mode: u32,
    pub sample_rate: u32,
    pub num_channels: u16,
    pub startpoints: Vec<u32>,
}

/// The contents of a track read from an FSB4 bank.
pub struct TrackView {
    pub filename: Seq<char>,
    pub sample_len: u32,
    pub compressed_len: u32,
    pub data_offset: int,
    pub play_mode: u32,
    pub sample_rate: u32,
    pub num_channels: u16,
    pub startpoints: Seq<u32>,
}

impl View for Fsb4Track {
    type V = TrackView;

    open spec fn view(&self) -> TrackView {
        TrackView {
            filename: self.filename@,
            sample_len: self.sample_len,
            compressed_len: self.compressed_len,
            data_offset: self.data_offset as int,
            play_mode: self.play_mode,
            sample_rate: self.sample_rate,
            num_channels: self.num_channels,
            startpoints: self.startpoints@,
        }
    }
}

/// The outcome of reading an FSB4 bank: its tracks, an error, or an abort
/// where a read falls outside the bank or a position overflows `usize`.
pub enum ParseOutcome {
    Parsed(Seq<TrackView>),
    Failed(Fsb4Error),
    Aborted,
}

/// The little-endian 16-bit value at `o`.
pub open spec fn le16_at(d: Seq<u8>, o: int) -> u16 {
    vstd::bytes::spec_u16_from_le_bytes(d.subrange(o, o + 2))
}

/// The little-endian 32-bit value at `o`.
pub open spec fn le32_at(d: Seq<u8>, o: int) -> u32 {
    vstd::bytes::spec_u32_from_le_bytes(d.subrange(o, o + 4))
}

/// The index of the first zero byte of `s`, or its length when it has none.
pub open spec fn first_zero(s: Seq<u8>) -> int
    decreases s.len(),
{
    if s.len() == 0 {
        0
    } else if s[0] == 0 {
        0
    } else {
        1 + first_zero(s.drop_first())
    }
}

/// What `String::from_utf8_lossy` makes of `bytes`.
pub uninterp spec fn utf8_lossy(bytes: Seq<u8>) -> Seq<char>;

/// The text of `bytes`: the characters they encode when they are valid
/// UTF-8, else their lossy conversion.
pub open spec fn lossy_text(bytes: Seq<u8>) -> Seq<char> {
    if vstd::utf8::valid_utf8(bytes) {
        vstd::utf8::decode_utf8(bytes)
    } else {
        utf8_lossy(bytes)
    }
}

/// Calls `String::from_utf8_lossy`. Claims that for valid UTF-8 the result
/// holds the characters the bytes encode, and otherwise is the named
/// conversion of the bytes; what replaces invalid sequences is left unsaid.
#[verifier::external_body]
fn string_from_utf8_lossy(bytes: &[u8]) -> (s: String)
    ensures
        vstd::utf8::valid_utf8(bytes@) ==> s@ == vstd::utf8::decode_utf8(bytes@),
        !vstd::utf8::valid_utf8(bytes@) ==> s@ == utf8_lossy(bytes@),
{
    String::from_utf8_lossy(bytes).into_owned()
}

/// The file name of the directory entry at `offset`: its 30-byte field up
/// to the first zero byte.
pub open spec fn entry_filename(d: Seq<u8>, offset: int) -> Seq<char> {
    let raw = d.subrange(offset + 2, offset + 32);
    lossy_text(raw.take(first_zero(raw)))
}

/// The startpoints of the directory entry at `offset` with length
/// `entry_len`, or `None` where a read falls outside the bank.
pub open spec fn entry_startpoints(d: Seq<u8>, offset: int, entry_len: int) -> Option<Seq<u32>> {
    let sp = offset + 80;
    if entry_len <= 80 {
        Some(Seq::empty())
    } else if sp + 4 > d.len() {
        None
    } else if d.subrange(sp, sp + 4) != sync_tag() {
        Some(Seq::empty())
    } else if sp + 8 > d.len() {
        None
    } else {
        let count = le32_at(d, sp + 4) as int;
        if count > 0 && sp + 8 + (count - 1) * 260 + 4 > d.len() {
            None
        } else {
            Some(Seq::new(count as nat, |j: int| le32_at(d, sp + 8 + j * 260)))
        }
    }
}

/// The track of the directory entry at `offset` whose data starts at `data_pos`.
pub open spec fn entry_track(d: Seq<u8>, offset: int, data_pos: int, startpoints: Seq<u32>) -> TrackView {
    TrackView {
        filename: entry_filename(d, offset),
        sample_len: le32_at(d, offset + 32),
        compressed_len: le32_at(d, offset + 36),
        data_offset: data_pos,
        play_mode: le32_at(d, offset + 48),
        sample_rate: le32_at(d, offset + 52),
        num_channels: le16_at(d, offset + 62),
        startpoints,
    }
}

/// `tracks` followed by the tracks of `outcome`, if it has tracks.
pub open spec fn prepend_tracks(tracks: Seq<TrackView>, outcome: ParseOutcome) -> ParseOutcome {
    match outcome {
        ParseOutcome::Parsed(rest) => ParseOutcome::Parsed(tracks + rest),
        other => other,
    }
}

/// Reading `remaining` directory entries, the first at `offset` with index
/// `index` and its data at `data_pos`.
pub open spec fn parse_entries(d: Seq<u8>, remaining: nat, index: int, offset: int, data_pos: int) -> ParseOutcome
    decreases remaining,
{
    if remaining == 0 {
        ParseOutcome::Parsed(Seq::empty())
    } else if offset + 80 > usize::MAX {
        ParseOutcome::Aborted
    } else if offset + 80 > d.len() {
        ParseOutcome::Failed(Fsb4Error::TruncatedAtEntry(index as u32))
    } else {
        let entry_len = le16_at(d, offset) as int;
        match entry_startpoints(d, offset, entry_len) {
            None => ParseOutcome::Aborted,
            Some(sps) => {
                let compressed = le32_at(d, offset + 36) as int;
                if data_pos + compressed > usize::MAX || offset + entry_len > usize::MAX {
                    ParseOutcome::Aborted
                } else {
                    prepend_tracks(
                        seq![entry_track(d, offset, data_pos, sps)],
                        parse_entries(d, (remaining - 1) as nat, index + 1, offset + entry_len, data_pos + compressed),
                    )
                }
            },
        }
    }
}

/// Reading an FSB4 bank: the header checks, then the directory entries.
pub open spec fn spec_parse_fsb4(d: Seq<u8>) -> ParseOutcome {
    if d.len() < 48 {
        ParseOutcome::Failed(Fsb4Error::FileTooSmall)
    } else if d.subrange(0, 4) != seq![0x46u8, 0x53, 0x42, 0x34] {
        ParseOutcome::Failed(Fsb4Error::NotFsb4)
    } else {
        let num_files = le32_at(d, 4);
        let dir_len = le32_at(d, 8) as int;
        let dat_len = le32_at(d, 12) as int;
        let version = le32_at(d, 16);
        if version != FSB4_VERSION {
            ParseOutcome::Failed(Fsb4Error::UnsupportedVersion(version))
        } else if 48 + dir_len > usize::MAX || 48 + dir_len + dat_len > usize::MAX {
            ParseOutcome::Aborted
        } else if 48 + dir_len + dat_len > d.len() {
            ParseOutcome::Failed(
                Fsb4Error::Truncated { need: (48 + dir_len + dat_len) as usize, have: d.len() as usize },
            )
        } else {
            parse_entries(d, num_files as nat, 0, 48, 48 + dir_len)
        }
    }
}

/// The outcome that a result of `try_parse_fsb4` stands for.
pub open spec fn outcome_of(r: Option<Result<Vec<Fsb4Track>, Fsb4Error>>) -> ParseOutcome {
    match r {
        None => ParseOutcome::Aborted,
        Some(Err(e)) => ParseOutcome::Failed(e),
        Some(Ok(tracks)) => ParseOutcome::Parsed(tracks@.map_values(|t: Fsb4Track| t@)),
    }
}

} // verus!

verus! {

fn read_le16(data: &[u8], o: usize) -> (v: u16)
    requires
        o + 2 <= data@.len(),
    ensures
        v == le16_at(data@, o as int),
{
    let _len = data.len();
    vstd::bytes::u16_from_le_bytes(vstd::slice::slice_subrange(data, o, o + 2))
}

fn read_le32(data: &[u8], o: usize) -> (v: u32)
    requires
        o + 4 <= data@.len(),
    ensures
        v == le32_at(data@, o as int),
{
    let _len = data.len();
    vstd::bytes::u32_from_le_bytes(vstd::slice::slice_subrange(data, o, o + 4))
}

fn name_end(raw: &[u8]) -> (n: usize)
    ensures
        n == first_zero(raw@),
        n <= raw@.len(),
{
    let len = raw.len();
    let mut i: usize = 0;
    assert(raw@.subrange(0, len as int) =~= raw@);
    while i < len && raw[i] != 0
        invariant
            len == raw@.len(),
            i <= len,
            first_zero(raw@) == i + first_zero(raw@.subrange(i as int, len as int)),
        decreases len - i,
    {
        let ghost sub = raw@.subrange(i as int, len as int);
        assert(sub.drop_first() =~= raw@.subrange(i + 1, len as int));
        i = i + 1;
    }
    proof {
        let sub = raw@.subrange(i as int, len as int);
        if i < len {
            assert(sub[0] == raw@[i as int]);
        }
    }
    i
}

fn read_entry_startpoints(data: &[u8], offset: usize, entry_len: usize) -> (r: Option<Vec<u32>>)
    requires
        offset + 80 <= data@.len(),
    ensures
        match entry_startpoints(data@, offset as int, entry_len as int) {
            None => r is None,
            Some(sps) => r matches Some(v) && v@ == sps,
        },
{
    let len = data.len();
    let mut startpoints: Vec<u32> = Vec::new();
    if entry_len > 80 {
        let sp_offset = offset + 80;
        if len - sp_offset < 4 {
            return None;
        }
        let tag = vstd::slice::slice_subrange(data, sp_offset, sp_offset + 4);
        if tag[0] == 0x53 && tag[1] == 0x59 && tag[2] == 0x4E && tag[3] == 0x43 {
            assert(data@.subrange(sp_offset as int, sp_offset + 4) =~= sync_tag());
            if len - sp_offset < 8 {
                return None;
            }
            let sp_count = read_le32(data, sp_offset + 4);
            if sp_count > 0 {
                if len - sp_offset < 12 {
                    return None;
                }
                let room = len - sp_offset - 12;
                if (sp_count - 1) as u64 * 260 > room as u64 {
                    return None;
                }
            }
            let mut j: u32 = 0;
            while j < sp_count
                invariant
                    len == data@.len(),
                    sp_offset == offset + 80,
                    sp_offset + 8 <= len,
                    sp_count == le32_at(data@, sp_offset + 4),
                    sp_count > 0 ==> sp_offset + 8 + (sp_count - 1) * 260 + 4 <= len,
                    j <= sp_count,
                    startpoints@ == Seq::new(j as nat, |i: int| le32_at(data@, sp_offset + 8 + i * 260)),
                decreases sp_count - j,
            {
                let entry_sp = sp_offset + 8 + j as usize * STARTPOINT_ENTRY_SIZE;
                let v = read_le32(data, entry_sp);
                startpoints.push(v);
                j = j + 1;
                assert(startpoints@ =~= Seq::new(j as nat, |i: int| le32_at(data@, sp_offset + 8 + i * 260)));
            }
        } else {
            assert(data@.subrange(sp_offset as int, sp_offset + 4) != sync_tag()) by {
                if data@.subrange(sp_offset as int, sp_offset + 4) == sync_tag() {
                    assert(tag@ == data@.subrange(sp_offset as int, sp_offset + 4));
                    assert(tag@[0] == sync_tag()[0]);
                    assert(tag@[1] == sync_tag()[1]);
                    assert(tag@[2] == sync_tag()[2]);
                    assert(tag@[3] == sync_tag()[3]);
                }
            }
        }
    }
    Some(startpoints)
}

} // verus!

verus! {

proof fn lemma_prepend_tracks_push(a: Seq<TrackView>, t: TrackView, rest: ParseOutcome)
    ensures
        prepend_tracks(a, prepend_tracks(seq![t], rest)) == prepend_tracks(a.push(t), rest),
{
    if let ParseOutcome::Parsed(r) = rest {
        assert(a + (seq![t] + r) =~= a.push(t) + r);
    }
}

proof fn lemma_prepend_tracks_empty(rest: ParseOutcome)
    ensures
        prepend_tracks(Seq::empty(), rest) == rest,
{
    if let ParseOutcome::Parsed(r) = rest {
        assert(Seq::<TrackView>::empty() + r =~= r);
    }
}

/// Read the tracks of an FSB4 bank, or `None` where a read would fall
/// outside `data` or a position would overflow `usize`.
pub fn try_parse_fsb4(data: &[u8]) -> (r: Option<Result<Vec<Fsb4Track>, Fsb4Error>>)
    ensures
        outcome_of(r) == spec_parse_fsb4(data@),
{
    let ghost d = data@;
    let len = data.len();
    if len < 48 {
        return Some(Err(Fsb4Error::FileTooSmall));
    }
    if !(data[0] == 0x46 && data[1] == 0x53 && data[2] == 0x42 && data[3] == 0x34) {
        assert(d.subrange(0, 4) != seq![0x46u8, 0x53, 0x42, 0x34]) by {
            if d.subrange(0, 4) == seq![0x46u8, 0x53, 0x42, 0x34] {
                assert(d.subrange(0, 4)[0] == d[0]);
                assert(d.subrange(0, 4)[1] == d[1]);
                assert(d.subrange(0, 4)[2] == d[2]);
                assert(d.subrange(0, 4)[3] == d[3]);
            }
        }
        return Some(Err(Fsb4Error::NotFsb4));
    }
    assert(d.subrange(0, 4) =~= seq![0x46u8, 0x53, 0x42, 0x34]);

    let num_files = read_le32(data, 4);
    let dir_len = read_le32(data, 8) as usize;
    let dat_len = read_le32(data, 12) as usize;
    let version = read_le32(data, 16);

    if version != FSB4_VERSION {
        return Some(Err(Fsb4Error::UnsupportedVersion(version)));
    }

    let dir_start: usize = 48;
    if dir_len > usize::MAX - dir_start {
        return None;
    }
    let data_start = dir_start + dir_len;
    if dat_len > usize::MAX - data_start {
        return None;
    }
    if data_start + dat_len > len {
        return Some(Err(Fsb4Error::Truncated { need: data_start + dat_len, have: len }));
    }

    let mut tracks: Vec<Fsb4Track> = Vec::new();
    let mut offset = dir_start;
    let mut data_pos = data_start;
    let mut i: u32 = 0;
    proof {
        lemma_prepend_tracks_empty(parse_entries(d, num_files as nat, 0, 48, data_start as int));
        assert(tracks@.map_values(|t: Fsb4Track| t@) =~= Seq::<TrackView>::empty());
    }
    while i < num_files
        invariant
            d == data@,
            len == d.len(),
            i <= num_files,
            spec_parse_fsb4(d) == prepend_tracks(
                tracks@.map_values(|t: Fsb4Track| t@),
                parse_entries(d, (num_files - i) as nat, i as int, offset as int, data_pos as int),
            ),
        decreases num_files - i,
    {
        if offset > usize::MAX - 80 {
            return None;
        }
        if offset + 80 > len {
            return Some(Err(Fsb4Error::TruncatedAtEntry(i)));
        }

        let entry_len = read_le16(data, offset) as usize;

        let filename_raw = vstd::slice::slice_subrange(data, offset + 2, offset + 32);
        let name_len = name_end(filename_raw);
        let filename = string_from_utf8_lossy(vstd::slice::slice_subrange(filename_raw, 0, name_len));
        assert(filename_raw@.subrange(0, name_len as int) =~= filename_raw@.take(name_len as int));

        let sample_len = read_le32(data, offset + 32);
        let compressed_len = read_le32(data, offset + 36);
        let play_mode = read_le32(data, offset + 48);
        let sample_rate = read_le32(data, offset + 52);
        let num_channels = read_le16(data, offset + 62);

        let startpoints = match read_entry_startpoints(data, offset, entry_len) {
            Some(v) => v,
            None => {
                return None;
            },
        };

        if compressed_len as usize > usize::MAX - data_pos || entry_len > usize::MAX - offset {
            return None;
        }

        let track = Fsb4Track {
            filename,
            sample_len,
            compressed_len,
            data_offset: data_pos,
            play_mode,
            sample_rate,
            num_channels,
            startpoints,
        };
        let ghost before = tracks@.map_values(|t: Fsb4Track| t@);
        assert(track@ == entry_track(d, offset as int, data_pos as int, track.startpoints@));
        tracks.push(track);
        proof {
            assert(tracks@.map_values(|t: Fsb4Track| t@) =~= before.push(track@));
            lemma_prepend_tracks_push(
                before,
                track@,
                parse_entries(d, (num_files - i - 1) as nat, i + 1, offset + entry_len, data_pos + compressed_len),
            );
        }
        data_pos = data_pos + compressed_len as usize;
        offset = offset + entry_len;
        i = i + 1;
    }
    proof {
        let ts = tracks@.map_values(|t: Fsb4Track| t@);
        assert(ts + Seq::<TrackView>::empty() =~= ts);
    }
    Some(Ok(tracks))
}

/// Read the tracks of an FSB4 bank.
pub fn parse_fsb4(data: &[u8]) -> (r: Result<Vec<Fsb4Track>, Fsb4Error>)
    requires
        !(spec_parse_fsb4(data@) is Aborted),
    ensures
        match spec_parse_fsb4(data@) {
            ParseOutcome::Parsed(ts) => r matches Ok(tracks) && tracks@.map_values(|t: Fsb4Track| t@) == ts,
            ParseOutcome::Failed(e) => r == Err::<Vec<Fsb4Track>, Fsb4Error>(e),
            ParseOutcome::Aborted => false,
        },
{
    try_parse_fsb4(data).unwrap()
}

} // verus!

verus! {

/// The entries fit an FSB4 bank: their data fits the 32-bit data length
/// field and the whole bank fits in memory.
pub open spec fn fsb4_fits(es: Seq<EntryView>) -> bool {
    &&& data_blocks(es).len() <= u32::MAX
    &&& fsb4_image(es).len() <= isize::MAX
}

/// The length of an FSB4 bank.
pub proof fn lemma_fsb4_image_len(es: Seq<EntryView>)
    ensures
        fsb4_image(es).len() == data_region_start(es) + data_blocks(es).len(),
        data_region_start(es) == 48 + dir_blocks(es).len() + pad_len(48 + dir_blocks(es).len() as int, 32),
        0 <= pad_len(48 + dir_blocks(es).len() as int, 32) < 32,
{
    lemma_fsb4_header_len(es.len() as u32, (data_region_start(es) - 48) as u32, data_blocks(es).len() as u32);
    let b = 48 + dir_blocks(es).len() as int;
    assert(0 <= pad_len(b, 32) < 32);
}

/// Build an FSB4 sound bank, or `None` when the entries do not fit one.
pub fn try_create_fsb4(entries: &[Fsb4Entry]) -> (r: Option<Vec<u8>>)
    ensures
        r is Some <==> fsb4_fits(entry_views(entries@)),
        r matches Some(out) ==> out@ == fsb4_image(entry_views(entries@)),
{
    let ghost es = entry_views(entries@);
    let limit = isize::MAX as usize;
    proof {
        lemma_fsb4_image_len(es);
        lemma_prefix_lengths(es, es.len() as int);
        assert(es.take(es.len() as int) =~= es);
    }
    let mut dat: usize = 0;
    let mut raw: usize = 0;
    let mut k: usize = 0;
    while k < entries.len()
        invariant
            es == entry_views(entries@),
            limit == isize::MAX,
            k <= es.len(),
            dat == data_blocks(es.take(k as int)).len(),
            dat <= u32::MAX,
            raw == dir_blocks(es.take(k as int)).len(),
            raw <= limit,
            fsb4_image(es).len() == data_region_start(es) + data_blocks(es).len(),
            data_region_start(es) >= 48 + dir_blocks(es).len(),
        decreases es.len() - k,
    {
        let e = &entries[k];
        assert(es[k as int] == e@);
        proof {
            lemma_prefix_lengths(es, k + 1);
            lemma_dir_block_len(e@);
            assert(es.take(k + 1).drop_last() =~= es.take(k as int));
            assert(es.take(k + 1).last() == es[k as int]);
        }
        let n = e.data.len();
        if n > 0xFFFF_FFFFusize - dat {
            return None;
        }
        dat = dat + n;
        let count = e.startpoints.len();
        let block_len: usize = if count == 0 {
            80
        } else {
            if count > (limit - 88) / 260 {
                return None;
            }
            88 + count * 260
        };
        if block_len > limit - raw {
            return None;
        }
        raw = raw + block_len;
        k = k + 1;
    }
    assert(es.take(k as int) =~= es);
    let before = 48 + raw;
    proof {
        crate::fsb4::lemma_round_up_32(before);
    }
    let start = (before + 31) & !31usize;
    if dat > limit || start > limit - dat {
        return None;
    }
    Some(create_fsb4(entries))
}

} // verus!
