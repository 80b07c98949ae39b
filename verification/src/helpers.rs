//! MPEG audio frame headers and small numeric helpers.
use vstd::prelude::*;

verus! {

/// Sample rates in Hz, indexed by MPEG version bits, then by sample-rate index.
pub open spec fn sample_rate_table() -> Seq<Seq<u32>> {
    seq![
        seq![11025u32, 12000, 8000, 0],
        seq![0u32, 0, 0, 0],
        seq![22050u32, 24000, 16000, 0],
        seq![44100u32, 48000, 32000, 0],
    ]
}

/// Bitrates in kbit/s, indexed by MPEG version bits, then by bitrate index.
pub open spec fn bitrate_table() -> Seq<Seq<u32>> {
    seq![
        seq![0u32, 8, 16, 24, 32, 40, 48, 56, 64, 80, 96, 112, 128, 144, 160, 0],
        seq![0u32, 0, 0, 0, 0, 0, 0, 0, 0, 0, 0, 0, 0, 0, 0, 0],
        seq![0u32, 8, 16, 24, 32, 40, 48, 56, 64, 80, 96, 112, 128, 144, 160, 0],
        seq![0u32, 32, 40, 48, 56, 64, 80, 96, 112, 128, 160, 192, 224, 256, 320, 0],
    ]
}

/// The least multiple of `alignment` that is at least `value`.
pub open spec fn align_up_spec(value: int, alignment: int) -> int {
    (value + alignment - 1) / alignment * alignment
}

/// Round up to the next multiple of alignment.
pub fn align_up(value: u32, alignment: u32) -> (r: u32)
    requires
        alignment >= 1,
        value + alignment - 1 <= u32::MAX,
    ensures
        r == align_up_spec(value as int, alignment as int),
        r % alignment == 0,
        value <= r,
        r < value + alignment,
{
    let sum = value + (alignment - 1);
    let q = sum / alignment;
    proof {
        let a = alignment as int;
        let v = value as int;
        let s = sum as int;
        vstd::arithmetic::div_mod::lemma_fundamental_div_mod(s, a);
        assert(q * a <= s) by (nonlinear_arith)
            requires
                s == a * (s / a) + s % a,
                0 <= s % a,
                q == s / a,
        ;
        assert(q * a > s - a) by (nonlinear_arith)
            requires
                s == a * (s / a) + s % a,
                s % a < a,
                q == s / a,
        ;
        vstd::arithmetic::div_mod::lemma_mod_multiples_basic(q as int, a);
    }
    q * alignment
}

/// Parsed MP3 frame header data
#[derive(Debug, Clone, Copy)]
pub struct Mp3FrameInfo {
    pub version: u32,
    pub layer: u32,
    pub bitrate_idx: u32,
    pub sample_rate_idx: u32,
    pub padding: u32,
    pub channel_bits: u32,
}

impl Mp3FrameInfo {
    /// Every field holds the value of a bit field of its width.
    pub open spec fn fields_in_range(&self) -> bool {
        &&& self.version < 4
        &&& self.layer < 4
        &&& self.bitrate_idx < 16
        &&& self.sample_rate_idx < 4
        &&& self.padding < 2
        &&& self.channel_bits < 4
    }

    pub open spec fn spec_sample_rate(&self) -> u32 {
        sample_rate_table()[self.version as int][self.sample_rate_idx as int]
    }

    pub open spec fn spec_bitrate(&self) -> u32 {
        bitrate_table()[self.version as int][self.bitrate_idx as int]
    }

    /// The frame length in bytes as a mathematical integer.
    pub open spec fn spec_frame_size(&self) -> int {
        let sr = self.spec_sample_rate();
        let br = self.spec_bitrate();
        if sr == 0 || br == 0 {
            0
        } else if self.layer == 1 || self.layer == 2 {
            144 * br * 1000 / (sr as int) + self.padding
        } else if self.layer == 3 {
            (12 * br * 1000 / (sr as int) + self.padding) * 4
        } else {
            0
        }
    }

    pub open spec fn spec_samples_per_frame(&self) -> u32 {
        if self.layer == 1 {
            if self.version == 3 || self.version == 2 { 1152 } else { 576 }
        } else if self.layer == 2 {
            1152
        } else if self.layer == 3 {
            384
        } else {
            0
        }
    }

    /// Get number of audio channels (mono or stereo)
    pub fn num_channels(&self) -> (n: u16)
        ensures
            n == (if self.channel_bits == 3 { 1u16 } else { 2u16 }),
    {
        if self.channel_bits == 3 { 1 } else { 2 }
    }

    /// Look up sample rate from MPEG version table
    pub fn sample_rate(&self) -> (r: u32)
        requires
            self.version < 4,
            self.sample_rate_idx < 4,
        ensures
            r == self.spec_sample_rate(),
    {
        let rates: [[u32; 4]; 4] = [
            [11025, 12000, 8000, 0],
            [0, 0, 0, 0],
            [22050, 24000, 16000, 0],
            [44100, 48000, 32000, 0],
        ];
        let row = rates[self.version as usize];
        row[self.sample_rate_idx as usize]
    }

    /// Look up bitrate from MPEG version table
    pub fn bitrate(&self) -> (r: u32)
        requires
            self.version < 4,
            self.bitrate_idx < 16,
        ensures
            r == self.spec_bitrate(),
    {
        let bitrates: [[u32; 16]; 4] = [
            [0, 8, 16, 24, 32, 40, 48, 56, 64, 80, 96, 112, 128, 144, 160, 0],
            [0, 0, 0, 0, 0, 0, 0, 0, 0, 0, 0, 0, 0, 0, 0, 0],
            [0, 8, 16, 24, 32, 40, 48, 56, 64, 80, 96, 112, 128, 144, 160, 0],
            [0, 32, 40, 48, 56, 64, 80, 96, 112, 128, 160, 192, 224, 256, 320, 0],
        ];
        let row = bitrates[self.version as usize];
        row[self.bitrate_idx as usize]
    }

    /// Calculate frame size in bytes based on bitrate and sample rate
    pub fn frame_size(&self) -> (r: u32)
        requires
            self.version < 4,
            self.sample_rate_idx < 4,
            self.bitrate_idx < 16,
            self.spec_frame_size() <= u32::MAX,
        ensures
            r == self.spec_frame_size(),
    {
        let sr = self.sample_rate();
        let br = self.bitrate();
        if sr == 0 || br == 0 {
            return 0;
        }
        proof {
            lemma_table_bounds(self.version, self.bitrate_idx, self.sample_rate_idx);
        }
        match self.layer {
            1 => (144 * br * 1000 / sr) + self.padding,
            2 => (144 * br * 1000 / sr) + self.padding,
            3 => ((12 * br * 1000 / sr) + self.padding) * 4,
            _ => 0,
        }
    }

    /// Get number of samples per frame for this MPEG version
    pub fn samples_per_frame(&self) -> (r: u32)
        ensures
            r == self.spec_samples_per_frame(),
    {
        match self.layer {
            1 => match self.version {
                3 => 1152,
                2 => 1152,
                _ => 576,
            },
            2 => 1152,
            3 => 384,
            _ => 0,
        }
    }
}

/// Every bitrate in the table is at most 320 kbit/s and every nonzero sample
/// rate is between 8000 and 48000 Hz.
pub proof fn lemma_table_bounds(version: u32, bitrate_idx: u32, sample_rate_idx: u32)
    requires
        version < 4,
        bitrate_idx < 16,
        sample_rate_idx < 4,
    ensures
        bitrate_table()[version as int][bitrate_idx as int] <= 320,
        sample_rate_table()[version as int][sample_rate_idx as int] <= 48000,
        sample_rate_table()[version as int][sample_rate_idx as int] != 0
            ==> sample_rate_table()[version as int][sample_rate_idx as int] >= 8000,
{
    let b = bitrate_table()[version as int];
    let r = sample_rate_table()[version as int];
    assert(forall|i: int| 0 <= i < 16 ==> #[trigger] b[i] <= 320);
    assert(forall|i: int| 0 <= i < 4 ==> #[trigger] r[i] <= 48000 && (r[i] != 0 ==> r[i] >= 8000));
}

/// The frame header fields read from a 32-bit big-endian header word, or
/// `None` when the sync bits are missing or a field holds a reserved value.
pub open spec fn spec_parse_mp3_frame_header(header: u32) -> Option<Mp3FrameInfo> {
    let sync = (header >> 21) & 0x7FF;
    let version = (header >> 19) & 0x03;
    let layer = (header >> 17) & 0x03;
    let bitrate_idx = (header >> 12) & 0x0F;
    let sample_rate_idx = (header >> 10) & 0x03;
    let padding = (header >> 9) & 0x01;
    let channel_bits = (header >> 6) & 0x03;
    if sync != 0x7FF {
        None
    } else if version == 1 || layer == 0 || bitrate_idx == 0 || bitrate_idx == 15
        || sample_rate_idx == 3 {
        None
    } else {
        Some(
            Mp3FrameInfo {
                version,
                layer,
                bitrate_idx,
                sample_rate_idx,
                padding,
                channel_bits,
            },
        )
    }
}

/// Parse MP3 frame header bytes into usable fields
pub fn parse_mp3_frame_header(header: u32) -> (r: Option<Mp3FrameInfo>)
    ensures
        r == spec_parse_mp3_frame_header(header),
        r matches Some(info) ==> {
            &&& info.fields_in_range()
            &&& info.version != 1
            &&& info.layer != 0
            &&& 0 < info.bitrate_idx < 15
            &&& info.sample_rate_idx < 3
        },
{
    let sync = (header >> 21) & 0x7FF;
    if sync != 0x7FF {
        return None;
    }

    let version = (header >> 19) & 0x03;
    let layer = (header >> 17) & 0x03;
    let bitrate_idx = (header >> 12) & 0x0F;
    let sample_rate_idx = (header >> 10) & 0x03;
    let padding = (header >> 9) & 0x01;
    let channel_bits = (header >> 6) & 0x03;

    // Skip invalid or reserved values
    if version == 1 || layer == 0 || bitrate_idx == 0 || bitrate_idx == 15 || sample_rate_idx == 3 {
        return None;
    }
    assert((header >> 19) & 0x03 < 4 && (header >> 17) & 0x03 < 4 && (header >> 12) & 0x0F < 16
        && (header >> 10) & 0x03 < 4 && (header >> 9) & 0x01 < 2 && (header >> 6) & 0x03 < 4)
        by (bit_vector);

    Some(Mp3FrameInfo {
        version,
        layer,
        bitrate_idx,
        sample_rate_idx,
        padding,
        channel_bits,
    })
}

/// The big-endian 32-bit value of the four bytes of `data` from `offset` on.
pub open spec fn spec_be_u32_at(data: Seq<u8>, offset: int) -> u32 {
    ((data[offset] as u32) << 24) | ((data[offset + 1] as u32) << 16) | ((data[offset + 2] as u32)
        << 8) | (data[offset + 3] as u32)
}

/// Read a 4-byte big-endian value from a byte slice
pub fn read_be_u32(data: &[u8], offset: usize) -> (r: u32)
    requires
        offset + 4 <= data@.len(),
    ensures
        r == spec_be_u32_at(data@, offset as int),
{
    ((data[offset] as u32) << 24)
        | ((data[offset + 1] as u32) << 16)
        | ((data[offset + 2] as u32) << 8)
        | (data[offset + 3] as u32)
}

} // verus!

verus! {

/// The header word is read big-endian: bits 19-20 hold the version, 17-18
/// the layer, 12-15 the bitrate index, 10-11 the sample-rate index, bit 9
/// the padding and 6-7 the channel mode. A word is accepted exactly when its
/// eleven top bits are all set and no field holds a reserved value: version
/// 1, layer 0, bitrate index 0 or 15, sample-rate index 3.
pub proof fn lemma_header_word_fields(header: u32)
    ensures
        spec_parse_mp3_frame_header(header) is Some <==> {
            &&& header >= 0xFFE0_0000
            &&& (header / 0x80000) % 4 != 1
            &&& (header / 0x20000) % 4 != 0
            &&& (header / 0x1000) % 16 != 0
            &&& (header / 0x1000) % 16 != 15
            &&& (header / 0x400) % 4 != 3
        },
        spec_parse_mp3_frame_header(header) matches Some(info) ==> {
            &&& info.version == (header / 0x80000) % 4
            &&& info.layer == (header / 0x20000) % 4
            &&& info.bitrate_idx == (header / 0x1000) % 16
            &&& info.sample_rate_idx == (header / 0x400) % 4
            &&& info.padding == (header / 0x200) % 2
            &&& info.channel_bits == (header / 0x40) % 4
        },
{
    assert(((header >> 21) & 0x7FF == 0x7FF) == (header >= 0xFFE0_0000)) by (bit_vector);
    assert((header >> 19) & 0x03 == (header / 0x80000) % 4
        && (header >> 17) & 0x03 == (header / 0x20000) % 4
        && (header >> 12) & 0x0F == (header / 0x1000) % 16
        && (header >> 10) & 0x03 == (header / 0x400) % 4
        && (header >> 9) & 0x01 == (header / 0x200) % 2
        && (header >> 6) & 0x03 == (header / 0x40) % 4) by (bit_vector);
}

/// For an accepted header: MPEG-1 (version 3) runs at 44100, 48000 or
/// 32000 Hz, MPEG-2 (version 2) at half and MPEG-2.5 (version 0) at a
/// quarter of those; MPEG-1 bitrates are 32 to 320 kbit/s and the others 8
/// to 160 kbit/s by the standard tables. A Layer II or III frame (layer 2
/// or 1) holds `samples / 8 * kbps * 1000 / rate + padding` bytes, 144 per
/// kbit/s and Hz; a Layer I frame (layer 3) holds 384 samples in four-byte
/// slots, `(12 * kbps * 1000 / rate + padding) * 4` bytes.
pub proof fn lemma_standard_frame_tables(info: Mp3FrameInfo)
    requires
        info.fields_in_range(),
        info.version != 1,
        info.layer != 0,
        0 < info.bitrate_idx < 15,
        info.sample_rate_idx < 3,
    ensures
        info.spec_sample_rate() as int == seq![44100int, 48000, 32000][info.sample_rate_idx as int]
            / (if info.version == 3 { 1int } else if info.version == 2 { 2 } else { 4 }),
        info.spec_bitrate() as int == if info.version == 3 {
            seq![32int, 40, 48, 56, 64, 80, 96, 112, 128, 160, 192, 224, 256, 320][info.bitrate_idx - 1]
        } else {
            seq![8int, 16, 24, 32, 40, 48, 56, 64, 80, 96, 112, 128, 144, 160][info.bitrate_idx - 1]
        },
        info.layer == 3 ==> info.spec_samples_per_frame() == 384 && info.spec_frame_size()
            == (12 * info.spec_bitrate() * 1000 / (info.spec_sample_rate() as int) + info.padding) * 4,
        info.layer == 2 ==> info.spec_samples_per_frame() == 1152,
        info.layer == 1 ==> info.spec_samples_per_frame() == if info.version == 0 { 576u32 } else { 1152 },
        info.layer == 1 || info.layer == 2 ==> info.spec_frame_size()
            == 144 * info.spec_bitrate() * 1000 / (info.spec_sample_rate() as int) + info.padding,
        info.layer == 2 || (info.layer == 1 && info.version != 0) ==> info.spec_frame_size()
            == info.spec_samples_per_frame() / 8 * info.spec_bitrate() * 1000 / (info.spec_sample_rate() as int)
            + info.padding,
{
    let v = info.version as int;
    let b = info.bitrate_idx as int;
    let s = info.sample_rate_idx as int;
    let rates = sample_rate_table();
    assert(rates[0] =~= seq![11025u32, 12000, 8000, 0]);
    assert(rates[2] =~= seq![22050u32, 24000, 16000, 0]);
    assert(rates[3] =~= seq![44100u32, 48000, 32000, 0]);
    let brs = bitrate_table();
    let mp1 = seq![32int, 40, 48, 56, 64, 80, 96, 112, 128, 160, 192, 224, 256, 320];
    let mp2 = seq![8int, 16, 24, 32, 40, 48, 56, 64, 80, 96, 112, 128, 144, 160];
    assert(forall|i: int| 1 <= i < 15 ==> brs[3][i] as int == #[trigger] mp1[i - 1]);
    assert(forall|i: int| 1 <= i < 15 ==> brs[2][i] as int == #[trigger] mp2[i - 1]);
    assert(forall|i: int| 1 <= i < 15 ==> brs[0][i] as int == #[trigger] mp2[i - 1]);
    assert(mp1[b - 1] == brs[3][b] as int);
    assert(mp2[b - 1] == brs[2][b] as int);
    assert(mp2[b - 1] == brs[0][b] as int);
    lemma_table_bounds(info.version, info.bitrate_idx, info.sample_rate_idx);
    assert(info.spec_sample_rate() != 0);
    assert(info.spec_bitrate() != 0);
}

} // verus!

verus! {

/// Four bytes read big-endian: the first is the most significant.
pub proof fn lemma_be_u32_value(data: Seq<u8>, offset: int)
    requires
        0 <= offset,
        offset + 4 <= data.len(),
    ensures
        spec_be_u32_at(data, offset) as int == data[offset] * 0x100_0000 + data[offset + 1] * 0x1_0000
            + data[offset + 2] * 0x100 + data[offset + 3],
{
    let b0 = data[offset];
    let b1 = data[offset + 1];
    let b2 = data[offset + 2];
    let b3 = data[offset + 3];
    assert(((b0 as u32) << 24) | ((b1 as u32) << 16) | ((b2 as u32) << 8) | (b3 as u32)
        == (b0 as u32) * 0x100_0000 + (b1 as u32) * 0x1_0000 + (b2 as u32) * 0x100 + (b3 as u32))
        by (bit_vector);
}

} // verus!
