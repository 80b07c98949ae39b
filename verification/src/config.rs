//! FSB4 format constants and flag definitions
use vstd::prelude::*;

verus! {

pub const FSB4_MAGIC: [u8; 4] = [0x46, 0x53, 0x42, 0x34];
pub const FSB4_VERSION: u32 = 0x00040000;
pub const FSB4_HEADER_SIZE: usize = 48;
pub const FSB4_ENTRY_SIZE: usize = 80;

pub const PLAY_MODE: u32 = 0x80000240;
pub const BANK_VOLUME: u16 = 255;
pub const PLAYBACK_PRIORITY: u16 = 128;
pub const PAN: u16 = 128;

pub const SAMPLE_RATE: u32 = 44100;
pub const MPEG_ALIGNMENT: u32 = 32;

// --- FMOD_FSB_HEADER Flags ---
pub const FMOD_FSB_SOURCE_FORMAT: u32 = 0x00000001;
pub const FMOD_FSB_SOURCE_BASICHEADERS: u32 = 0x00000002;
pub const FMOD_FSB_SOURCE_ENCRYPTED: u32 = 0x00000004;
pub const FMOD_FSB_SOURCE_BIGENDIANPCM: u32 = 0x00000008;
pub const FMOD_FSB_SOURCE_NOTINTERLEAVED: u32 = 0x00000010;
pub const FMOD_FSB_SOURCE_MPEG_PADDED: u32 = 0x00000020;
pub const FMOD_FSB_SOURCE_MPEG_PADDED4: u32 = 0x00000040;

// --- FSOUND_FLAGS ---

pub const FSOUND_LOOP_OFF: u32 = 0x00000001;
pub const FSOUND_LOOP_NORMAL: u32 = 0x00000002;
pub const FSOUND_LOOP_BIDI: u32 = 0x00000004;
pub const FSOUND_8BITS: u32 = 0x00000008;
pub const FSOUND_16BITS: u32 = 0x00000010;
pub const FSOUND_MONO: u32 = 0x00000020;
pub const FSOUND_STEREO: u32 = 0x00000040;
pub const FSOUND_UNSIGNED: u32 = 0x00000080;
pub const FSOUND_SIGNED: u32 = 0x00000100;
pub const FSOUND_MPEG: u32 = 0x00000200;
pub const FSOUND_CHANNELMODE_ALLMONO: u32 = 0x00000400;
pub const FSOUND_CHANNELMODE_ALLSTEREO: u32 = 0x00000800;
pub const FSOUND_HW3D: u32 = 0x00001000;
pub const FSOUND_2D: u32 = 0x00002000;
pub const FSOUND_SYNCPOINTS_NONAMES: u32 = 0x00004000;
pub const FSOUND_DUPLICATE: u32 = 0x00008000;
pub const FSOUND_CHANNELMODE_PROTOOLS: u32 = 0x00010000;
pub const FSOUND_MPEGACCURATE: u32 = 0x00020000;
pub const FSOUND_MPEG_LAYER2: u32 = 0x00040000;
pub const FSOUND_HW2D: u32 = 0x00080000;
pub const FSOUND_3D: u32 = 0x00100000;
pub const FSOUND_32BITS: u32 = 0x00200000;
pub const FSOUND_IMAADPCM: u32 = 0x00400000;
pub const FSOUND_VAG: u32 = 0x00800000;
pub const FSOUND_XMA: u32 = 0x01000000;
pub const FSOUND_GCADPCM: u32 = 0x02000000;
pub const FSOUND_MULTICHANNEL: u32 = 0x04000000;
pub const FSOUND_OGG: u32 = 0x08000000;
pub const FSOUND_MPEG_LAYER3: u32 = 0x10000000;
pub const FSOUND_IMAADPCMSTEREO: u32 = 0x20000000;
pub const FSOUND_IGNORETAGS: u32 = 0x40000000;
pub const FSOUND_SYNCPOINTS: u32 = 0x80000000;

/// The FSB header flags with their names, in the order they are reported.
pub open spec fn header_flag_table() -> Seq<(u32, &'static str)> {
    seq![
        (FMOD_FSB_SOURCE_FORMAT, "FORMAT"),
        (FMOD_FSB_SOURCE_BASICHEADERS, "BASICHEADERS"),
        (FMOD_FSB_SOURCE_ENCRYPTED, "ENCRYPTED"),
        (FMOD_FSB_SOURCE_BIGENDIANPCM, "BIGENDIANPCM"),
        (FMOD_FSB_SOURCE_NOTINTERLEAVED, "NOTINTERLEAVED"),
        (FMOD_FSB_SOURCE_MPEG_PADDED, "MPEG_PADDED"),
        (FMOD_FSB_SOURCE_MPEG_PADDED4, "MPEG_PADDED4"),
    ]
}

fn header_flag_entries() -> (table: Vec<(u32, &'static str)>)
    ensures
        table@ == header_flag_table(),
{
    let mut table: Vec<(u32, &'static str)> = Vec::new();
    table.push((FMOD_FSB_SOURCE_FORMAT, "FORMAT"));
    table.push((FMOD_FSB_SOURCE_BASICHEADERS, "BASICHEADERS"));
    table.push((FMOD_FSB_SOURCE_ENCRYPTED, "ENCRYPTED"));
    table.push((FMOD_FSB_SOURCE_BIGENDIANPCM, "BIGENDIANPCM"));
    table.push((FMOD_FSB_SOURCE_NOTINTERLEAVED, "NOTINTERLEAVED"));
    table.push((FMOD_FSB_SOURCE_MPEG_PADDED, "MPEG_PADDED"));
    table.push((FMOD_FSB_SOURCE_MPEG_PADDED4, "MPEG_PADDED4"));
    assert(table@ =~= header_flag_table());
    table
}

/// The FSOUND sample mode flags with their names, in the order they are reported.
pub open spec fn play_mode_flag_table() -> Seq<(u32, &'static str)> {
    seq![
        (FSOUND_LOOP_OFF, "LOOP_OFF"),
        (FSOUND_LOOP_NORMAL, "LOOP_NORMAL"),
        (FSOUND_LOOP_BIDI, "LOOP_BIDI"),
        (FSOUND_8BITS, "8BITS"),
        (FSOUND_16BITS, "16BITS"),
        (FSOUND_MONO, "MONO"),
        (FSOUND_STEREO, "STEREO"),
        (FSOUND_UNSIGNED, "UNSIGNED"),
        (FSOUND_SIGNED, "SIGNED"),
        (FSOUND_MPEG, "MPEG"),
        (FSOUND_CHANNELMODE_ALLMONO, "CHANNELMODE_ALLMONO"),
        (FSOUND_CHANNELMODE_ALLSTEREO, "CHANNELMODE_ALLSTEREO"),
        (FSOUND_HW3D, "HW3D"),
        (FSOUND_2D, "2D"),
        (FSOUND_SYNCPOINTS_NONAMES, "SYNCPOINTS_NONAMES"),
        (FSOUND_DUPLICATE, "DUPLICATE"),
        (FSOUND_CHANNELMODE_PROTOOLS, "CHANNELMODE_PROTOOLS"),
        (FSOUND_MPEGACCURATE, "MPEGACCURATE"),
        (FSOUND_MPEG_LAYER2, "MPEG_LAYER2"),
        (FSOUND_HW2D, "HW2D"),
        (FSOUND_3D, "3D"),
        (FSOUND_32BITS, "32BITS"),
        (FSOUND_IMAADPCM, "IMAADPCM"),
        (FSOUND_VAG, "VAG"),
        (FSOUND_XMA, "XMA"),
        (FSOUND_GCADPCM, "GCADPCM"),
        (FSOUND_MULTICHANNEL, "MULTICHANNEL"),
        (FSOUND_OGG, "OGG"),
        (FSOUND_MPEG_LAYER3, "MPEG_LAYER3"),
        (FSOUND_IMAADPCMSTEREO, "IMAADPCMSTEREO"),
        (FSOUND_IGNORETAGS, "IGNORETAGS"),
        (FSOUND_SYNCPOINTS, "SYNCPOINTS"),
    ]
}

fn play_mode_flag_entries() -> (table: Vec<(u32, &'static str)>)
    ensures
        table@ == play_mode_flag_table(),
{
    let mut table: Vec<(u32, &'static str)> = Vec::new();
    table.push((FSOUND_LOOP_OFF, "LOOP_OFF"));
    table.push((FSOUND_LOOP_NORMAL, "LOOP_NORMAL"));
    table.push((FSOUND_LOOP_BIDI, "LOOP_BIDI"));
    table.push((FSOUND_8BITS, "8BITS"));
    table.push((FSOUND_16BITS, "16BITS"));
    table.push((FSOUND_MONO, "MONO"));
    table.push((FSOUND_STEREO, "STEREO"));
    table.push((FSOUND_UNSIGNED, "UNSIGNED"));
    table.push((FSOUND_SIGNED, "SIGNED"));
    table.push((FSOUND_MPEG, "MPEG"));
    table.push((FSOUND_CHANNELMODE_ALLMONO, "CHANNELMODE_ALLMONO"));
    table.push((FSOUND_CHANNELMODE_ALLSTEREO, "CHANNELMODE_ALLSTEREO"));
    table.push((FSOUND_HW3D, "HW3D"));
    table.push((FSOUND_2D, "2D"));
    table.push((FSOUND_SYNCPOINTS_NONAMES, "SYNCPOINTS_NONAMES"));
    table.push((FSOUND_DUPLICATE, "DUPLICATE"));
    table.push((FSOUND_CHANNELMODE_PROTOOLS, "CHANNELMODE_PROTOOLS"));
    table.push((FSOUND_MPEGACCURATE, "MPEGACCURATE"));
    table.push((FSOUND_MPEG_LAYER2, "MPEG_LAYER2"));
    table.push((FSOUND_HW2D, "HW2D"));
    table.push((FSOUND_3D, "3D"));
    table.push((FSOUND_32BITS, "32BITS"));
    table.push((FSOUND_IMAADPCM, "IMAADPCM"));
    table.push((FSOUND_VAG, "VAG"));
    table.push((FSOUND_XMA, "XMA"));
    table.push((FSOUND_GCADPCM, "GCADPCM"));
    table.push((FSOUND_MULTICHANNEL, "MULTICHANNEL"));
    table.push((FSOUND_OGG, "OGG"));
    table.push((FSOUND_MPEG_LAYER3, "MPEG_LAYER3"));
    table.push((FSOUND_IMAADPCMSTEREO, "IMAADPCMSTEREO"));
    table.push((FSOUND_IGNORETAGS, "IGNORETAGS"));
    table.push((FSOUND_SYNCPOINTS, "SYNCPOINTS"));
    assert(table@ =~= play_mode_flag_table());
    table
}

/// The names of the table entries whose bit is set in `flags`, in table order.
pub open spec fn flag_names(flags: u32, table: Seq<(u32, &'static str)>) -> Seq<&'static str>
    decreases table.len(),
{
    if table.len() == 0 {
        Seq::empty()
    } else {
        let rest = flag_names(flags, table.drop_last());
        if flags & table.last().0 != 0 {
            rest.push(table.last().1)
        } else {
            rest
        }
    }
}

fn names_of_set_flags(flags: u32, table: &Vec<(u32, &'static str)>) -> (names: Vec<&'static str>)
    ensures
        names@ == flag_names(flags, table@),
{
    let mut names: Vec<&'static str> = Vec::new();
    let mut i: usize = 0;
    while i < table.len()
        invariant
            i <= table@.len(),
            names@ == flag_names(flags, table@.take(i as int)),
        decreases table@.len() - i,
    {
        let (bit, name) = table[i];
        if flags & bit != 0 {
            names.push(name);
        }
        i = i + 1;
        assert(table@.take(i as int).drop_last() =~= table@.take(i - 1));
        assert(table@.take(i as int).last() == table@[i - 1]);
    }
    assert(table@.take(i as int) =~= table@);
    names
}

/// The names of the FSB header flags set in `flags`.
pub fn decode_header_flags(flags: u32) -> (names: Vec<&'static str>)
    ensures
        names@ == flag_names(flags, header_flag_table()),
{
    let table = header_flag_entries();
    names_of_set_flags(flags, &table)
}

/// The names of the FSOUND sample mode flags set in `flags`.
pub fn decode_play_mode(flags: u32) -> (names: Vec<&'static str>)
    ensures
        names@ == flag_names(flags, play_mode_flag_table()),
{
    let table = play_mode_flag_entries();
    names_of_set_flags(flags, &table)
}

} // verus!

verus! {

/// The names reported for a flag word are those of the table entries whose
/// bit is set in it, in table order: the table filtered by the set bits,
/// each entry taken by its name.
pub proof fn lemma_flag_names_are_set_bits(flags: u32, table: Seq<(u32, &'static str)>)
    ensures
        flag_names(flags, table) == table.filter(|e: (u32, &'static str)| flags & e.0 != 0).map_values(
            |e: (u32, &'static str)| e.1,
        ),
    decreases table.len(),
{
    reveal(Seq::filter);
    if table.len() > 0 {
        lemma_flag_names_are_set_bits(flags, table.drop_last());
        let pred = |e: (u32, &'static str)| flags & e.0 != 0;
        let name = |e: (u32, &'static str)| e.1;
        let sub = table.drop_last().filter(pred);
        assert(sub.push(table.last()).map_values(name) =~= sub.map_values(name).push(table.last().1));
    }
}

/// The header flags, bit by bit from the lowest: bit `i` carries the `i`-th
/// name, and the table holds no other entry.
pub proof fn lemma_header_flag_bits()
    ensures
        header_flag_table() == seq![
            (1u32 << 0u32, "FORMAT"),
            (1u32 << 1u32, "BASICHEADERS"),
            (1u32 << 2u32, "ENCRYPTED"),
            (1u32 << 3u32, "BIGENDIANPCM"),
            (1u32 << 4u32, "NOTINTERLEAVED"),
            (1u32 << 5u32, "MPEG_PADDED"),
            (1u32 << 6u32, "MPEG_PADDED4"),
        ],
{
    assert(1u32 << 0u32 == 0x00000001u32
        && 1u32 << 1u32 == 0x00000002u32
        && 1u32 << 2u32 == 0x00000004u32
        && 1u32 << 3u32 == 0x00000008u32
        && 1u32 << 4u32 == 0x00000010u32
        && 1u32 << 5u32 == 0x00000020u32
        && 1u32 << 6u32 == 0x00000040u32) by (bit_vector);
    assert(header_flag_table() =~= seq![
            (1u32 << 0u32, "FORMAT"),
            (1u32 << 1u32, "BASICHEADERS"),
            (1u32 << 2u32, "ENCRYPTED"),
            (1u32 << 3u32, "BIGENDIANPCM"),
            (1u32 << 4u32, "NOTINTERLEAVED"),
            (1u32 << 5u32, "MPEG_PADDED"),
            (1u32 << 6u32, "MPEG_PADDED4"),
        ]);
}

/// The sample mode flags, bit by bit from the lowest: bit `i` carries the
/// `i`-th name, for all 32 bits.
pub proof fn lemma_play_mode_flag_bits()
    ensures
        play_mode_flag_table() == seq![
            (1u32 << 0u32, "LOOP_OFF"),
            (1u32 << 1u32, "LOOP_NORMAL"),
            (1u32 << 2u32, "LOOP_BIDI"),
            (1u32 << 3u32, "8BITS"),
            (1u32 << 4u32, "16BITS"),
            (1u32 << 5u32, "MONO"),
            (1u32 << 6u32, "STEREO"),
            (1u32 << 7u32, "UNSIGNED"),
            (1u32 << 8u32, "SIGNED"),
            (1u32 << 9u32, "MPEG"),
            (1u32 << 10u32, "CHANNELMODE_ALLMONO"),
            (1u32 << 11u32, "CHANNELMODE_ALLSTEREO"),
            (1u32 << 12u32, "HW3D"),
            (1u32 << 13u32, "2D"),
            (1u32 << 14u32, "SYNCPOINTS_NONAMES"),
            (1u32 << 15u32, "DUPLICATE"),
            (1u32 << 16u32, "CHANNELMODE_PROTOOLS"),
            (1u32 << 17u32, "MPEGACCURATE"),
            (1u32 << 18u32, "MPEG_LAYER2"),
            (1u32 << 19u32, "HW2D"),
            (1u32 << 20u32, "3D"),
            (1u32 << 21u32, "32BITS"),
            (1u32 << 22u32, "IMAADPCM"),
            (1u32 << 23u32, "VAG"),
            (1u32 << 24u32, "XMA"),
            (1u32 << 25u32, "GCADPCM"),
            (1u32 << 26u32, "MULTICHANNEL"),
            (1u32 << 27u32, "OGG"),
            (1u32 << 28u32, "MPEG_LAYER3"),
            (1u32 << 29u32, "IMAADPCMSTEREO"),
            (1u32 << 30u32, "IGNORETAGS"),
            (1u32 << 31u32, "SYNCPOINTS"),
        ],
{
    assert(1u32 << 0u32 == 0x00000001u32
        && 1u32 << 1u32 == 0x00000002u32
        && 1u32 << 2u32 == 0x00000004u32
        && 1u32 << 3u32 == 0x00000008u32
        && 1u32 << 4u32 == 0x00000010u32
        && 1u32 << 5u32 == 0x00000020u32
        && 1u32 << 6u32 == 0x00000040u32
        && 1u32 << 7u32 == 0x00000080u32
        && 1u32 << 8u32 == 0x00000100u32
        && 1u32 << 9u32 == 0x00000200u32
        && 1u32 << 10u32 == 0x00000400u32
        && 1u32 << 11u32 == 0x00000800u32
        && 1u32 << 12u32 == 0x00001000u32
        && 1u32 << 13u32 == 0x00002000u32
        && 1u32 << 14u32 == 0x00004000u32
        && 1u32 << 15u32 == 0x00008000u32
        && 1u32 << 16u32 == 0x00010000u32
        && 1u32 << 17u32 == 0x00020000u32
        && 1u32 << 18u32 == 0x00040000u32
        && 1u32 << 19u32 == 0x00080000u32
        && 1u32 << 20u32 == 0x00100000u32
        && 1u32 << 21u32 == 0x00200000u32
        && 1u32 << 22u32 == 0x00400000u32
        && 1u32 << 23u32 == 0x00800000u32
        && 1u32 << 24u32 == 0x01000000u32
        && 1u32 << 25u32 == 0x02000000u32
        && 1u32 << 26u32 == 0x04000000u32
        && 1u32 << 27u32 == 0x08000000u32
        && 1u32 << 28u32 == 0x10000000u32
        && 1u32 << 29u32 == 0x20000000u32
        && 1u32 << 30u32 == 0x40000000u32
        && 1u32 << 31u32 == 0x80000000u32) by (bit_vector);
    assert(play_mode_flag_table() =~= seq![
            (1u32 << 0u32, "LOOP_OFF"),
            (1u32 << 1u32, "LOOP_NORMAL"),
            (1u32 << 2u32, "LOOP_BIDI"),
            (1u32 << 3u32, "8BITS"),
            (1u32 << 4u32, "16BITS"),
            (1u32 << 5u32, "MONO"),
            (1u32 << 6u32, "STEREO"),
            (1u32 << 7u32, "UNSIGNED"),
            (1u32 << 8u32, "SIGNED"),
            (1u32 << 9u32, "MPEG"),
            (1u32 << 10u32, "CHANNELMODE_ALLMONO"),
            (1u32 << 11u32, "CHANNELMODE_ALLSTEREO"),
            (1u32 << 12u32, "HW3D"),
            (1u32 << 13u32, "2D"),
            (1u32 << 14u32, "SYNCPOINTS_NONAMES"),
            (1u32 << 15u32, "DUPLICATE"),
            (1u32 << 16u32, "CHANNELMODE_PROTOOLS"),
            (1u32 << 17u32, "MPEGACCURATE"),
            (1u32 << 18u32, "MPEG_LAYER2"),
            (1u32 << 19u32, "HW2D"),
            (1u32 << 20u32, "3D"),
            (1u32 << 21u32, "32BITS"),
            (1u32 << 22u32, "IMAADPCM"),
            (1u32 << 23u32, "VAG"),
            (1u32 << 24u32, "XMA"),
            (1u32 << 25u32, "GCADPCM"),
            (1u32 << 26u32, "MULTICHANNEL"),
            (1u32 << 27u32, "OGG"),
            (1u32 << 28u32, "MPEG_LAYER3"),
            (1u32 << 29u32, "IMAADPCMSTEREO"),
            (1u32 << 30u32, "IGNORETAGS"),
            (1u32 << 31u32, "SYNCPOINTS"),
        ]);
}

} // verus!
