//! ADTS: the header every AAC frame out of HLS or mpegts carries on itself,
//! and the AudioSpecificConfig it is built from when the stream around it
//! has none of its own.
//!
//! This is not NUT, and it is here because NUT is where the loss shows up.
//! `-c copy` off an ADTS source leaves the stream header's extradata empty,
//! because ADTS repeats the same handful of fields on every frame instead of
//! stating them once in the container. [`Demuxer`](crate::Demuxer) reads that
//! copy back out, the way ffmpeg's own `aac_adtstoasc` bitstream filter does,
//! and removes it from each frame's bytes while the header is still attached
//! to the frame that carries it rather than side data a NUT muxer drops.
//!
//! It is public because [`PushDemuxer`](crate::PushDemuxer) does none of
//! that: a push consumer is handed the packet exactly as it arrived, and if
//! that packet is ADTS-framed aac, this is what takes the header off it.
//! Nothing else about AAC is implemented.

use vstd::prelude::*;

use crate::bytes::{be_bytes, lemma_be_len};
use crate::error::{Error, ErrorV, Problem};

verus! {

/// One ADTS header, parsed far enough to strip it from a packet and to
/// derive an AudioSpecificConfig.
#[derive(Debug, Clone, Copy, PartialEq, Eq, Structural)]
pub struct Header {
    /// Header length on the wire: 7 bytes, or 9 when a CRC follows it
    /// (`protection_absent` clear).
    pub header_len: usize,
    /// This ADTS frame's length, header and payload together, as the header
    /// states it.
    pub frame_length: usize,
    /// `number_of_raw_data_blocks_in_frame`: 0 for the ordinary case of one
    /// AAC frame per ADTS header.
    pub raw_data_blocks: u8,
    /// The MPEG-4 audio object type, one more than the profile ADTS codes.
    pub audio_object_type: u8,
    pub sampling_frequency_index: u8,
    pub channel_configuration: u8,
}

/// Whether some bytes open with the ADTS syncword, twelve set bits.
pub open spec fn synced(data: Seq<u8>) -> bool {
    data[0] == 255 && data[1] / 16 == 15
}

/// How long the header at the front of some bytes says it is.
pub open spec fn header_len(data: Seq<u8>) -> usize {
    if data[1] % 2 == 1 {
        7
    } else {
        9
    }
}

/// The ADTS header at the front of some bytes, where there is one.
pub open spec fn header_at(data: Seq<u8>) -> Option<Header> {
    if data.len() < 7 || !synced(data) || data.len() < header_len(data) {
        None
    } else {
        Some(
            Header {
                header_len: header_len(data),
                frame_length: (data[3] % 4 * 2048 + data[4] * 8 + data[5] / 32) as usize,
                raw_data_blocks: data[6] % 4,
                audio_object_type: (data[2] / 64 + 1) as u8,
                sampling_frequency_index: data[2] / 4 % 16,
                channel_configuration: (data[2] % 2 * 4 + data[3] / 64) as u8,
            },
        )
    }
}

impl Header {
    /// The AudioSpecificConfig a header codes.
    pub open spec fn config(self) -> Seq<u8> {
        let a = self.audio_object_type;
        let f = self.sampling_frequency_index;
        let c = self.channel_configuration;
        seq![(a << 3) | (f >> 1), ((f & 1) << 7) | (c << 3)]
    }

    /// Reads the ADTS header at the front of `data`, or None when it does
    /// not start with the syncword.
    pub fn parse(data: &[u8]) -> (header: Option<Header>)
        ensures
            header == header_at(data@),
    {
        if data.len() < 7 {
            return None;
        }
        if data[0] != 255 || data[1] / 16 != 15 {
            return None;
        }
        let header_len: usize = if data[1] % 2 == 1 {
            7
        } else {
            9
        };
        if data.len() < header_len {
            return None;
        }
        Some(
            Header {
                header_len,
                frame_length: (data[3] % 4) as usize * 2048 + data[4] as usize * 8 + (data[5]
                    / 32) as usize,
                raw_data_blocks: data[6] % 4,
                audio_object_type: data[2] / 64 + 1,
                sampling_frequency_index: data[2] / 4 % 16,
                channel_configuration: data[2] % 2 * 4 + data[3] / 64,
            },
        )
    }

    /// The 2-byte AudioSpecificConfig this header codes: `audioObjectType`
    /// (5 bits), `samplingFrequencyIndex` (4 bits), `channelConfiguration`
    /// (4 bits, zero-extended from ADTS's 3), and the 3 GASpecificConfig
    /// bits AAC-LC leaves clear.
    pub fn audio_specific_config(&self) -> (config: [u8; 2])
        ensures
            config@ == self.config(),
    {
        let a = self.audio_object_type;
        let f = self.sampling_frequency_index;
        let c = self.channel_configuration;
        let config = [(a << 3) | (f >> 1), ((f & 1) << 7) | (c << 3)];
        assert(config@ =~= self.config());
        config
    }
}

/// What stripping the ADTS header off a packet comes to: the header, or why
/// it is refused.
pub open spec fn stripped(data: Seq<u8>) -> Result<Header, ErrorV> {
    match header_at(data) {
        None => Err(ErrorV::of(Problem::NotAdts)),
        Some(header) => if header.raw_data_blocks != 0 {
            Err(ErrorV::of(Problem::AdtsPacked { frames: (header.raw_data_blocks + 1) as u8 }))
        } else if header.frame_length != data.len() {
            Err(
                ErrorV::of(
                    Problem::AdtsLength {
                        len: data.len() as u64,
                        frame_length: header.frame_length as u64,
                    },
                ),
            )
        } else {
            Ok(header)
        },
    }
}

/// Strips the ADTS header off the front of `data` in place, and returns it
/// parsed - the caller priming a stream also wants the AudioSpecificConfig
/// it carries.
///
/// Refuses a packet whose header does not account for the whole packet
/// rather than guessing at a split: `raw_data_blocks` nonzero packs more
/// than one AAC frame behind a single header, and a `frame_length` short of
/// `data.len()` means several ADTS-framed frames are concatenated in the one
/// packet NUT coded a single PTS for. Splitting either would mean
/// fabricating timestamps the wire never coded, so both are refused by name
/// instead.
pub fn strip(data: &mut Vec<u8>) -> (header: Result<Header, Error>)
    ensures
        match stripped(old(data)@) {
            Ok(want) => header matches Ok(got) && got == want && final(data)@ == old(data)@.skip(
                want.header_len as int,
            ),
            Err(error) => header matches Err(got) && got@ == error && final(data)@ == old(data)@,
        },
{
    let header = match Header::parse(data.as_slice()) {
        Some(header) => header,
        None => {
            return Err(Error::of(Problem::NotAdts));
        },
    };
    if header.raw_data_blocks != 0 {
        return Err(Error::of(Problem::AdtsPacked { frames: header.raw_data_blocks + 1 }));
    }
    if header.frame_length != data.len() {
        return Err(
            Error::of(
                Problem::AdtsLength {
                    len: data.len() as u64,
                    frame_length: header.frame_length as u64,
                },
            ),
        );
    }
    let payload = data.split_off(header.header_len);
    *data = payload;
    assert(data@ =~= old(data)@.skip(header.header_len as int));
    Ok(header)
}

/// A stripped packet has lost its header and nothing else: what is left is as
/// long as the header said the frame is, less the header itself.
pub proof fn lemma_strip_leaves_the_payload(data: Seq<u8>)
    requires
        stripped(data) is Ok,
    ensures
        ({
            let header = stripped(data)->Ok_0;
            &&& header.header_len == 7 || header.header_len == 9
            &&& data.skip(header.header_len as int).len() == header.frame_length - header.header_len
            &&& data == data.take(header.header_len as int) + data.skip(header.header_len as int)
        }),
{
    let header = stripped(data)->Ok_0;
    assert(data =~= data.take(header.header_len as int) + data.skip(header.header_len as int));
}

/// The AudioSpecificConfig of a header that was read holds its three fields,
/// each whole, and nothing else.
pub proof fn lemma_config_holds_the_header(data: Seq<u8>)
    requires
        header_at(data) is Some,
    ensures
        ({
            let header = header_at(data)->Some_0;
            let config = header.config();
            &&& config.len() == 2
            &&& config[0] / 8 == header.audio_object_type
            &&& config[0] % 8 * 2 + config[1] / 128 == header.sampling_frequency_index
            &&& config[1] / 8 % 16 == header.channel_configuration
            &&& config[1] % 8 == 0
        }),
{
    let header = header_at(data)->Some_0;
    let a = header.audio_object_type;
    let f = header.sampling_frequency_index;
    let c = header.channel_configuration;
    let first = (a << 3) | (f >> 1);
    let second = ((f & 1) << 7) | (c << 3);
    assert(first / 8 == a && first % 8 == f / 2) by (bit_vector)
        requires
            first == (a << 3) | (f >> 1),
            a <= 4,
            f <= 15,
    ;
    assert(second / 128 == f % 2 && second / 8 % 16 == c && second % 8 == 0) by (bit_vector)
        requires
            second == ((f & 1) << 7) | (c << 3),
            c <= 7,
            f <= 15,
    ;
}

// Headers as an encoder writes them.

/// The fields of an ADTS header, each as wide as it is on the wire. Those
/// this crate does not read are here too: an encoder fills them in as it
/// likes.
pub struct Fields {
    /// The MPEG version, one bit.
    pub version: nat,
    /// The layer, two bits.
    pub layer: nat,
    /// Whether a CRC follows the header.
    pub crc: bool,
    /// The profile, two bits.
    pub profile: nat,
    /// The sampling frequency index, four bits.
    pub rate: nat,
    /// The private bit.
    pub private: nat,
    /// The channel configuration, three bits.
    pub channels: nat,
    /// The original, home and two copyright bits.
    pub rights: nat,
    /// The length of the frame, thirteen bits.
    pub length: nat,
    /// How full the buffer is, eleven bits.
    pub fullness: nat,
    /// How many raw data blocks there are past the first, two bits.
    pub blocks: nat,
}

/// Every field fits the bits it has.
pub open spec fn fields_fit(f: Fields) -> bool {
    &&& f.version < 2
    &&& f.layer < 4
    &&& f.profile < 4
    &&& f.rate < 16
    &&& f.private < 2
    &&& f.channels < 8
    &&& f.rights < 16
    &&& f.length < 8192
    &&& f.fullness < 2048
    &&& f.blocks < 4
}

/// The header as one number of 56 bits: the twelve bits of the syncword, then
/// the fields, each below the one ahead of it.
pub open spec fn header_number(f: Fields) -> nat {
    let absent: nat = if f.crc {
        0
    } else {
        1
    };
    let n = 4095 * 2 + f.version;
    let n = n * 4 + f.layer;
    let n = n * 2 + absent;
    let n = n * 4 + f.profile;
    let n = n * 16 + f.rate;
    let n = n * 2 + f.private;
    let n = n * 8 + f.channels;
    let n = n * 16 + f.rights;
    let n = n * 8192 + f.length;
    let n = n * 2048 + f.fullness;
    n * 4 + f.blocks
}

/// The header as an encoder writes it: its number, big-endian, and two bytes
/// of CRC where it carries one.
pub open spec fn header_bytes(f: Fields, crc: u16) -> Seq<u8> {
    if f.crc {
        be_bytes(header_number(f), 7) + be_bytes(crc as nat, 2)
    } else {
        be_bytes(header_number(f), 7)
    }
}

/// A big-endian number ends with its lowest byte.
proof fn lemma_last_byte(high: nat, low: nat, width: nat)
    requires
        width > 0,
        low < 256,
    ensures
        be_bytes(high * 256 + low, width) == be_bytes(high, (width - 1) as nat).push(low as u8),
{
    let n = high * 256 + low;
    assert(n / 256 == high && n % 256 == low);
}

/// The seven bytes of a header.
proof fn lemma_header_number(f: Fields)
    requires
        fields_fit(f),
    ensures
        be_bytes(header_number(f), 7) == seq![
            255u8,
            (240 + f.version * 8 + f.layer * 2 + (if f.crc {
                0nat
            } else {
                1nat
            })) as u8,
            (f.profile * 64 + f.rate * 4 + f.private * 2 + f.channels / 4) as u8,
            (f.channels % 4 * 64 + f.rights * 4 + f.length / 2048) as u8,
            (f.length / 8 % 256) as u8,
            (f.length % 8 * 32 + f.fullness / 64) as u8,
            (f.fullness % 64 * 4 + f.blocks) as u8,
        ],
{
    let absent: nat = if f.crc {
        0
    } else {
        1
    };
    let b1 = 240 + f.version * 8 + f.layer * 2 + absent;
    let b2 = f.profile * 64 + f.rate * 4 + f.private * 2 + f.channels / 4;
    let b3 = f.channels % 4 * 64 + f.rights * 4 + f.length / 2048;
    let b4 = f.length / 8 % 256;
    let b5 = f.length % 8 * 32 + f.fullness / 64;
    let b6 = f.fullness % 64 * 4 + f.blocks;
    let n1 = 255 * 256 + b1;
    let n2 = n1 * 256 + b2;
    let n3 = n2 * 256 + b3;
    let n4 = n3 * 256 + b4;
    let n5 = n4 * 256 + b5;
    let n6 = n5 * 256 + b6;
    assert(f.length == f.length / 2048 * 2048 + f.length / 8 % 256 * 8 + f.length % 8);
    assert(header_number(f) == n6);
    lemma_last_byte(n5, b6, 7);
    lemma_last_byte(n4, b5, 6);
    lemma_last_byte(n3, b4, 5);
    lemma_last_byte(n2, b3, 4);
    lemma_last_byte(n1, b2, 3);
    lemma_last_byte(255, b1, 2);
    lemma_last_byte(0, 255, 1);
    assert(be_bytes(0, 0) =~= Seq::empty());
    assert(be_bytes(header_number(f), 7) =~= seq![
        255u8,
        b1 as u8,
        b2 as u8,
        b3 as u8,
        b4 as u8,
        b5 as u8,
        b6 as u8,
    ]);
}

/// What the bits of each byte of a header come to.
proof fn lemma_header_bits(f: Fields)
    requires
        fields_fit(f),
    ensures
        ({
            let b1 = 240 + f.version * 8 + f.layer * 2;
            &&& b1 / 16 == 15 && (b1 + 1) / 16 == 15
            &&& b1 % 2 == 0 && (b1 + 1) % 2 == 1
        }),
        ({
            let b2 = f.profile * 64 + f.rate * 4 + f.private * 2 + f.channels / 4;
            &&& b2 / 64 == f.profile && b2 / 4 % 16 == f.rate && b2 % 2 == f.channels / 4
            &&& b2 < 256
        }),
        ({
            let b3 = f.channels % 4 * 64 + f.rights * 4 + f.length / 2048;
            &&& b3 / 64 == f.channels % 4 && b3 % 4 == f.length / 2048
            &&& b3 < 256
        }),
        ({
            let b5 = f.length % 8 * 32 + f.fullness / 64;
            &&& b5 / 32 == f.length % 8
            &&& b5 < 256
        }),
        ({
            let b6 = f.fullness % 64 * 4 + f.blocks;
            &&& b6 % 4 == f.blocks
            &&& b6 < 256
        }),
{
}

/// A header an encoder wrote reads back as the fields it was written from,
/// whatever follows it and whatever it puts in the fields this crate does not
/// read.
pub proof fn lemma_written_header_reads(f: Fields, crc: u16, rest: Seq<u8>)
    requires
        fields_fit(f),
    ensures
        header_at(header_bytes(f, crc) + rest) == Some(
            Header {
                header_len: header_bytes(f, crc).len() as usize,
                frame_length: f.length as usize,
                raw_data_blocks: f.blocks as u8,
                audio_object_type: (f.profile + 1) as u8,
                sampling_frequency_index: f.rate as u8,
                channel_configuration: f.channels as u8,
            },
        ),
        header_bytes(f, crc).len() == if f.crc {
            9nat
        } else {
            7nat
        },
{
    broadcast use lemma_be_len;

    lemma_header_number(f);
    let head = be_bytes(header_number(f), 7);
    let data = header_bytes(f, crc) + rest;
    assert forall|i: int| 0 <= i < 7 implies #[trigger] data[i] == head[i] by {
    }
    assert(data[0] == head[0] && data[1] == head[1] && data[2] == head[2] && data[3] == head[3]
        && data[4] == head[4] && data[5] == head[5] && data[6] == head[6]);
    assert(f.length == f.length / 2048 * 2048 + f.length / 8 % 256 * 8 + f.length % 8);
    lemma_header_bits(f);
    assert(data[3] % 4 * 2048 + data[4] * 8 + data[5] / 32 == f.length);
    assert(data[2] % 2 * 4 + data[3] / 64 == f.channels);
}

/// Stripping a packet an encoder wrote leaves the payload where its header
/// stands for all of it, and refuses it where it stands for several blocks or
/// for another length.
pub proof fn lemma_written_packet_strips(f: Fields, crc: u16, payload: Seq<u8>)
    requires
        fields_fit(f),
    ensures
        ({
            let data = header_bytes(f, crc) + payload;
            if f.blocks > 0 {
                stripped(data) == Err::<Header, ErrorV>(
                    ErrorV::of(Problem::AdtsPacked { frames: (f.blocks + 1) as u8 }),
                )
            } else if f.length != data.len() {
                stripped(data) == Err::<Header, ErrorV>(
                    ErrorV::of(
                        Problem::AdtsLength { len: data.len() as u64, frame_length: f.length as u64 },
                    ),
                )
            } else {
                stripped(data) matches Ok(header) && data.skip(header.header_len as int) == payload
            }
        }),
{
    lemma_written_header_reads(f, crc, payload);
    let data = header_bytes(f, crc) + payload;
    assert(data.skip(header_bytes(f, crc).len() as int) =~= payload);
}

/// The AudioSpecificConfig of a header an encoder wrote, as one number of
/// sixteen bits: the object type, the sampling frequency index and the channel
/// configuration, each below the one ahead of it, and three clear bits.
pub proof fn lemma_written_config(f: Fields, crc: u16, rest: Seq<u8>)
    requires
        fields_fit(f),
    ensures
        header_at(header_bytes(f, crc) + rest) matches Some(header) && header.config() == be_bytes(
            (((f.profile + 1) * 16 + f.rate) * 16 + f.channels) * 8,
            2,
        ),
{
    let data = header_bytes(f, crc) + rest;
    lemma_written_header_reads(f, crc, rest);
    lemma_config_holds_the_header(data);
    let config = header_at(data)->Some_0.config();
    let high = (f.profile + 1) * 8 + f.rate / 2;
    let low = f.rate % 2 * 128 + f.channels * 8;
    assert(high * 256 + low == (((f.profile + 1) * 16 + f.rate) * 16 + f.channels) * 8);
    lemma_last_byte(high, low, 2);
    lemma_last_byte(0, high, 1);
    assert(config[0] == high && config[1] == low);
    assert(be_bytes(0, 0) =~= Seq::empty());
    assert(config =~= be_bytes(high * 256 + low, 2));
}

/// There is a header where there are the bytes of one and they open with the
/// syncword, and nowhere else: seven of them, or nine where the last bit of
/// the second says a CRC follows.
pub proof fn lemma_header_there(data: Seq<u8>)
    ensures
        header_at(data) is Some <==> data.len() >= 7 && data[0] == 255 && data[1] >= 240 && (data[1]
            % 2 == 0 ==> data.len() >= 9),
{
}

} // verus!
