//! The fixed layouts of a record's header and of the pieces around it.
//!
//! A layout is a list of fields in the order in which they lie on the wire.
//! Each type here states its bytes as the bytes of its fields one after
//! another, reads itself from such bytes and writes itself as such bytes.

use vstd::prelude::*;
use crate::endian::{
    le16, le32, lemma_append, lemma_join, lemma_joined_equal, lemma_le16_equal, lemma_le16_value,
    lemma_le32_equal, lemma_le32_value, read_array, read_u16, read_u32, write_bytes, write_u16,
    write_u32,
};
use crate::error::CodecError;

verus! {

/// Size of a record header on the wire.
pub const HEADER_SIZE: usize = 460;

/// Size of the sub-header that follows the header in a slot.
pub const SAV_HEADER_SIZE: usize = 12;

/// Size of one instrument sub-record on the wire.
pub const INSTRUMENT_SIZE: usize = 16;

/// Number of instrument sub-records in a header.
pub const INSTRUMENTS: usize = 8;

/// Size of a slot, and of a standalone file.
pub const SLOT_SIZE: usize = 0x8000;

/// Length of an unpacked payload.
pub const PAYLOAD_SIZE: u32 = 0x7D60;

/// The value of `slot_used` that marks a slot as holding a record.
pub const SLOT_OCCUPIED: u32 = 0x80000001;

/// The constant that opens every sub-header.
pub const SAV_MARKER: u32 = 0x10;

/// Where the slot-used marker lies in a header.
pub const SLOT_USED_OFFSET: usize = 16;

/// Where the compressed length lies in a header.
pub const COMPRESSED_LENGTH_OFFSET: usize = 20;

/// Where the authentication code lies in a header.
pub const HMAC_OFFSET: usize = 24;

/// Where the three label fields lie in a header.
pub const LABEL_OFFSET: usize = 72;

/// Size of one label field.
pub const LABEL_SIZE: usize = 32;

/// Where the contributor field lies in a header.
pub const CONTRIBUTOR_OFFSET: usize = 332;

/// Size of the contributor field.
pub const CONTRIBUTOR_SIZE: usize = 128;

/// The settings of one instrument: sixteen bytes, of which none is looked
/// at here. They are carried from one form of a record to the other, each
/// field as the unsigned value of its bytes.
#[derive(Debug, Clone, Copy, PartialEq, Eq)]
pub struct InstrumentHeader {
    pub volume: u16,
    pub voice: u16,
    pub stereo: u8,
    pub master_pro: u8,
    pub clone_id: u8,
    pub amateur_beginner: u8,
    pub zeros: [u32; 2],
}

impl InstrumentHeader {
    /// The 16 bytes of the sub-record, field after field, without padding.
    pub open spec fn bytes(self) -> Seq<u8> {
        le16(self.volume) + le16(self.voice) + seq![
            self.stereo,
            self.master_pro,
            self.clone_id,
            self.amateur_beginner,
        ] + le32(self.zeros[0]) + le32(self.zeros[1])
    }

    /// A sub-record has 16 bytes.
    pub proof fn lemma_layout(self)
        ensures
            self.bytes().len() == INSTRUMENT_SIZE,
    {
        lemma_le16_value(self.volume);
        lemma_le16_value(self.voice);
        lemma_le32_value(self.zeros[0]);
        lemma_le32_value(self.zeros[1]);
    }

    /// Two sub-records with the same bytes are one sub-record.
    pub proof fn lemma_bytes_equal(self, other: InstrumentHeader)
        requires
            self.bytes() == other.bytes(),
        ensures
            self == other,
    {
        lemma_le16_value(self.volume);
        lemma_le16_value(self.voice);
        lemma_le32_value(self.zeros[0]);
        lemma_le32_value(self.zeros[1]);
        lemma_le16_value(other.volume);
        lemma_le16_value(other.voice);
        lemma_le32_value(other.zeros[0]);
        lemma_le32_value(other.zeros[1]);
        let a1 = le16(self.volume);
        let a2 = a1 + le16(self.voice);
        let a3 = a2 + seq![self.stereo, self.master_pro, self.clone_id, self.amateur_beginner];
        let a4 = a3 + le32(self.zeros[0]);
        let b1 = le16(other.volume);
        let b2 = b1 + le16(other.voice);
        let b3 = b2 + seq![other.stereo, other.master_pro, other.clone_id, other.amateur_beginner];
        let b4 = b3 + le32(other.zeros[0]);
        lemma_joined_equal(a4, le32(self.zeros[1]), b4, le32(other.zeros[1]));
        lemma_joined_equal(a3, le32(self.zeros[0]), b3, le32(other.zeros[0]));
        lemma_joined_equal(
            a2,
            seq![self.stereo, self.master_pro, self.clone_id, self.amateur_beginner],
            b2,
            seq![other.stereo, other.master_pro, other.clone_id, other.amateur_beginner],
        );
        lemma_joined_equal(a1, le16(self.voice), b1, le16(other.voice));
        lemma_le16_equal(self.volume, other.volume);
        lemma_le16_equal(self.voice, other.voice);
        lemma_le32_equal(self.zeros[0], other.zeros[0]);
        lemma_le32_equal(self.zeros[1], other.zeros[1]);
        let fa = seq![self.stereo, self.master_pro, self.clone_id, self.amateur_beginner];
        let fb = seq![other.stereo, other.master_pro, other.clone_id, other.amateur_beginner];
        assert(fa[0] == fb[0] && fa[1] == fb[1] && fa[2] == fb[2] && fa[3] == fb[3]);
        assert(self.zeros =~= other.zeros);
    }

    /// Reads the sub-record at `at`.
    pub fn read(bytes: &[u8], at: usize) -> (instrument: InstrumentHeader)
        requires
            at + INSTRUMENT_SIZE <= bytes.len(),
        ensures
            instrument.bytes() == bytes@.subrange(at as int, at + INSTRUMENT_SIZE),
    {
        let instrument = InstrumentHeader {
            volume: read_u16(bytes, at),
            voice: read_u16(bytes, at + 2),
            stereo: bytes[at + 4],
            master_pro: bytes[at + 5],
            clone_id: bytes[at + 6],
            amateur_beginner: bytes[at + 7],
            zeros: [read_u32(bytes, at + 8), read_u32(bytes, at + 12)],
        };
        proof {
            let b = bytes@;
            let flags = seq![
                instrument.stereo,
                instrument.master_pro,
                instrument.clone_id,
                instrument.amateur_beginner,
            ];
            assert(flags =~= b.subrange(at + 4, at + 8));
            lemma_join(b, at as int, at + 2, at + 4);
            lemma_join(b, at as int, at + 4, at + 8);
            lemma_join(b, at as int, at + 8, at + 12);
            lemma_join(b, at as int, at + 12, at + 16);
        }
        instrument
    }

    /// Appends the sub-record to `buf`.
    pub fn write(&self, buf: &mut Vec<u8>)
        ensures
            final(buf)@ == old(buf)@ + self.bytes(),
    {
        let ghost start = buf@;
        write_u16(buf, self.volume);
        write_u16(buf, self.voice);
        let flags = [self.stereo, self.master_pro, self.clone_id, self.amateur_beginner];
        write_bytes(buf, flags.as_slice());
        write_u32(buf, self.zeros[0]);
        write_u32(buf, self.zeros[1]);
        proof {
            let f1 = le16(self.volume);
            let f2 = f1 + le16(self.voice);
            let f3 = f2 + seq![
                self.stereo,
                self.master_pro,
                self.clone_id,
                self.amateur_beginner,
            ];
            let f4 = f3 + le32(self.zeros[0]);
            assert(flags@ =~= seq![
                self.stereo,
                self.master_pro,
                self.clone_id,
                self.amateur_beginner,
            ]);
            lemma_append(start, f1, le16(self.voice));
            lemma_append(start, f2, flags@);
            lemma_append(start, f3, le32(self.zeros[0]));
            lemma_append(start, f4, le32(self.zeros[1]));
        }
    }
}

/// The header of a record, the same in a slot and in a standalone file.
///
/// Only the slot-used marker, the label and the contributor are read here,
/// and only the checksums, the compressed length and the authentication
/// code are ever written; the rest is carried along as it is, each field as
/// the unsigned value of its bytes.
#[derive(Debug, Clone, Copy, PartialEq, Eq)]
pub struct BdxHeader {
    pub checksums: [u16; 2],
    pub magic: [u8; 8],
    pub identifier: [u8; 4],
    pub slot_used: u32,
    pub compressed_length: u32,
    pub hmac_sha1: [u8; 20],
    pub karaoke_stuff: [u8; 20],
    pub redundant: [u8; 8],
    pub label: [[u8; 32]; 3],
    pub zero_a: u16,
    pub meter: u8,
    pub lines_plus_6: u8,
    pub zero_b: u8,
    pub line_plus: u8,
    pub melody: u8,
    pub karaoke: u8,
    pub day: u8,
    pub month: u8,
    pub year: u16,
    pub unofficial: u8,
    pub unknown: u16,
    pub volume: u8,
    pub record_id: u32,
    pub date: [u8; 8],
    pub zero_c: u32,
    pub instrument_headers: [InstrumentHeader; 8],
    pub short_unknown: u16,
    pub name_length: u16,
    pub contributor: [u8; 128],
}

impl BdxHeader {
    /// Bytes 0 to 72: the integrity stamps and what identifies the record.
    pub open spec fn stamp_bytes(self) -> Seq<u8> {
        le16(self.checksums[0]) + le16(self.checksums[1]) + self.magic@ + self.identifier@ + le32(
            self.slot_used,
        ) + le32(self.compressed_length) + self.hmac_sha1@ + self.karaoke_stuff@ + self.redundant@
    }

    /// Bytes 72 to 168: the three label fields.
    pub open spec fn label_bytes(self) -> Seq<u8> {
        self.label[0]@ + self.label[1]@ + self.label[2]@
    }

    /// Bytes 168 to 200: the settings of the song.
    pub open spec fn setting_bytes(self) -> Seq<u8> {
        le16(self.zero_a) + seq![
            self.meter,
            self.lines_plus_6,
            self.zero_b,
            self.line_plus,
            self.melody,
            self.karaoke,
            self.day,
            self.month,
        ] + le16(self.year) + seq![self.unofficial] + le16(self.unknown) + seq![self.volume] + le32(
            self.record_id,
        ) + self.date@ + le32(self.zero_c)
    }

    /// Bytes 200 to 328: the eight instrument sub-records.
    pub open spec fn instrument_bytes(self) -> Seq<u8> {
        self.instrument_headers[0].bytes() + self.instrument_headers[1].bytes()
            + self.instrument_headers[2].bytes() + self.instrument_headers[3].bytes()
            + self.instrument_headers[4].bytes() + self.instrument_headers[5].bytes()
            + self.instrument_headers[6].bytes() + self.instrument_headers[7].bytes()
    }

    /// Bytes 328 to 460: two short fields and the contributor.
    pub open spec fn credit_bytes(self) -> Seq<u8> {
        le16(self.short_unknown) + le16(self.name_length) + self.contributor@
    }

    /// The 460 bytes of the header, field after field, without padding.
    pub open spec fn bytes(self) -> Seq<u8> {
        self.stamp_bytes() + self.label_bytes() + self.setting_bytes() + self.instrument_bytes()
            + self.credit_bytes()
    }

    /// Reads a header from the start of `bytes`. Fails when `bytes` is
    /// shorter than a header.
    pub fn parse(bytes: &[u8]) -> (result: Result<BdxHeader, CodecError>)
        ensures
            match result {
                Ok(header) => bytes@.len() >= HEADER_SIZE && header.bytes() == bytes@.subrange(
                    0,
                    HEADER_SIZE as int,
                ),
                Err(e) => e == CodecError::MalformedInput && bytes@.len() < HEADER_SIZE,
            },
    {
        if bytes.len() < HEADER_SIZE {
            return Err(CodecError::MalformedInput);
        }
        let header = BdxHeader {
            checksums: [read_u16(bytes, 0), read_u16(bytes, 2)],
            magic: read_array::<8>(bytes, 4),
            identifier: read_array::<4>(bytes, 12),
            slot_used: read_u32(bytes, 16),
            compressed_length: read_u32(bytes, 20),
            hmac_sha1: read_array::<20>(bytes, 24),
            karaoke_stuff: read_array::<20>(bytes, 44),
            redundant: read_array::<8>(bytes, 64),
            label: [
                read_array::<32>(bytes, 72),
                read_array::<32>(bytes, 104),
                read_array::<32>(bytes, 136),
            ],
            zero_a: read_u16(bytes, 168),
            meter: bytes[170],
            lines_plus_6: bytes[171],
            zero_b: bytes[172],
            line_plus: bytes[173],
            melody: bytes[174],
            karaoke: bytes[175],
            day: bytes[176],
            month: bytes[177],
            year: read_u16(bytes, 178),
            unofficial: bytes[180],
            unknown: read_u16(bytes, 181),
            volume: bytes[183],
            record_id: read_u32(bytes, 184),
            date: read_array::<8>(bytes, 188),
            zero_c: read_u32(bytes, 196),
            instrument_headers: [
                InstrumentHeader::read(bytes, 200),
                InstrumentHeader::read(bytes, 216),
                InstrumentHeader::read(bytes, 232),
                InstrumentHeader::read(bytes, 248),
                InstrumentHeader::read(bytes, 264),
                InstrumentHeader::read(bytes, 280),
                InstrumentHeader::read(bytes, 296),
                InstrumentHeader::read(bytes, 312),
            ],
            short_unknown: read_u16(bytes, 328),
            name_length: read_u16(bytes, 330),
            contributor: read_array::<128>(bytes, 332),
        };
        proof {
            header.lemma_parsed(bytes@);
        }
        Ok(header)
    }

    /// A header whose fields were each read from their place in `bytes`
    /// has the first 460 of `bytes` as its own.
    proof fn lemma_parsed(self, b: Seq<u8>)
        requires
            b.len() >= HEADER_SIZE,
            le16(self.checksums[0]) == b.subrange(0, 2),
            le16(self.checksums[1]) == b.subrange(2, 4),
            self.magic@ == b.subrange(4, 12),
            self.identifier@ == b.subrange(12, 16),
            le32(self.slot_used) == b.subrange(16, 20),
            le32(self.compressed_length) == b.subrange(20, 24),
            self.hmac_sha1@ == b.subrange(24, 44),
            self.karaoke_stuff@ == b.subrange(44, 64),
            self.redundant@ == b.subrange(64, 72),
            self.label[0]@ == b.subrange(72, 104),
            self.label[1]@ == b.subrange(104, 136),
            self.label[2]@ == b.subrange(136, 168),
            le16(self.zero_a) == b.subrange(168, 170),
            self.meter == b[170],
            self.lines_plus_6 == b[171],
            self.zero_b == b[172],
            self.line_plus == b[173],
            self.melody == b[174],
            self.karaoke == b[175],
            self.day == b[176],
            self.month == b[177],
            le16(self.year) == b.subrange(178, 180),
            self.unofficial == b[180],
            le16(self.unknown) == b.subrange(181, 183),
            self.volume == b[183],
            le32(self.record_id) == b.subrange(184, 188),
            self.date@ == b.subrange(188, 196),
            le32(self.zero_c) == b.subrange(196, 200),
            forall|k: int|
                0 <= k < INSTRUMENTS ==> (#[trigger] self.instrument_headers[k]).bytes()
                    == b.subrange(200 + 16 * k, 216 + 16 * k),
            le16(self.short_unknown) == b.subrange(328, 330),
            le16(self.name_length) == b.subrange(330, 332),
            self.contributor@ == b.subrange(332, 460),
        ensures
            self.bytes() == b.subrange(0, HEADER_SIZE as int),
    {
        assert(self.stamp_bytes() == b.subrange(0, 72)) by {
            lemma_join(b, 0, 2, 4);
            lemma_join(b, 0, 4, 12);
            lemma_join(b, 0, 12, 16);
            lemma_join(b, 0, 16, 20);
            lemma_join(b, 0, 20, 24);
            lemma_join(b, 0, 24, 44);
            lemma_join(b, 0, 44, 64);
            lemma_join(b, 0, 64, 72);
        }
        assert(self.label_bytes() == b.subrange(72, 168)) by {
            lemma_join(b, 72, 104, 136);
            lemma_join(b, 72, 136, 168);
        }
        assert(self.setting_bytes() == b.subrange(168, 200)) by {
            assert(seq![
                self.meter,
                self.lines_plus_6,
                self.zero_b,
                self.line_plus,
                self.melody,
                self.karaoke,
                self.day,
                self.month,
            ] =~= b.subrange(170, 178));
            assert(seq![self.unofficial] =~= b.subrange(180, 181));
            assert(seq![self.volume] =~= b.subrange(183, 184));
            lemma_join(b, 168, 170, 178);
            lemma_join(b, 168, 178, 180);
            lemma_join(b, 168, 180, 181);
            lemma_join(b, 168, 181, 183);
            lemma_join(b, 168, 183, 184);
            lemma_join(b, 168, 184, 188);
            lemma_join(b, 168, 188, 196);
            lemma_join(b, 168, 196, 200);
        }
        assert(self.instrument_bytes() == b.subrange(200, 328)) by {
            assert(self.instrument_headers[0].bytes() == b.subrange(200, 216));
            assert(self.instrument_headers[1].bytes() == b.subrange(216, 232));
            assert(self.instrument_headers[2].bytes() == b.subrange(232, 248));
            assert(self.instrument_headers[3].bytes() == b.subrange(248, 264));
            assert(self.instrument_headers[4].bytes() == b.subrange(264, 280));
            assert(self.instrument_headers[5].bytes() == b.subrange(280, 296));
            assert(self.instrument_headers[6].bytes() == b.subrange(296, 312));
            assert(self.instrument_headers[7].bytes() == b.subrange(312, 328));
            lemma_join(b, 200, 216, 232);
            lemma_join(b, 200, 232, 248);
            lemma_join(b, 200, 248, 264);
            lemma_join(b, 200, 264, 280);
            lemma_join(b, 200, 280, 296);
            lemma_join(b, 200, 296, 312);
            lemma_join(b, 200, 312, 328);
        }
        assert(self.credit_bytes() == b.subrange(328, 460)) by {
            lemma_join(b, 328, 330, 332);
            lemma_join(b, 328, 332, 460);
        }
        lemma_join(b, 0, 72, 168);
        lemma_join(b, 0, 168, 200);
        lemma_join(b, 0, 200, 328);
        lemma_join(b, 0, 328, 460);
    }

    /// Appends bytes 0 to 72 of the header to `buf`.
    fn write_stamps(&self, buf: &mut Vec<u8>)
        ensures
            final(buf)@ == old(buf)@ + self.stamp_bytes(),
    {
        let ghost start = buf@;
        write_u16(buf, self.checksums[0]);
        write_u16(buf, self.checksums[1]);
        write_bytes(buf, self.magic.as_slice());
        write_bytes(buf, self.identifier.as_slice());
        write_u32(buf, self.slot_used);
        write_u32(buf, self.compressed_length);
        write_bytes(buf, self.hmac_sha1.as_slice());
        write_bytes(buf, self.karaoke_stuff.as_slice());
        write_bytes(buf, self.redundant.as_slice());
        proof {
            let f1 = le16(self.checksums[0]);
            let f2 = f1 + le16(self.checksums[1]);
            let f3 = f2 + self.magic@;
            let f4 = f3 + self.identifier@;
            let f5 = f4 + le32(self.slot_used);
            let f6 = f5 + le32(self.compressed_length);
            let f7 = f6 + self.hmac_sha1@;
            let f8 = f7 + self.karaoke_stuff@;
            lemma_append(start, f1, le16(self.checksums[1]));
            lemma_append(start, f2, self.magic@);
            lemma_append(start, f3, self.identifier@);
            lemma_append(start, f4, le32(self.slot_used));
            lemma_append(start, f5, le32(self.compressed_length));
            lemma_append(start, f6, self.hmac_sha1@);
            lemma_append(start, f7, self.karaoke_stuff@);
            lemma_append(start, f8, self.redundant@);
        }
    }

    /// Appends bytes 168 to 200 of the header to `buf`.
    fn write_settings(&self, buf: &mut Vec<u8>)
        ensures
            final(buf)@ == old(buf)@ + self.setting_bytes(),
    {
        let ghost start = buf@;
        write_u16(buf, self.zero_a);
        let flags = [
            self.meter,
            self.lines_plus_6,
            self.zero_b,
            self.line_plus,
            self.melody,
            self.karaoke,
            self.day,
            self.month,
        ];
        write_bytes(buf, flags.as_slice());
        write_u16(buf, self.year);
        buf.push(self.unofficial);
        write_u16(buf, self.unknown);
        buf.push(self.volume);
        write_u32(buf, self.record_id);
        write_bytes(buf, self.date.as_slice());
        write_u32(buf, self.zero_c);
        proof {
            let f1 = le16(self.zero_a);
            let f2 = f1 + seq![
                self.meter,
                self.lines_plus_6,
                self.zero_b,
                self.line_plus,
                self.melody,
                self.karaoke,
                self.day,
                self.month,
            ];
            let f3 = f2 + le16(self.year);
            let f4 = f3 + seq![self.unofficial];
            let f5 = f4 + le16(self.unknown);
            let f6 = f5 + seq![self.volume];
            let f7 = f6 + le32(self.record_id);
            let f8 = f7 + self.date@;
            assert(flags@ =~= seq![
                self.meter,
                self.lines_plus_6,
                self.zero_b,
                self.line_plus,
                self.melody,
                self.karaoke,
                self.day,
                self.month,
            ]);
            assert(forall|s: Seq<u8>, x: u8| #[trigger] s.push(x) =~= s + seq![x]);
            lemma_append(start, f1, flags@);
            lemma_append(start, f2, le16(self.year));
            lemma_append(start, f3, seq![self.unofficial]);
            lemma_append(start, f4, le16(self.unknown));
            lemma_append(start, f5, seq![self.volume]);
            lemma_append(start, f6, le32(self.record_id));
            lemma_append(start, f7, self.date@);
            lemma_append(start, f8, le32(self.zero_c));
        }
    }

    /// Appends bytes 200 to 328 of the header to `buf`.
    fn write_instruments(&self, buf: &mut Vec<u8>)
        ensures
            final(buf)@ == old(buf)@ + self.instrument_bytes(),
    {
        let ghost start = buf@;
        self.instrument_headers[0].write(buf);
        self.instrument_headers[1].write(buf);
        self.instrument_headers[2].write(buf);
        self.instrument_headers[3].write(buf);
        self.instrument_headers[4].write(buf);
        self.instrument_headers[5].write(buf);
        self.instrument_headers[6].write(buf);
        self.instrument_headers[7].write(buf);
        proof {
            let f1 = self.instrument_headers[0].bytes();
            let f2 = f1 + self.instrument_headers[1].bytes();
            let f3 = f2 + self.instrument_headers[2].bytes();
            let f4 = f3 + self.instrument_headers[3].bytes();
            let f5 = f4 + self.instrument_headers[4].bytes();
            let f6 = f5 + self.instrument_headers[5].bytes();
            let f7 = f6 + self.instrument_headers[6].bytes();
            lemma_append(start, f1, self.instrument_headers[1].bytes());
            lemma_append(start, f2, self.instrument_headers[2].bytes());
            lemma_append(start, f3, self.instrument_headers[3].bytes());
            lemma_append(start, f4, self.instrument_headers[4].bytes());
            lemma_append(start, f5, self.instrument_headers[5].bytes());
            lemma_append(start, f6, self.instrument_headers[6].bytes());
            lemma_append(start, f7, self.instrument_headers[7].bytes());
        }
    }

    /// Appends the header to `buf`.
    pub fn write(&self, buf: &mut Vec<u8>)
        ensures
            final(buf)@ == old(buf)@ + self.bytes(),
    {
        let ghost start = buf@;
        self.write_stamps(buf);
        let ghost after_stamps = buf@;
        write_bytes(buf, self.label[0].as_slice());
        write_bytes(buf, self.label[1].as_slice());
        write_bytes(buf, self.label[2].as_slice());
        proof {
            lemma_append(after_stamps, self.label[0]@, self.label[1]@);
            lemma_append(after_stamps, self.label[0]@ + self.label[1]@, self.label[2]@);
        }
        self.write_settings(buf);
        self.write_instruments(buf);
        let ghost after_instruments = buf@;
        write_u16(buf, self.short_unknown);
        write_u16(buf, self.name_length);
        write_bytes(buf, self.contributor.as_slice());
        proof {
            lemma_append(after_instruments, le16(self.short_unknown), le16(self.name_length));
            lemma_append(
                after_instruments,
                le16(self.short_unknown) + le16(self.name_length),
                self.contributor@,
            );
            let s1 = self.stamp_bytes();
            let s2 = s1 + self.label_bytes();
            let s3 = s2 + self.setting_bytes();
            let s4 = s3 + self.instrument_bytes();
            lemma_append(start, s1, self.label_bytes());
            lemma_append(start, s2, self.setting_bytes());
            lemma_append(start, s3, self.instrument_bytes());
            lemma_append(start, s4, self.credit_bytes());
        }
    }

    /// The lengths of the five parts of a header.
    proof fn lemma_part_lens(self)
        ensures
            self.stamp_bytes().len() == 72,
            self.label_bytes().len() == 96,
            self.setting_bytes().len() == 32,
            self.instrument_bytes().len() == 128,
            self.credit_bytes().len() == 132,
    {
        lemma_le16_value(self.checksums[0]);
        lemma_le16_value(self.checksums[1]);
        lemma_le32_value(self.slot_used);
        lemma_le32_value(self.compressed_length);
        lemma_le16_value(self.zero_a);
        lemma_le16_value(self.year);
        lemma_le16_value(self.unknown);
        lemma_le32_value(self.record_id);
        lemma_le32_value(self.zero_c);
        lemma_le16_value(self.short_unknown);
        lemma_le16_value(self.name_length);
        assert forall|k: int| 0 <= k < INSTRUMENTS implies (
        #[trigger] self.instrument_headers[k]).bytes().len() == 16 by {
            self.instrument_headers[k].lemma_layout();
        }
    }

    /// Two headers whose first 72 bytes are the same agree in the fields
    /// that lie there.
    proof fn lemma_stamps_equal(self, other: BdxHeader)
        requires
            self.stamp_bytes() == other.stamp_bytes(),
        ensures
            self.checksums == other.checksums,
            self.magic == other.magic,
            self.identifier == other.identifier,
            self.slot_used == other.slot_used,
            self.compressed_length == other.compressed_length,
            self.hmac_sha1 == other.hmac_sha1,
            self.karaoke_stuff == other.karaoke_stuff,
            self.redundant == other.redundant,
    {
        lemma_le16_value(self.checksums[0]);
        lemma_le16_value(self.checksums[1]);
        lemma_le32_value(self.slot_used);
        lemma_le32_value(self.compressed_length);
        lemma_le16_value(other.checksums[0]);
        lemma_le16_value(other.checksums[1]);
        lemma_le32_value(other.slot_used);
        lemma_le32_value(other.compressed_length);
        let a1 = le16(self.checksums[0]);
        let a2 = a1 + le16(self.checksums[1]);
        let a3 = a2 + self.magic@;
        let a4 = a3 + self.identifier@;
        let a5 = a4 + le32(self.slot_used);
        let a6 = a5 + le32(self.compressed_length);
        let a7 = a6 + self.hmac_sha1@;
        let a8 = a7 + self.karaoke_stuff@;
        let b1 = le16(other.checksums[0]);
        let b2 = b1 + le16(other.checksums[1]);
        let b3 = b2 + other.magic@;
        let b4 = b3 + other.identifier@;
        let b5 = b4 + le32(other.slot_used);
        let b6 = b5 + le32(other.compressed_length);
        let b7 = b6 + other.hmac_sha1@;
        let b8 = b7 + other.karaoke_stuff@;
        lemma_joined_equal(a8, self.redundant@, b8, other.redundant@);
        lemma_joined_equal(a7, self.karaoke_stuff@, b7, other.karaoke_stuff@);
        lemma_joined_equal(a6, self.hmac_sha1@, b6, other.hmac_sha1@);
        lemma_joined_equal(a5, le32(self.compressed_length), b5, le32(other.compressed_length));
        lemma_joined_equal(a4, le32(self.slot_used), b4, le32(other.slot_used));
        lemma_joined_equal(a3, self.identifier@, b3, other.identifier@);
        lemma_joined_equal(a2, self.magic@, b2, other.magic@);
        lemma_joined_equal(a1, le16(self.checksums[1]), b1, le16(other.checksums[1]));
        lemma_le16_equal(self.checksums[0], other.checksums[0]);
        lemma_le16_equal(self.checksums[1], other.checksums[1]);
        lemma_le32_equal(self.slot_used, other.slot_used);
        lemma_le32_equal(self.compressed_length, other.compressed_length);
        assert(self.checksums =~= other.checksums);
        assert(self.magic =~= other.magic);
        assert(self.identifier =~= other.identifier);
        assert(self.hmac_sha1 =~= other.hmac_sha1);
        assert(self.karaoke_stuff =~= other.karaoke_stuff);
        assert(self.redundant =~= other.redundant);
    }

    /// Two headers whose label bytes are the same have the same label.
    proof fn lemma_labels_equal(self, other: BdxHeader)
        requires
            self.label_bytes() == other.label_bytes(),
        ensures
            self.label == other.label,
    {
        lemma_joined_equal(
            self.label[0]@ + self.label[1]@,
            self.label[2]@,
            other.label[0]@ + other.label[1]@,
            other.label[2]@,
        );
        lemma_joined_equal(self.label[0]@, self.label[1]@, other.label[0]@, other.label[1]@);
        assert(self.label[0] =~= other.label[0]);
        assert(self.label[1] =~= other.label[1]);
        assert(self.label[2] =~= other.label[2]);
        assert(self.label =~= other.label);
    }

    /// Two headers whose setting bytes are the same agree in the fields
    /// that lie there.
    proof fn lemma_settings_equal(self, other: BdxHeader)
        requires
            self.setting_bytes() == other.setting_bytes(),
        ensures
            self.zero_a == other.zero_a,
            self.meter == other.meter,
            self.lines_plus_6 == other.lines_plus_6,
            self.zero_b == other.zero_b,
            self.line_plus == other.line_plus,
            self.melody == other.melody,
            self.karaoke == other.karaoke,
            self.day == other.day,
            self.month == other.month,
            self.year == other.year,
            self.unofficial == other.unofficial,
            self.unknown == other.unknown,
            self.volume == other.volume,
            self.record_id == other.record_id,
            self.date == other.date,
            self.zero_c == other.zero_c,
    {
        lemma_le16_value(self.zero_a);
        lemma_le16_value(self.year);
        lemma_le16_value(self.unknown);
        lemma_le32_value(self.record_id);
        lemma_le32_value(self.zero_c);
        lemma_le16_value(other.zero_a);
        lemma_le16_value(other.year);
        lemma_le16_value(other.unknown);
        lemma_le32_value(other.record_id);
        lemma_le32_value(other.zero_c);
        let fa = seq![
            self.meter,
            self.lines_plus_6,
            self.zero_b,
            self.line_plus,
            self.melody,
            self.karaoke,
            self.day,
            self.month,
        ];
        let fb = seq![
            other.meter,
            other.lines_plus_6,
            other.zero_b,
            other.line_plus,
            other.melody,
            other.karaoke,
            other.day,
            other.month,
        ];
        let a1 = le16(self.zero_a);
        let a2 = a1 + fa;
        let a3 = a2 + le16(self.year);
        let a4 = a3 + seq![self.unofficial];
        let a5 = a4 + le16(self.unknown);
        let a6 = a5 + seq![self.volume];
        let a7 = a6 + le32(self.record_id);
        let a8 = a7 + self.date@;
        let b1 = le16(other.zero_a);
        let b2 = b1 + fb;
        let b3 = b2 + le16(other.year);
        let b4 = b3 + seq![other.unofficial];
        let b5 = b4 + le16(other.unknown);
        let b6 = b5 + seq![other.volume];
        let b7 = b6 + le32(other.record_id);
        let b8 = b7 + other.date@;
        lemma_joined_equal(a8, le32(self.zero_c), b8, le32(other.zero_c));
        lemma_joined_equal(a7, self.date@, b7, other.date@);
        lemma_joined_equal(a6, le32(self.record_id), b6, le32(other.record_id));
        lemma_joined_equal(a5, seq![self.volume], b5, seq![other.volume]);
        lemma_joined_equal(a4, le16(self.unknown), b4, le16(other.unknown));
        lemma_joined_equal(a3, seq![self.unofficial], b3, seq![other.unofficial]);
        lemma_joined_equal(a2, le16(self.year), b2, le16(other.year));
        lemma_joined_equal(a1, fa, b1, fb);
        lemma_le16_equal(self.zero_a, other.zero_a);
        lemma_le16_equal(self.year, other.year);
        lemma_le16_equal(self.unknown, other.unknown);
        lemma_le32_equal(self.record_id, other.record_id);
        lemma_le32_equal(self.zero_c, other.zero_c);
        assert(fa[0] == fb[0] && fa[1] == fb[1] && fa[2] == fb[2] && fa[3] == fb[3]);
        assert(fa[4] == fb[4] && fa[5] == fb[5] && fa[6] == fb[6] && fa[7] == fb[7]);
        assert(seq![self.unofficial][0] == seq![other.unofficial][0]);
        assert(seq![self.volume][0] == seq![other.volume][0]);
        assert(self.date =~= other.date);
    }

    /// Two headers whose instrument bytes are the same have the same
    /// instruments.
    proof fn lemma_instruments_equal(self, other: BdxHeader)
        requires
            self.instrument_bytes() == other.instrument_bytes(),
        ensures
            self.instrument_headers == other.instrument_headers,
    {
        let a = self.instrument_headers;
        let b = other.instrument_headers;
        assert forall|k: int| 0 <= k < INSTRUMENTS implies (#[trigger] a[k]).bytes().len()
            == 16 by {
            a[k].lemma_layout();
        }
        assert forall|k: int| 0 <= k < INSTRUMENTS implies (#[trigger] b[k]).bytes().len()
            == 16 by {
            b[k].lemma_layout();
        }
        let a1 = a[0].bytes();
        let a2 = a1 + a[1].bytes();
        let a3 = a2 + a[2].bytes();
        let a4 = a3 + a[3].bytes();
        let a5 = a4 + a[4].bytes();
        let a6 = a5 + a[5].bytes();
        let a7 = a6 + a[6].bytes();
        let b1 = b[0].bytes();
        let b2 = b1 + b[1].bytes();
        let b3 = b2 + b[2].bytes();
        let b4 = b3 + b[3].bytes();
        let b5 = b4 + b[4].bytes();
        let b6 = b5 + b[5].bytes();
        let b7 = b6 + b[6].bytes();
        lemma_joined_equal(a7, a[7].bytes(), b7, b[7].bytes());
        lemma_joined_equal(a6, a[6].bytes(), b6, b[6].bytes());
        lemma_joined_equal(a5, a[5].bytes(), b5, b[5].bytes());
        lemma_joined_equal(a4, a[4].bytes(), b4, b[4].bytes());
        lemma_joined_equal(a3, a[3].bytes(), b3, b[3].bytes());
        lemma_joined_equal(a2, a[2].bytes(), b2, b[2].bytes());
        lemma_joined_equal(a1, a[1].bytes(), b1, b[1].bytes());
        a[0].lemma_bytes_equal(b[0]);
        a[1].lemma_bytes_equal(b[1]);
        a[2].lemma_bytes_equal(b[2]);
        a[3].lemma_bytes_equal(b[3]);
        a[4].lemma_bytes_equal(b[4]);
        a[5].lemma_bytes_equal(b[5]);
        a[6].lemma_bytes_equal(b[6]);
        a[7].lemma_bytes_equal(b[7]);
        assert(a =~= b);
    }

    /// Two headers whose last 132 bytes are the same agree in the fields
    /// that lie there.
    proof fn lemma_credits_equal(self, other: BdxHeader)
        requires
            self.credit_bytes() == other.credit_bytes(),
        ensures
            self.short_unknown == other.short_unknown,
            self.name_length == other.name_length,
            self.contributor == other.contributor,
    {
        lemma_le16_value(self.short_unknown);
        lemma_le16_value(self.name_length);
        lemma_le16_value(other.short_unknown);
        lemma_le16_value(other.name_length);
        lemma_joined_equal(
            le16(self.short_unknown) + le16(self.name_length),
            self.contributor@,
            le16(other.short_unknown) + le16(other.name_length),
            other.contributor@,
        );
        lemma_joined_equal(
            le16(self.short_unknown),
            le16(self.name_length),
            le16(other.short_unknown),
            le16(other.name_length),
        );
        lemma_le16_equal(self.short_unknown, other.short_unknown);
        lemma_le16_equal(self.name_length, other.name_length);
        assert(self.contributor =~= other.contributor);
    }

    /// Two headers with the same bytes are one header: nothing of a header
    /// is lost on the wire, and a header that was written is read back as
    /// it was.
    pub proof fn lemma_bytes_equal(self, other: BdxHeader)
        requires
            self.bytes() == other.bytes(),
        ensures
            self == other,
    {
        self.lemma_part_lens();
        other.lemma_part_lens();
        let a1 = self.stamp_bytes();
        let a2 = a1 + self.label_bytes();
        let a3 = a2 + self.setting_bytes();
        let a4 = a3 + self.instrument_bytes();
        let b1 = other.stamp_bytes();
        let b2 = b1 + other.label_bytes();
        let b3 = b2 + other.setting_bytes();
        let b4 = b3 + other.instrument_bytes();
        lemma_joined_equal(a4, self.credit_bytes(), b4, other.credit_bytes());
        lemma_joined_equal(a3, self.instrument_bytes(), b3, other.instrument_bytes());
        lemma_joined_equal(a2, self.setting_bytes(), b2, other.setting_bytes());
        lemma_joined_equal(a1, self.label_bytes(), b1, other.label_bytes());
        self.lemma_stamps_equal(other);
        self.lemma_labels_equal(other);
        self.lemma_settings_equal(other);
        self.lemma_instruments_equal(other);
        self.lemma_credits_equal(other);
    }

    /// A header has 460 bytes, and each field lies where the layout says.
    pub proof fn lemma_layout(self)
        ensures
            self.bytes().len() == HEADER_SIZE,
            self.stamp_bytes().len() == LABEL_OFFSET,
            self.bytes().subrange(SLOT_USED_OFFSET as int, SLOT_USED_OFFSET + 4) == le32(
                self.slot_used,
            ),
            self.bytes().subrange(COMPRESSED_LENGTH_OFFSET as int, COMPRESSED_LENGTH_OFFSET + 4)
                == le32(self.compressed_length),
            self.bytes().subrange(HMAC_OFFSET as int, HMAC_OFFSET + 20) == self.hmac_sha1@,
            self.bytes().subrange(0, 2) == le16(self.checksums[0]),
            self.bytes().subrange(2, 4) == le16(self.checksums[1]),
            self.bytes().subrange(LABEL_OFFSET as int, LABEL_OFFSET + 32) == self.label[0]@,
            self.bytes().subrange(LABEL_OFFSET + 32, LABEL_OFFSET + 64) == self.label[1]@,
            self.bytes().subrange(LABEL_OFFSET + 64, LABEL_OFFSET + 96) == self.label[2]@,
            self.bytes().subrange(CONTRIBUTOR_OFFSET as int, CONTRIBUTOR_OFFSET + 128)
                == self.contributor@,
    {
        let b = self.bytes();
        self.lemma_part_lens();
        lemma_le16_value(self.checksums[0]);
        lemma_le16_value(self.checksums[1]);
        lemma_le32_value(self.slot_used);
        lemma_le32_value(self.compressed_length);
        lemma_le16_value(self.short_unknown);
        lemma_le16_value(self.name_length);
        assert(b.subrange(0, 72) =~= self.stamp_bytes());
        assert(b.subrange(72, 168) =~= self.label_bytes());
        assert(b.subrange(328, 460) =~= self.credit_bytes());
        assert(b.subrange(16, 20) =~= b.subrange(0, 72).subrange(16, 20));
        assert(self.stamp_bytes().subrange(16, 20) =~= le32(self.slot_used));
        assert(b.subrange(20, 24) =~= b.subrange(0, 72).subrange(20, 24));
        assert(self.stamp_bytes().subrange(20, 24) =~= le32(self.compressed_length));
        assert(b.subrange(24, 44) =~= b.subrange(0, 72).subrange(24, 44));
        assert(self.stamp_bytes().subrange(24, 44) =~= self.hmac_sha1@);
        assert(b.subrange(0, 2) =~= b.subrange(0, 72).subrange(0, 2));
        assert(self.stamp_bytes().subrange(0, 2) =~= le16(self.checksums[0]));
        assert(b.subrange(2, 4) =~= b.subrange(0, 72).subrange(2, 4));
        assert(self.stamp_bytes().subrange(2, 4) =~= le16(self.checksums[1]));
        assert(b.subrange(72, 104) =~= b.subrange(72, 168).subrange(0, 32));
        assert(self.label_bytes().subrange(0, 32) =~= self.label[0]@);
        assert(b.subrange(104, 136) =~= b.subrange(72, 168).subrange(32, 64));
        assert(self.label_bytes().subrange(32, 64) =~= self.label[1]@);
        assert(b.subrange(136, 168) =~= b.subrange(72, 168).subrange(64, 96));
        assert(self.label_bytes().subrange(64, 96) =~= self.label[2]@);
        assert(b.subrange(332, 460) =~= b.subrange(328, 460).subrange(4, 132));
        assert(self.credit_bytes().subrange(4, 132) =~= self.contributor@);
    }
}

/// What follows the header in a slot, before the packed payload.
#[derive(Debug, Clone, Copy, PartialEq, Eq)]
pub struct BdxSavHeader {
    /// Always `0x10`.
    pub sixteen: u32,
    /// Length of the payload once unpacked.
    pub length: u32,
    /// Always zero.
    pub zero: u32,
}

impl BdxSavHeader {
    /// The 12 bytes of the sub-header.
    pub open spec fn bytes(self) -> Seq<u8> {
        le32(self.sixteen) + le32(self.length) + le32(self.zero)
    }

    /// Two sub-headers with the same bytes are one sub-header.
    pub proof fn lemma_bytes_equal(self, other: BdxSavHeader)
        requires
            self.bytes() == other.bytes(),
        ensures
            self == other,
    {
        lemma_le32_value(self.sixteen);
        lemma_le32_value(self.length);
        lemma_le32_value(self.zero);
        lemma_le32_value(other.sixteen);
        lemma_le32_value(other.length);
        lemma_le32_value(other.zero);
        lemma_joined_equal(
            le32(self.sixteen) + le32(self.length),
            le32(self.zero),
            le32(other.sixteen) + le32(other.length),
            le32(other.zero),
        );
        lemma_joined_equal(
            le32(self.sixteen),
            le32(self.length),
            le32(other.sixteen),
            le32(other.length),
        );
        lemma_le32_equal(self.sixteen, other.sixteen);
        lemma_le32_equal(self.length, other.length);
        lemma_le32_equal(self.zero, other.zero);
    }

    /// Reads the sub-header at `at`. Fails when `bytes` ends before it
    /// does.
    pub fn parse(bytes: &[u8], at: usize) -> (result: Result<BdxSavHeader, CodecError>)
        ensures
            match result {
                Ok(header) => at + SAV_HEADER_SIZE <= bytes@.len() && header.bytes()
                    == bytes@.subrange(at as int, at + SAV_HEADER_SIZE),
                Err(e) => e == CodecError::MalformedInput && at + SAV_HEADER_SIZE > bytes@.len(),
            },
    {
        if bytes.len() < SAV_HEADER_SIZE || at > bytes.len() - SAV_HEADER_SIZE {
            return Err(CodecError::MalformedInput);
        }
        let header = BdxSavHeader {
            sixteen: read_u32(bytes, at),
            length: read_u32(bytes, at + 4),
            zero: read_u32(bytes, at + 8),
        };
        proof {
            lemma_join(bytes@, at as int, at + 4, at + 8);
            lemma_join(bytes@, at as int, at + 8, at + 12);
        }
        Ok(header)
    }

    /// Appends the sub-header to `buf`.
    pub fn write(&self, buf: &mut Vec<u8>)
        ensures
            final(buf)@ == old(buf)@ + self.bytes(),
    {
        write_u32(buf, self.sixteen);
        write_u32(buf, self.length);
        write_u32(buf, self.zero);
        proof {
            lemma_append(old(buf)@, le32(self.sixteen), le32(self.length));
            lemma_append(old(buf)@, le32(self.sixteen) + le32(self.length), le32(self.zero));
        }
    }
}

} // verus!
