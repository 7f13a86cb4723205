//! The Basic Audio Profile: what a device can take, and how a stream is asked for.

use vstd::prelude::*;

use crate::bytes::{part, quad, quad_of, triple, triple_of, word, word_at};

verus! {

/// Which ear a stream is for.
pub const LOCATION_MONO: u32 = 0;

pub const LOCATION_FRONT_LEFT: u32 = 1;

pub const LOCATION_FRONT_RIGHT: u32 = 2;

pub const LOCATION_STEREO: u32 = 3;

/// The coding format of LC3.
pub const CODING_FORMAT_LC3: u8 = 0x06;

/// Operations on the ASE control point.
pub const RECEIVER_START_READY: u8 = 0x04;

pub const RELEASE: u8 = 0x08;

pub const LATENCY_LOW: u8 = 0x01;

pub const LATENCY_BALANCED: u8 = 0x02;

pub const LATENCY_HIGH_RELIABILITY: u8 = 0x03;

pub const CONTEXT_CONVERSATIONAL: u16 = 0x0002;

pub const CONTEXT_MEDIA: u16 = 0x0004;

pub const CONTEXT_GAME: u16 = 0x0008;

/// The state of an endpoint that carries audio.
pub const STATE_STREAMING: u8 = 0x04;

// ---------------------------------------------------------------------------
// Codec
// ---------------------------------------------------------------------------

/// A sample rate, by the number that stands for it in a codec configuration.
#[derive(Debug, Clone, Copy, PartialEq, Eq, Structural)]
pub struct SamplingFrequency {
    pub code: u8,
}

/// The rate that a number stands for.
pub open spec fn rate_of(code: u8) -> Option<u32> {
    if code == 1 {
        Some(8_000)
    } else if code == 2 {
        Some(11_025)
    } else if code == 3 {
        Some(16_000)
    } else if code == 4 {
        Some(22_050)
    } else if code == 5 {
        Some(24_000)
    } else if code == 6 {
        Some(32_000)
    } else if code == 7 {
        Some(44_100)
    } else if code == 8 {
        Some(48_000)
    } else if code == 9 {
        Some(88_200)
    } else if code == 10 {
        Some(96_000)
    } else if code == 11 {
        Some(176_400)
    } else if code == 12 {
        Some(192_000)
    } else if code == 13 {
        Some(384_000)
    } else {
        None
    }
}

/// The frequency of a rate, if there is one.
pub open spec fn frequency_of(hz: u32) -> Option<SamplingFrequency> {
    if exists|code: u8| rate_of(code) == Some(hz) {
        Some(SamplingFrequency { code: choose|code: u8| rate_of(code) == Some(hz) })
    } else {
        None
    }
}

impl SamplingFrequency {
    pub open spec fn rate(self) -> Option<u32> {
        rate_of(self.code)
    }

    pub fn hz(&self) -> (r: Option<u32>)
        ensures
            r == self.rate(),
    {
        match self.code {
            1 => Some(8_000),
            2 => Some(11_025),
            3 => Some(16_000),
            4 => Some(22_050),
            5 => Some(24_000),
            6 => Some(32_000),
            7 => Some(44_100),
            8 => Some(48_000),
            9 => Some(88_200),
            10 => Some(96_000),
            11 => Some(176_400),
            12 => Some(192_000),
            13 => Some(384_000),
            _ => None,
        }
    }

    /// The rate, or 48 kHz for a number that stands for none.
    pub fn hz_or_48000(&self) -> (r: u32)
        ensures
            r == match self.rate() {
                Some(hz) => hz,
                None => 48_000,
            },
    {
        match self.hz() {
            Some(hz) => hz,
            None => 48_000,
        }
    }

    /// The number for a rate, if there is one.
    pub fn from_hz(hz: u32) -> (r: Option<SamplingFrequency>)
        ensures
            r == frequency_of(hz),
            r is Some ==> r->0.rate() == Some(hz),
    {
        let found: Option<SamplingFrequency> = match hz {
            8_000 => Some(SamplingFrequency { code: 1 }),
            11_025 => Some(SamplingFrequency { code: 2 }),
            16_000 => Some(SamplingFrequency { code: 3 }),
            22_050 => Some(SamplingFrequency { code: 4 }),
            24_000 => Some(SamplingFrequency { code: 5 }),
            32_000 => Some(SamplingFrequency { code: 6 }),
            44_100 => Some(SamplingFrequency { code: 7 }),
            48_000 => Some(SamplingFrequency { code: 8 }),
            88_200 => Some(SamplingFrequency { code: 9 }),
            96_000 => Some(SamplingFrequency { code: 10 }),
            176_400 => Some(SamplingFrequency { code: 11 }),
            192_000 => Some(SamplingFrequency { code: 12 }),
            384_000 => Some(SamplingFrequency { code: 13 }),
            _ => None,
        };
        proof {
            if let Some(f) = found {
                assert(rate_of(f.code) == Some(hz));
            }
        }
        found
    }
}

#[derive(Debug, Clone, Copy, PartialEq, Eq, Structural)]
pub enum FrameDuration {
    Ms7_5,
    Ms10,
}

impl FrameDuration {
    pub open spec fn micros(self) -> u32 {
        match self {
            FrameDuration::Ms7_5 => 7_500,
            FrameDuration::Ms10 => 10_000,
        }
    }

    pub fn microseconds(&self) -> (r: u32)
        ensures
            r == self.micros(),
    {
        match self {
            FrameDuration::Ms7_5 => 7_500,
            FrameDuration::Ms10 => 10_000,
        }
    }
}

/// How the audio of one stream is encoded.
#[derive(Debug, Clone, Copy, PartialEq, Eq, Structural)]
pub struct CodecConfiguration {
    pub sampling_frequency: SamplingFrequency,
    pub frame_duration: FrameDuration,
    pub channel_allocation: u32,
    pub octets_per_frame: u16,
    pub frames_per_sdu: u8,
}

/// How many of the lowest `n` bits are set.
pub open spec fn bits_set(mask: u32, n: nat) -> nat
    decreases n,
{
    if n == 0 {
        0
    } else {
        bits_set(mask, (n - 1) as nat) + if (mask >> ((n - 1) as u32)) & 1u32 == 1u32 {
            1nat
        } else {
            0nat
        }
    }
}

impl CodecConfiguration {
    /// How many channels one stream carries: one for each location, and one for
    /// a stream that has none.
    pub open spec fn channels(self) -> nat {
        let n = bits_set(self.channel_allocation, 32);
        if n == 0 {
            1
        } else {
            n
        }
    }

    pub fn channel_count(&self) -> (r: u8)
        ensures
            r == self.channels(),
    {
        let mut n: u8 = 0;
        let mut i: u32 = 0;
        while i < 32
            invariant
                i <= 32,
                n <= i,
                n == bits_set(self.channel_allocation, i as nat),
            decreases 32 - i,
        {
            if (self.channel_allocation >> i) & 1u32 == 1u32 {
                n += 1;
            }
            i += 1;
        }
        if n == 0 {
            1
        } else {
            n
        }
    }
}

/// How the radio delivers one stream.
#[derive(Debug, Clone, Copy, PartialEq, Eq, Structural)]
pub struct QosConfiguration {
    pub sdu_interval_us: u32,
    pub framing: u8,
    /// Bit 0 is 1M, bit 1 is 2M.
    pub phy: u8,
    pub max_sdu: u16,
    pub retransmission_number: u8,
    pub max_transport_latency_ms: u16,
    pub presentation_delay_us: u32,
}

/// A named choice of codec and radio settings.
#[derive(Debug, Clone, Copy, PartialEq, Eq, Structural)]
pub enum Preset {
    /// What the Windows driver sends.
    WindowsDefault,
    LowLatency,
    HighQuality,
    Robust,
}

impl Preset {
    /// The codec of a preset.
    pub open spec fn codec_of(self, stereo: bool) -> CodecConfiguration {
        let channel_allocation = if stereo {
            LOCATION_STEREO
        } else {
            LOCATION_FRONT_LEFT
        };
        let (code, frame_duration, octets_per_frame) = match self {
            Preset::WindowsDefault => (8u8, FrameDuration::Ms7_5, 90u16),
            Preset::LowLatency => (8u8, FrameDuration::Ms7_5, 75u16),
            Preset::HighQuality => (8u8, FrameDuration::Ms10, 155u16),
            Preset::Robust => (5u8, FrameDuration::Ms10, 60u16),
        };
        CodecConfiguration {
            sampling_frequency: SamplingFrequency { code },
            frame_duration,
            channel_allocation,
            octets_per_frame,
            frames_per_sdu: 1,
        }
    }

    /// The radio settings of a preset, for a codec.
    pub open spec fn qos_of(self, codec: CodecConfiguration) -> QosConfiguration {
        let (retransmission_number, max_transport_latency_ms) = match self {
            Preset::WindowsDefault => (13u8, 75u16),
            Preset::LowLatency => (5u8, 15u16),
            Preset::HighQuality => (13u8, 100u16),
            Preset::Robust => (13u8, 95u16),
        };
        QosConfiguration {
            sdu_interval_us: codec.frame_duration.micros(),
            framing: 0,
            phy: 0x02,
            max_sdu: codec.octets_per_frame,
            retransmission_number,
            max_transport_latency_ms,
            presentation_delay_us: 40_000,
        }
    }

    pub fn codec(self, stereo: bool) -> (r: CodecConfiguration)
        ensures
            r == self.codec_of(stereo),
    {
        let channel_allocation: u32 = if stereo {
            LOCATION_STEREO
        } else {
            LOCATION_FRONT_LEFT
        };
        let (code, frame_duration, octets_per_frame): (u8, FrameDuration, u16) = match self {
            Preset::WindowsDefault => (8, FrameDuration::Ms7_5, 90),
            Preset::LowLatency => (8, FrameDuration::Ms7_5, 75),
            Preset::HighQuality => (8, FrameDuration::Ms10, 155),
            Preset::Robust => (5, FrameDuration::Ms10, 60),
        };
        CodecConfiguration {
            sampling_frequency: SamplingFrequency { code },
            frame_duration,
            channel_allocation,
            octets_per_frame,
            frames_per_sdu: 1,
        }
    }

    pub fn qos(self, codec: &CodecConfiguration) -> (r: QosConfiguration)
        ensures
            r == self.qos_of(*codec),
    {
        let (retransmission_number, max_transport_latency_ms): (u8, u16) = match self {
            Preset::WindowsDefault => (13, 75),
            Preset::LowLatency => (5, 15),
            Preset::HighQuality => (13, 100),
            Preset::Robust => (13, 95),
        };
        QosConfiguration {
            sdu_interval_us: codec.frame_duration.microseconds(),
            framing: 0,
            phy: 0x02,
            max_sdu: codec.octets_per_frame,
            retransmission_number,
            max_transport_latency_ms,
            presentation_delay_us: 40_000,
        }
    }

    pub open spec fn name(self) -> Seq<char> {
        match self {
            Preset::WindowsDefault => "windows"@,
            Preset::LowLatency => "low-latency"@,
            Preset::HighQuality => "high-quality"@,
            Preset::Robust => "robust"@,
        }
    }

    pub fn label(self) -> (r: &'static str)
        ensures
            r@ == self.name(),
    {
        match self {
            Preset::WindowsDefault => "windows",
            Preset::LowLatency => "low-latency",
            Preset::HighQuality => "high-quality",
            Preset::Robust => "robust",
        }
    }
}

// ---------------------------------------------------------------------------
// Published Audio Capabilities
// ---------------------------------------------------------------------------

/// What one record says a device accepts.
#[derive(Debug, PartialEq, Eq)]
pub struct CodecCapabilities {
    pub sampling_frequencies: Vec<SamplingFrequency>,
    pub supports_7_5ms: bool,
    pub supports_10ms: bool,
    pub channel_counts: Vec<u8>,
    pub min_octets_per_frame: Option<u16>,
    pub max_octets_per_frame: Option<u16>,
    pub max_frames_per_sdu: u8,
}

/// What capabilities say, whatever holds them.
pub struct Accepts {
    pub sampling_frequencies: Seq<SamplingFrequency>,
    pub supports_7_5ms: bool,
    pub supports_10ms: bool,
    pub channel_counts: Seq<u8>,
    pub min_octets_per_frame: Option<u16>,
    pub max_octets_per_frame: Option<u16>,
    pub max_frames_per_sdu: u8,
}

impl View for CodecCapabilities {
    type V = Accepts;

    open spec fn view(&self) -> Accepts {
        Accepts {
            sampling_frequencies: self.sampling_frequencies@,
            supports_7_5ms: self.supports_7_5ms,
            supports_10ms: self.supports_10ms,
            channel_counts: self.channel_counts@,
            min_octets_per_frame: self.min_octets_per_frame,
            max_octets_per_frame: self.max_octets_per_frame,
            max_frames_per_sdu: self.max_frames_per_sdu,
        }
    }
}

/// One record of a PAC characteristic.
#[derive(Debug, PartialEq, Eq)]
pub struct PacRecord {
    pub coding_format: u8,
    pub capabilities: CodecCapabilities,
    /// The bytes that the record came from.
    pub raw: Vec<u8>,
}

/// What a record says, whatever holds it.
pub struct Record {
    pub coding_format: u8,
    pub capabilities: Accepts,
    pub raw: Seq<u8>,
}

impl View for PacRecord {
    type V = Record;

    open spec fn view(&self) -> Record {
        Record {
            coding_format: self.coding_format,
            capabilities: self.capabilities@,
            raw: self.raw@,
        }
    }
}

/// What a list of records says.
pub open spec fn records(v: Seq<PacRecord>) -> Seq<Record> {
    v.map_values(|r: PacRecord| r@)
}

/// The value of the first entry of a type in a list of entries, each a length, a
/// type and a value.
pub open spec fn entry(s: Seq<u8>, kind: u8) -> Option<Seq<u8>>
    decreases s.len(),
{
    if s.len() < 2 || s[0] == 0 || s.len() < 1 + s[0] {
        None
    } else if s[1] == kind {
        Some(s.subrange(2, 1 + s[0]))
    } else {
        entry(s.skip(1 + s[0] as int), kind)
    }
}

/// The numbers of the bits that are set among the lowest `n`, counted from one.
pub open spec fn marked(mask: u16, n: nat) -> Seq<u8>
    decreases n,
{
    if n == 0 {
        Seq::empty()
    } else {
        let front = marked(mask, (n - 1) as nat);
        if (mask >> ((n - 1) as u16)) & 1u16 == 1u16 {
            front.push(n as u8)
        } else {
            front
        }
    }
}

/// The sample rates of a capability value.
pub open spec fn frequencies_in(v: Option<Seq<u8>>) -> Seq<SamplingFrequency> {
    match v {
        Some(b) => if b.len() >= 2 {
            marked(word_at(b, 0), 13).map_values(|code: u8| SamplingFrequency { code })
        } else {
            Seq::empty()
        },
        None => Seq::empty(),
    }
}

/// The channel counts of a capability value. A device that says nothing takes
/// one channel.
pub open spec fn counts_in(v: Option<Seq<u8>>) -> Seq<u8> {
    match v {
        Some(b) => if b.len() >= 1 {
            marked(b[0] as u16, 8)
        } else {
            seq![1u8]
        },
        None => seq![1u8],
    }
}

/// Whether a bit of a capability byte is set.
pub open spec fn bit_in(v: Option<Seq<u8>>, mask: u8) -> bool {
    match v {
        Some(b) => b.len() >= 1 && b[0] & mask != 0,
        None => false,
    }
}

/// The word at a place of a capability value that holds two.
pub open spec fn bound_in(v: Option<Seq<u8>>, at: int) -> Option<u16> {
    match v {
        Some(b) => if b.len() >= 4 {
            Some(word_at(b, at))
        } else {
            None
        },
        None => None,
    }
}

/// The frames per SDU of a capability value: one where nothing is said.
pub open spec fn frames_in(v: Option<Seq<u8>>) -> u8 {
    match v {
        Some(b) => if b.len() >= 1 {
            b[0]
        } else {
            1
        },
        None => 1,
    }
}

/// The capabilities in a list of entries.
pub open spec fn accepts_in(s: Seq<u8>) -> Accepts {
    Accepts {
        sampling_frequencies: frequencies_in(entry(s, 0x01)),
        supports_7_5ms: bit_in(entry(s, 0x02), 0x01),
        supports_10ms: bit_in(entry(s, 0x02), 0x02),
        channel_counts: counts_in(entry(s, 0x03)),
        min_octets_per_frame: bound_in(entry(s, 0x04), 0),
        max_octets_per_frame: bound_in(entry(s, 0x04), 2),
        max_frames_per_sdu: frames_in(entry(s, 0x05)),
    }
}

/// How many bytes the record at the front takes, if a whole one is there: a codec
/// of five bytes, capabilities and metadata behind their lengths.
pub open spec fn record_size(s: Seq<u8>) -> Option<int> {
    if s.len() < 7 || s.len() < 7 + s[5] {
        None
    } else {
        let size = 7 + s[5] + s[6 + s[5] as int];
        if s.len() < size {
            None
        } else {
            Some(size)
        }
    }
}

/// The record at the front.
pub open spec fn record_in(s: Seq<u8>) -> Record {
    Record {
        coding_format: s[0],
        capabilities: accepts_in(s.subrange(6, 6 + s[5] as int)),
        raw: s.take(record_size(s)->0),
    }
}

/// The next `count` records, as far as they are there.
pub open spec fn records_in(s: Seq<u8>, count: nat) -> Seq<Record>
    decreases count,
{
    if count == 0 || record_size(s) is None {
        Seq::empty()
    } else {
        seq![record_in(s)] + records_in(s.skip(record_size(s)->0), (count - 1) as nat)
    }
}

/// The records of a PAC value: their number, then one after the other.
pub open spec fn published(v: Seq<u8>) -> Seq<Record> {
    if v.len() == 0 {
        Seq::empty()
    } else {
        records_in(v.skip(1), v[0] as nat)
    }
}

/// Finds the value of the first entry of a type in `bytes[from..to]`.
fn find_entry(bytes: &[u8], from: usize, to: usize, kind: u8) -> (r: Option<Vec<u8>>)
    requires
        from <= to <= bytes@.len(),
    ensures
        r is Some <==> entry(bytes@.subrange(from as int, to as int), kind) is Some,
        r is Some ==> r->0@ == entry(bytes@.subrange(from as int, to as int), kind)->0,
{
    let ghost whole = bytes@.subrange(from as int, to as int);
    let mut at: usize = from;
    while to - at >= 2
        invariant
            from <= at <= to <= bytes@.len(),
            whole == bytes@.subrange(from as int, to as int),
            entry(whole, kind) == entry(bytes@.subrange(at as int, to as int), kind),
        decreases to - at,
    {
        let ghost rest = bytes@.subrange(at as int, to as int);
        assert(rest[0] == bytes@[at as int] && rest[1] == bytes@[at + 1]);
        let size: usize = bytes[at] as usize;
        if size == 0 || to - at < 1 + size {
            return None;
        }
        if bytes[at + 1] == kind {
            let value = part(bytes, at + 2, at + 1 + size);
            assert(value@ =~= rest.subrange(2, 1 + rest[0]));
            return Some(value);
        }
        assert(rest.skip(1 + rest[0] as int) =~= bytes@.subrange(at + 1 + size, to as int));
        at += 1 + size;
    }
    None
}

fn marked_bits(mask: u16, n: u8) -> (r: Vec<u8>)
    requires
        n <= 16,
    ensures
        r@ == marked(mask, n as nat),
{
    let mut out: Vec<u8> = Vec::new();
    let mut i: u8 = 0;
    while i < n
        invariant
            i <= n <= 16,
            out@ == marked(mask, i as nat),
        decreases n - i,
    {
        if (mask >> (i as u16)) & 1u16 == 1u16 {
            out.push(i + 1);
        }
        i += 1;
    }
    out
}

impl CodecCapabilities {
    /// Reads the capabilities in `bytes[from..to]`.
    fn read(bytes: &[u8], from: usize, to: usize) -> (r: CodecCapabilities)
        requires
            from <= to <= bytes@.len(),
        ensures
            r@ == accepts_in(bytes@.subrange(from as int, to as int)),
    {
        let ghost s = bytes@.subrange(from as int, to as int);
        let mut sampling_frequencies: Vec<SamplingFrequency> = Vec::new();
        if let Some(v) = find_entry(bytes, from, to, 0x01) {
            if v.len() >= 2 {
                let codes = marked_bits(word(v[0], v[1]), 13);
                let mut i: usize = 0;
                while i < codes.len()
                    invariant
                        i <= codes@.len(),
                        sampling_frequencies@ == codes@.take(i as int).map_values(
                            |code: u8| SamplingFrequency { code },
                        ),
                    decreases codes@.len() - i,
                {
                    sampling_frequencies.push(SamplingFrequency { code: codes[i] });
                    assert(sampling_frequencies@ =~= codes@.take(i + 1).map_values(
                        |code: u8| SamplingFrequency { code },
                    ));
                    i += 1;
                }
                assert(codes@.take(codes@.len() as int) =~= codes@);
            }
        }
        assert(sampling_frequencies@ =~= frequencies_in(entry(s, 0x01)));
        let mut supports_7_5ms: bool = false;
        let mut supports_10ms: bool = false;
        if let Some(v) = find_entry(bytes, from, to, 0x02) {
            if v.len() >= 1 {
                supports_7_5ms = v[0] & 0x01 != 0;
                supports_10ms = v[0] & 0x02 != 0;
            }
        }
        let mut channel_counts: Vec<u8> = vec![1];
        if let Some(v) = find_entry(bytes, from, to, 0x03) {
            if v.len() >= 1 {
                channel_counts = marked_bits(v[0] as u16, 8);
            }
        }
        assert(channel_counts@ =~= counts_in(entry(s, 0x03)));
        let mut min_octets_per_frame: Option<u16> = None;
        let mut max_octets_per_frame: Option<u16> = None;
        if let Some(v) = find_entry(bytes, from, to, 0x04) {
            if v.len() >= 4 {
                min_octets_per_frame = Some(word(v[0], v[1]));
                max_octets_per_frame = Some(word(v[2], v[3]));
            }
        }
        let mut max_frames_per_sdu: u8 = 1;
        if let Some(v) = find_entry(bytes, from, to, 0x05) {
            if v.len() >= 1 {
                max_frames_per_sdu = v[0];
            }
        }
        CodecCapabilities {
            sampling_frequencies,
            supports_7_5ms,
            supports_10ms,
            channel_counts,
            min_octets_per_frame,
            max_octets_per_frame,
            max_frames_per_sdu,
        }
    }

    /// Whether one stream may carry both ears.
    pub fn supports_stereo_in_one_stream(&self) -> (r: bool)
        ensures
            r == self.channel_counts@.contains(2),
    {
        crate::bytes::holds_byte(self.channel_counts.as_slice(), 2)
    }
}

impl PacRecord {
    pub fn is_lc3(&self) -> (r: bool)
        ensures
            r == (self.coding_format == CODING_FORMAT_LC3),
    {
        self.coding_format == CODING_FORMAT_LC3
    }

    /// Reads every record of a PAC value, up to the first that is cut short.
    pub fn parse_characteristic(v: &[u8]) -> (r: Vec<PacRecord>)
        ensures
            records(r@) == published(v@),
    {
        let mut out: Vec<PacRecord> = Vec::new();
        if v.len() == 0 {
            assert(records(out@) =~= published(v@));
            return out;
        }
        let mut left: u8 = v[0];
        let mut at: usize = 1;
        assert(records(out@) + records_in(v@.skip(1), v@[0] as nat) =~= published(v@));
        while left > 0
            invariant
                at <= v@.len(),
                v@.len() > 0,
                records(out@) + records_in(v@.skip(at as int), left as nat) == published(v@),
            decreases left,
        {
            let ghost rest = v@.skip(at as int);
            let ghost was = out@;
            let room: usize = v.len() - at;
            if room < 7 {
                assert(records(out@) =~= published(v@));
                return out;
            }
            let caps: usize = v[at + 5] as usize;
            assert(rest[5] == caps);
            if room < 7 + caps {
                assert(records(out@) =~= published(v@));
                return out;
            }
            let size: usize = 7 + caps + v[at + 6 + caps] as usize;
            assert(rest[6 + caps] == v@[at + 6 + caps]);
            if room < size {
                assert(records(out@) =~= published(v@));
                return out;
            }
            let record = PacRecord {
                coding_format: v[at],
                capabilities: CodecCapabilities::read(v, at + 6, at + 6 + caps),
                raw: part(v, at, at + size),
            };
            proof {
                assert(v@.subrange(at + 6, at + 6 + caps) =~= rest.subrange(6, 6 + rest[5] as int));
                assert(v@.subrange(at as int, at + size) =~= rest.take(size as int));
                assert(record@ == record_in(rest));
                assert(rest.skip(size as int) =~= v@.skip(at + size));
            }
            out.push(record);
            assert(records(out@) =~= records(was).push(record@));
            assert(records(out@) + records_in(v@.skip(at + size), (left - 1) as nat)
                =~= records(was) + records_in(rest, left as nat));
            at += size;
            left -= 1;
        }
        assert(records(out@) =~= published(v@));
        out
    }
}

// ---------------------------------------------------------------------------
// Endpoints
// ---------------------------------------------------------------------------

/// An endpoint and the state it is in.
#[derive(Debug, Clone, Copy, PartialEq, Eq, Structural)]
pub struct AseState {
    pub ase_id: u8,
    pub state: u8,
}

/// The endpoint that a value belongs to.
pub open spec fn ase_in(v: Seq<u8>) -> Option<AseState> {
    if v.len() >= 2 {
        Some(AseState { ase_id: v[0], state: v[1] })
    } else {
        None
    }
}

pub fn parse_state(v: &[u8]) -> (r: Option<AseState>)
    ensures
        r == ase_in(v@),
{
    if v.len() >= 2 {
        Some(AseState { ase_id: v[0], state: v[1] })
    } else {
        None
    }
}

pub open spec fn state_text(state: u8) -> Seq<char> {
    if state == 0 {
        "Idle"@
    } else if state == 1 {
        "Codec Configured"@
    } else if state == 2 {
        "QoS Configured"@
    } else if state == 3 {
        "Enabling"@
    } else if state == 4 {
        "Streaming"@
    } else if state == 5 {
        "Disabling"@
    } else if state == 6 {
        "Releasing"@
    } else {
        "unknown state"@
    }
}

pub fn state_name(state: u8) -> (r: &'static str)
    ensures
        r@ == state_text(state),
{
    match state {
        0 => "Idle",
        1 => "Codec Configured",
        2 => "QoS Configured",
        3 => "Enabling",
        4 => "Streaming",
        5 => "Disabling",
        6 => "Releasing",
        _ => "unknown state",
    }
}

/// What an endpoint would like the radio to do, published once its codec is
/// configured.
#[derive(Debug, Clone, Copy, PartialEq, Eq, Structural)]
pub struct PreferredQos {
    pub phy_preference: u8,
    pub retransmission_preference: u8,
    pub max_transport_latency_ms: u16,
    pub presentation_delay_min_us: u32,
    pub presentation_delay_max_us: u32,
    pub preferred_delay_min_us: u32,
    pub preferred_delay_max_us: u32,
}

/// The preferences in the value of an endpoint whose codec is configured.
pub open spec fn preferred_in(v: Seq<u8>) -> Option<PreferredQos> {
    if v.len() >= 19 && v[1] == 1 {
        Some(
            PreferredQos {
                phy_preference: v[3],
                retransmission_preference: v[4],
                max_transport_latency_ms: word_at(v, 5),
                presentation_delay_min_us: triple_of(v[7], v[8], v[9]),
                presentation_delay_max_us: triple_of(v[10], v[11], v[12]),
                preferred_delay_min_us: triple_of(v[13], v[14], v[15]),
                preferred_delay_max_us: triple_of(v[16], v[17], v[18]),
            },
        )
    } else {
        None
    }
}

pub fn parse_preferred_qos(v: &[u8]) -> (r: Option<PreferredQos>)
    ensures
        r == preferred_in(v@),
{
    if v.len() >= 19 && v[1] == 1 {
        Some(
            PreferredQos {
                phy_preference: v[3],
                retransmission_preference: v[4],
                max_transport_latency_ms: word(v[5], v[6]),
                presentation_delay_min_us: triple(v[7], v[8], v[9]),
                presentation_delay_max_us: triple(v[10], v[11], v[12]),
                preferred_delay_min_us: triple(v[13], v[14], v[15]),
                preferred_delay_max_us: triple(v[16], v[17], v[18]),
            },
        )
    } else {
        None
    }
}

/// The byte of a configuration value that holds one.
pub open spec fn byte_in(v: Option<Seq<u8>>) -> Option<u8> {
    match v {
        Some(b) => if b.len() >= 1 {
            Some(b[0])
        } else {
            None
        },
        None => None,
    }
}

/// The configuration in a list of entries: without a sample rate, a frame duration
/// or a frame size there is none.
pub open spec fn configuration_in(s: Seq<u8>) -> Option<CodecConfiguration> {
    match (byte_in(entry(s, 1)), byte_in(entry(s, 2)), entry(s, 4)) {
        (Some(code), Some(duration), Some(octets)) => if duration <= 1 && octets.len() >= 2 {
            Some(
                CodecConfiguration {
                    sampling_frequency: SamplingFrequency { code },
                    frame_duration: if duration == 0 {
                        FrameDuration::Ms7_5
                    } else {
                        FrameDuration::Ms10
                    },
                    channel_allocation: match entry(s, 3) {
                        Some(b) => if b.len() >= 4 {
                            quad_of(b[0], b[1], b[2], b[3])
                        } else {
                            LOCATION_MONO
                        },
                        None => LOCATION_MONO,
                    },
                    octets_per_frame: word_at(octets, 0),
                    frames_per_sdu: match byte_in(entry(s, 5)) {
                        Some(n) => n,
                        None => 1,
                    },
                },
            )
        } else {
            None
        },
        _ => None,
    }
}

/// What an endpoint says it has configured, once its codec is.
pub open spec fn configured_in(v: Seq<u8>) -> Option<CodecConfiguration> {
    if v.len() >= 25 && v[1] == 1 && v.len() >= 25 + v[24] {
        configuration_in(v.subrange(25, 25 + v[24]))
    } else {
        None
    }
}

/// What an endpoint has configured, which need not be what it was asked for.
pub fn parse_configured_codec(v: &[u8]) -> (r: Option<CodecConfiguration>)
    ensures
        r == configured_in(v@),
{
    if v.len() < 25 || v[1] != 1 || v.len() < 25 + v[24] as usize {
        return None;
    }
    let end: usize = 25 + v[24] as usize;
    let code: u8 = match find_entry(v, 25, end, 1) {
        Some(b) => if b.len() >= 1 {
            b[0]
        } else {
            return None;
        },
        None => {
            return None;
        },
    };
    let frame_duration: FrameDuration = match find_entry(v, 25, end, 2) {
        Some(b) => if b.len() >= 1 && b[0] == 0 {
            FrameDuration::Ms7_5
        } else if b.len() >= 1 && b[0] == 1 {
            FrameDuration::Ms10
        } else {
            return None;
        },
        None => {
            return None;
        },
    };
    let octets_per_frame: u16 = match find_entry(v, 25, end, 4) {
        Some(b) => if b.len() >= 2 {
            word(b[0], b[1])
        } else {
            return None;
        },
        None => {
            return None;
        },
    };
    let channel_allocation: u32 = match find_entry(v, 25, end, 3) {
        Some(b) => if b.len() >= 4 {
            quad(b[0], b[1], b[2], b[3])
        } else {
            LOCATION_MONO
        },
        None => LOCATION_MONO,
    };
    let frames_per_sdu: u8 = match find_entry(v, 25, end, 5) {
        Some(b) => if b.len() >= 1 {
            b[0]
        } else {
            1
        },
        None => 1,
    };
    Some(
        CodecConfiguration {
            sampling_frequency: SamplingFrequency { code },
            frame_duration,
            channel_allocation,
            octets_per_frame,
            frames_per_sdu,
        },
    )
}

impl PreferredQos {
    /// A delay that the endpoint accepts: the wanted one where it lies in the
    /// range, else the nearer end. The preferred range is used where there is
    /// one, and an upper end of zero is no end.
    pub open spec fn chosen_delay(self, wanted: u32) -> u32 {
        let low = if self.preferred_delay_min_us != 0 {
            self.preferred_delay_min_us
        } else {
            self.presentation_delay_min_us
        };
        let high = if self.preferred_delay_max_us != 0 {
            self.preferred_delay_max_us
        } else {
            self.presentation_delay_max_us
        };
        if wanted < low {
            low
        } else if high != 0 && wanted > high {
            high
        } else {
            wanted
        }
    }

    pub fn choose_presentation_delay(&self, wanted: u32) -> (r: u32)
        ensures
            r == self.chosen_delay(wanted),
    {
        let low: u32 = if self.preferred_delay_min_us != 0 {
            self.preferred_delay_min_us
        } else {
            self.presentation_delay_min_us
        };
        let high: u32 = if self.preferred_delay_max_us != 0 {
            self.preferred_delay_max_us
        } else {
            self.presentation_delay_max_us
        };
        if wanted < low {
            low
        } else if high != 0 && wanted > high {
            high
        } else {
            wanted
        }
    }
}

/// The write that puts an endpoint back to Idle.
pub open spec fn release_pdu(ase_id: u8) -> Seq<u8> {
    seq![RELEASE, 1, ase_id]
}

/// The write that tells a source that its audio is awaited.
pub open spec fn start_ready_pdu(ase_id: u8) -> Seq<u8> {
    seq![RECEIVER_START_READY, 1, ase_id]
}

pub fn release(ase_id: u8) -> (r: Vec<u8>)
    ensures
        r@ == release_pdu(ase_id),
{
    let out: Vec<u8> = vec![RELEASE, 1, ase_id];
    assert(out@ =~= release_pdu(ase_id));
    out
}

pub fn receiver_start_ready(ase_id: u8) -> (r: Vec<u8>)
    ensures
        r@ == start_ready_pdu(ase_id),
{
    let out: Vec<u8> = vec![RECEIVER_START_READY, 1, ase_id];
    assert(out@ =~= start_ready_pdu(ase_id));
    out
}

// ---------------------------------------------------------------------------
// What holds of what a device publishes
// ---------------------------------------------------------------------------

/// Codes stand for rates one to one, and a higher code is a higher rate; 16, 24, 32 and
/// 48 kHz stand where the specification of LC3 puts them.
pub proof fn lemma_rates_rise_with_their_codes(a: u8, b: u8)
    ensures
        rate_of(a) is Some <==> 1 <= a <= 13,
        1 <= a < b <= 13 ==> rate_of(a)->0 < rate_of(b)->0,
        rate_of(3) == Some(16_000u32),
        rate_of(5) == Some(24_000u32),
        rate_of(6) == Some(32_000u32),
        rate_of(8) == Some(48_000u32),
        rate_of(a) is Some ==> frequency_of(rate_of(a)->0) == Some(SamplingFrequency { code: a }),
{
    if rate_of(a) is Some {
        let hz = rate_of(a)->0;
        assert(rate_of(a) == Some(hz));
        let code = choose|code: u8| rate_of(code) == Some(hz);
        assert(code == a);
    }
}

/// The bits of a mask that count: those that are set, by their number from one.
pub proof fn lemma_marked(mask: u16, n: nat, k: u8)
    requires
        n <= 16,
    ensures
        marked(mask, n).contains(k) <==> 1 <= k <= n && (mask >> ((k - 1) as u16)) & 1u16 == 1u16,
    decreases n,
{
    if n > 0 {
        let front = marked(mask, (n - 1) as nat);
        let now = marked(mask, n);
        lemma_marked(mask, (n - 1) as nat, k);
        if (mask >> ((n - 1) as u16)) & 1u16 == 1u16 {
            assert(now[front.len() as int] == n as u8);
            if front.contains(k) {
                let i = choose|i: int| 0 <= i < front.len() && front[i] == k;
                assert(now[i] == k);
            }
            if now.contains(k) && k != n {
                let i = choose|i: int| 0 <= i < now.len() && now[i] == k;
                assert(front[i] == k);
            }
        }
    }
}

/// A record accepts what its bits say: rate number k where bit k - 1 of its rates is
/// set, n channels where bit n - 1 of its counts is set, and one where it says nothing.
pub proof fn lemma_record_accepts_what_its_bits_say(s: Seq<u8>, k: u8)
    ensures
        ({
            let a = accepts_in(s);
            &&& entry(s, 1) matches Some(b) ==> (b.len() >= 2 ==> (a.sampling_frequencies.contains(
                SamplingFrequency { code: k },
            ) <==> 1 <= k <= 13 && (word_at(b, 0) >> ((k - 1) as u16)) & 1u16 == 1u16))
            &&& entry(s, 1) is None ==> a.sampling_frequencies.len() == 0
            &&& entry(s, 3) matches Some(b) ==> (b.len() >= 1 ==> (a.channel_counts.contains(k)
                <==> 1 <= k <= 8 && ((b[0] as u16) >> ((k - 1) as u16)) & 1u16 == 1u16))
            &&& entry(s, 3) is None ==> (a.channel_counts.contains(k) <==> k == 1)
            &&& entry(s, 2) matches Some(b) ==> (b.len() >= 1 ==> (a.supports_7_5ms <==> b[0]
                & 1u8 != 0) && (a.supports_10ms <==> b[0] & 2u8 != 0))
            &&& entry(s, 2) is None ==> !a.supports_7_5ms && !a.supports_10ms
            &&& entry(s, 4) matches Some(b) ==> (b.len() >= 4 ==> a.min_octets_per_frame is Some
                && a.max_octets_per_frame is Some && a.min_octets_per_frame->0 == b[0] + 256
                * b[1] && a.max_octets_per_frame->0 == b[2] + 256 * b[3])
            &&& entry(s, 4) is None ==> a.min_octets_per_frame is None && a.max_octets_per_frame
                is None
            &&& entry(s, 5) matches Some(b) ==> (b.len() >= 1 ==> a.max_frames_per_sdu == b[0])
            &&& entry(s, 5) is None ==> a.max_frames_per_sdu == 1
        }),
{
    if let Some(b) = entry(s, 1) {
        if b.len() >= 2 {
            let codes = marked(word_at(b, 0), 13);
            let all = frequencies_in(Some(b));
            lemma_marked(word_at(b, 0), 13, k);
            if codes.contains(k) {
                let i = choose|i: int| 0 <= i < codes.len() && codes[i] == k;
                assert(all[i] == (SamplingFrequency { code: k }));
            }
            if all.contains(SamplingFrequency { code: k }) {
                let i = choose|i: int|
                    0 <= i < all.len() && all[i] == (SamplingFrequency { code: k });
                assert(codes[i] == k);
            }
        }
    }
    if let Some(b) = entry(s, 3) {
        if b.len() >= 1 {
            lemma_marked(b[0] as u16, 8, k);
        }
    } else {
        let one = seq![1u8];
        assert(one[0] == 1u8);
    }
}

/// An entry is found by its type, behind whatever other entries stand before it; of two
/// of a type the first counts.
pub proof fn lemma_entry_is_found(kind: u8, value: Seq<u8>, rest: Seq<u8>, wanted: u8)
    requires
        value.len() < 255,
    ensures
        entry(seq![(value.len() + 1) as u8, kind] + value + rest, wanted) == if kind == wanted {
            Some(value)
        } else {
            entry(rest, wanted)
        },
{
    let s = seq![(value.len() + 1) as u8, kind] + value + rest;
    assert(s[0] == value.len() + 1);
    assert(s[1] == kind);
    assert(s.subrange(2, 1 + s[0]) =~= value);
    assert(s.skip(1 + s[0] as int) =~= rest);
}

/// A whole record on the air: a codec, capabilities and metadata behind their lengths.
pub open spec fn record_bytes(codec: Seq<u8>, capabilities: Seq<u8>, metadata: Seq<u8>) -> Seq<u8> {
    codec + seq![capabilities.len() as u8] + capabilities + seq![metadata.len() as u8] + metadata
}

/// Records are read one after the other, each whole: the format of its codec, what its
/// capabilities say, and its own bytes; and no more of them than their number says.
pub proof fn lemma_records_are_read_in_order(
    codec: Seq<u8>,
    capabilities: Seq<u8>,
    metadata: Seq<u8>,
    rest: Seq<u8>,
    count: nat,
)
    requires
        codec.len() == 5,
        capabilities.len() <= 255,
        metadata.len() <= 255,
        count > 0,
    ensures
        ({
            let one = record_bytes(codec, capabilities, metadata);
            let read = records_in(one + rest, count);
            &&& read.len() >= 1
            &&& read[0].coding_format == codec[0]
            &&& read[0].capabilities == accepts_in(capabilities)
            &&& read[0].raw == one
            &&& read.skip(1) == records_in(rest, (count - 1) as nat)
        }),
        records_in(rest, 0).len() == 0,
        count <= 255 ==> published(seq![count as u8] + rest) == records_in(rest, count),
{
    let one = record_bytes(codec, capabilities, metadata);
    let s = one + rest;
    let n = capabilities.len() as int;
    assert(s[5] == n);
    assert(s.subrange(6, 6 + n) =~= capabilities);
    assert(s[6 + n] == metadata.len());
    assert(record_size(s) == Some(one.len() as int));
    assert(s.take(one.len() as int) =~= one);
    assert(s.skip(one.len() as int) =~= rest);
    let read = records_in(s, count);
    assert(read.skip(1) =~= records_in(rest, (count - 1) as nat));
    let value = seq![count as u8] + rest;
    assert(value.skip(1) =~= rest);
}

/// A delay that an endpoint is given is one that it accepts: the wanted one where it lies
/// in the range, and the nearer end of the range where it does not. The range is the one
/// that the endpoint prefers, as far as it prefers any.
pub proof fn lemma_delay_is_accepted(q: PreferredQos, wanted: u32)
    ensures
        ({
            let low = if q.preferred_delay_min_us > 0 {
                q.preferred_delay_min_us
            } else {
                q.presentation_delay_min_us
            };
            let high = if q.preferred_delay_max_us > 0 {
                q.preferred_delay_max_us
            } else {
                q.presentation_delay_max_us
            };
            let r = q.chosen_delay(wanted);
            &&& low <= wanted && (high == 0 || wanted <= high) ==> r == wanted
            &&& wanted < low ==> r == low
            &&& low <= wanted && 0 < high < wanted ==> r == high
        }),
{
}

/// The states of an endpoint have names of their own, and its value begins with its
/// number and its state.
pub proof fn lemma_state_is_read(v: Seq<u8>)
    ensures
        ase_in(v) is Some <==> v.len() >= 2,
        ase_in(v) is Some ==> (ase_in(v)->0).ase_id == v[0] && (ase_in(v)->0).state == v[1],
        state_text(STATE_STREAMING) == "Streaming"@,
        STATE_STREAMING == 4,
        state_text(0) == "Idle"@,
        state_text(3) == "Enabling"@,
{
}

/// Control point writes say what they are for and for whom: release, or ready to
/// receive.
pub proof fn lemma_control_writes_name_their_endpoint(ase_id: u8)
    ensures
        release_pdu(ase_id) == seq![0x08u8, 1, ase_id],
        start_ready_pdu(ase_id) == seq![0x04u8, 1, ase_id],
{
}

/// What an endpoint has configured is in its value, entry by entry, once its codec is
/// configured.
pub proof fn lemma_configured_codec_is_read(v: Seq<u8>)
    ensures
        configured_in(v) matches Some(c) ==> {
            let s = v.subrange(25, 25 + v[24] as int);
            &&& v.len() >= 25 + v[24]
            &&& v[1] == 1
            &&& entry(s, 1) matches Some(b) && b.len() >= 1 && c.sampling_frequency.code == b[0]
            &&& entry(s, 2) matches Some(b) && b.len() >= 1 && (b[0] == 0 <==> c.frame_duration
                == FrameDuration::Ms7_5) && (b[0] == 1 <==> c.frame_duration
                == FrameDuration::Ms10)
            &&& entry(s, 4) matches Some(b) && b.len() >= 2 && c.octets_per_frame == b[0] + 256
                * b[1]
            &&& entry(s, 3) matches Some(b) ==> (b.len() >= 4 ==> c.channel_allocation as int
                == b[0] + 256 * b[1] + 65_536 * b[2] + 16_777_216 * b[3])
            &&& entry(s, 5) matches Some(b) ==> (b.len() >= 1 ==> c.frames_per_sdu == b[0])
        },
{
}

} // verus!
