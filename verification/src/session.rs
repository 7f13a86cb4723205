//! End-to-end session: from an idle adapter to audio in the headphones.
//!
//! This is the layer that ties everything together and the only one that knows
//! the whole sequence:
//!
//! ```text
//!   open adapter -> initialise -> scan -> connect -> pair -> read PACS
//!        -> plan the stream -> configure ASCS -> create CIS -> stream LC3
//! ```
//!
//! Every step reports what it did, because when this fails against real hardware
//! the useful question is always "how far did it get".

pub mod establish;
pub mod playback;

pub use crate::capabilities::{describe_capabilities, describe_locations};
pub use crate::cis::CisOutcome;
pub use crate::device::{best_match, parse_address, DiscoveredDevice};
pub use crate::reconnect::ReconnectPolicy;

use vstd::prelude::*;

use crate::att::{L2capFrame, Frame, CID_ATT, HANDLE_VALUE_NOTIFICATION};
use crate::bap::{receiver_start_ready, release, release_pdu, start_ready_pdu, Preset};
use crate::bytes::{copied, packets, part, word, word_at};
use crate::capabilities::capabilities_text;
use crate::device::{
    gather, gathered, heard, in_order, is_among, lemma_whoever_answers_is_listed, order_found,
    text_of, Heard,
};
use crate::hci::{command_bytes, le_remove_cig, BdAddr, DISCONNECT, LE_REMOVE_CIG};
use crate::link::procedure::{
    lemma_write_needs_an_answer, said, sent_stage, volume_control_stage, volume_state_stage,
    write_stage, writes, Published, Said, Stage,
};
use crate::link::{
    att_timeout, AudioCapabilities, Fault, Link, LinkError, LinkState, Reply, Step,
    VolumeControlHandles,
};
use crate::number::{near, Number};
use crate::safety::{Approved, OutputLimiter, SafetyViolation, WritePolicy};
use crate::stream::StreamPlan;
use crate::text::{decimal, hex, push_decimal, push_hex};
use crate::time::Duration;
use crate::vcs::{absolute_pdu, parse_volume_state, set_absolute, setting_of, volume_in, VolumeState};

verus! {

// ---------------------------------------------------------------------------
// Errors
// ---------------------------------------------------------------------------

/// Why a session could not go on. What comes from outside carries the words that
/// it came with.
#[derive(Debug)]
pub enum SessionError {
    Controller(String),
    Link(LinkError),
    Audio(String),
    Encode(String),
    Safety(SafetyViolation),
    /// The captured signal was refused before it reached the encoder.
    Screened(String),
    NoDeviceFound,
    Planning(String),
    UnsafeParameters(String),
    ConnectFailed,
    EncryptionFailed,
    Pairing(String),
    Transport { usb: bool, text: String },
    CisFailed { handle: u16, status: u8 },
    NoCisEstablished,
    IsoPath(String),
}

/// What an error says, whatever holds its words.
pub enum Trouble {
    Controller(Seq<char>),
    Link(Fault),
    Audio(Seq<char>),
    Encode(Seq<char>),
    Safety(SafetyViolation),
    Screened(Seq<char>),
    NoDeviceFound,
    Planning(Seq<char>),
    UnsafeParameters(Seq<char>),
    ConnectFailed,
    EncryptionFailed,
    Pairing(Seq<char>),
    Transport { usb: bool, text: Seq<char> },
    CisFailed { handle: u16, status: u8 },
    NoCisEstablished,
    IsoPath(Seq<char>),
}

impl View for SessionError {
    type V = Trouble;

    open spec fn view(&self) -> Trouble {
        match self {
            SessionError::Controller(t) => Trouble::Controller(t@),
            SessionError::Link(e) => Trouble::Link(e@),
            SessionError::Audio(t) => Trouble::Audio(t@),
            SessionError::Encode(t) => Trouble::Encode(t@),
            SessionError::Safety(v) => Trouble::Safety(*v),
            SessionError::Screened(t) => Trouble::Screened(t@),
            SessionError::NoDeviceFound => Trouble::NoDeviceFound,
            SessionError::Planning(t) => Trouble::Planning(t@),
            SessionError::UnsafeParameters(t) => Trouble::UnsafeParameters(t@),
            SessionError::ConnectFailed => Trouble::ConnectFailed,
            SessionError::EncryptionFailed => Trouble::EncryptionFailed,
            SessionError::Pairing(t) => Trouble::Pairing(t@),
            SessionError::Transport { usb, text } => Trouble::Transport {
                usb: *usb,
                text: text@,
            },
            SessionError::CisFailed { handle, status } => Trouble::CisFailed {
                handle: *handle,
                status: *status,
            },
            SessionError::NoCisEstablished => Trouble::NoCisEstablished,
            SessionError::IsoPath(t) => Trouble::IsoPath(t@),
        }
    }
}

impl Trouble {
    pub open spec fn message(self) -> Seq<char> {
        match self {
            Trouble::Controller(t) => t,
            Trouble::Link(e) => e.message(),
            Trouble::Audio(t) => t,
            Trouble::Encode(t) => t,
            Trouble::Safety(v) => v.message(),
            Trouble::Screened(t) => t,
            Trouble::NoDeviceFound => "no LE Audio device found while scanning"@,
            Trouble::Planning(t) => "could not plan a stream: "@ + t,
            Trouble::UnsafeParameters(t) => "stream parameters rejected: "@ + t,
            Trouble::ConnectFailed => "connection attempt did not complete"@,
            Trouble::EncryptionFailed => "pairing succeeded but encryption did not start"@,
            Trouble::Pairing(t) => t,
            Trouble::Transport { usb, text } => text,
            Trouble::CisFailed { handle, status } => "CIS "@ + hex(handle as nat, 4)
                + " se nepodarilo ustavit: status "@ + hex(status as nat, 2) + " ("@
                + crate::hci::reason_text(status) + ")"@,
            Trouble::NoCisEstablished => "controller did not establish any CIS channel"@,
            Trouble::IsoPath(t) => "isochronni cesta pro audio: "@ + t,
        }
    }
}

impl Clone for SessionError {
    fn clone(&self) -> (r: Self)
        ensures
            r@ == self@,
    {
        match self {
            SessionError::Controller(t) => SessionError::Controller(t.as_str().to_owned()),
            SessionError::Link(e) => SessionError::Link(e.clone()),
            SessionError::Audio(t) => SessionError::Audio(t.as_str().to_owned()),
            SessionError::Encode(t) => SessionError::Encode(t.as_str().to_owned()),
            SessionError::Safety(v) => SessionError::Safety(*v),
            SessionError::Screened(t) => SessionError::Screened(t.as_str().to_owned()),
            SessionError::NoDeviceFound => SessionError::NoDeviceFound,
            SessionError::Planning(t) => SessionError::Planning(t.as_str().to_owned()),
            SessionError::UnsafeParameters(t) => SessionError::UnsafeParameters(
                t.as_str().to_owned(),
            ),
            SessionError::ConnectFailed => SessionError::ConnectFailed,
            SessionError::EncryptionFailed => SessionError::EncryptionFailed,
            SessionError::Pairing(t) => SessionError::Pairing(t.as_str().to_owned()),
            SessionError::Transport { usb, text } => SessionError::Transport {
                usb: *usb,
                text: text.as_str().to_owned(),
            },
            SessionError::CisFailed { handle, status } => SessionError::CisFailed {
                handle: *handle,
                status: *status,
            },
            SessionError::NoCisEstablished => SessionError::NoCisEstablished,
            SessionError::IsoPath(t) => SessionError::IsoPath(t.as_str().to_owned()),
        }
    }
}

impl SessionError {
    /// A sentence for a person.
    pub fn text(&self) -> (r: String)
        ensures
            r@ == self@.message(),
    {
        let mut out = String::new();
        match self {
            SessionError::Link(e) => {
                return e.text();
            },
            SessionError::Safety(v) => {
                return v.text();
            },
            SessionError::Controller(t) => out.append(t.as_str()),
            SessionError::Audio(t) => out.append(t.as_str()),
            SessionError::Encode(t) => out.append(t.as_str()),
            SessionError::Screened(t) => out.append(t.as_str()),
            SessionError::Pairing(t) => out.append(t.as_str()),
            SessionError::Transport { usb, text } => out.append(text.as_str()),
            SessionError::NoDeviceFound => out.append("no LE Audio device found while scanning"),
            SessionError::Planning(t) => {
                out.append("could not plan a stream: ");
                out.append(t.as_str());
            },
            SessionError::UnsafeParameters(t) => {
                out.append("stream parameters rejected: ");
                out.append(t.as_str());
            },
            SessionError::ConnectFailed => out.append("connection attempt did not complete"),
            SessionError::EncryptionFailed => out.append(
                "pairing succeeded but encryption did not start",
            ),
            SessionError::CisFailed { handle, status } => {
                out.append("CIS ");
                push_hex(&mut out, *handle as u32, 4);
                out.append(" se nepodarilo ustavit: status ");
                push_hex(&mut out, *status as u32, 2);
                out.append(" (");
                out.append(crate::hci::disconnect_reason(*status));
                out.append(")");
            },
            SessionError::NoCisEstablished => out.append(
                "controller did not establish any CIS channel",
            ),
            SessionError::IsoPath(t) => {
                out.append("isochronni cesta pro audio: ");
                out.append(t.as_str());
            },
        }
        assert(out@ =~= self@.message());
        out
    }
}

// ---------------------------------------------------------------------------
// Configuration
// ---------------------------------------------------------------------------

/// Settings safe to change while ISO playback is already running. The audio loop
/// observes them on its next frame without touching GATT, ASE, CIS or codec
/// configuration.
#[derive(Debug, PartialEq, Eq)]
pub struct LiveAudioConfig {
    pub monitor_enabled: bool,
    pub monitor_source: String,
    pub monitor_replace: bool,
    pub monitor_gain: Number,
    pub output_gain: Number,
    pub microphone_gain: Number,
    /// From -1, all left, to 1, all right.
    pub balance: Number,
}

/// What live settings say, whatever holds them.
pub struct Live {
    pub monitor_enabled: bool,
    pub monitor_source: Seq<char>,
    pub monitor_replace: bool,
    pub monitor_gain: Number,
    pub output_gain: Number,
    pub microphone_gain: Number,
    pub balance: Number,
}

impl View for LiveAudioConfig {
    type V = Live;

    open spec fn view(&self) -> Live {
        Live {
            monitor_enabled: self.monitor_enabled,
            monitor_source: self.monitor_source@,
            monitor_replace: self.monitor_replace,
            monitor_gain: self.monitor_gain,
            output_gain: self.output_gain,
            microphone_gain: self.microphone_gain,
            balance: self.balance,
        }
    }
}

impl Live {
    /// What holds until the settings were read.
    pub open spec fn usual() -> Self {
        Live {
            monitor_enabled: false,
            monitor_source: "default"@,
            monitor_replace: false,
            monitor_gain: near(false, 1, 1),
            output_gain: near(false, 1, 1),
            microphone_gain: near(false, 1, 1),
            balance: near(false, 0, 1),
        }
    }

    pub open spec fn wf(self) -> bool {
        self.monitor_gain.wf() && self.output_gain.wf() && self.microphone_gain.wf()
            && self.balance.wf()
    }
}

impl Default for LiveAudioConfig {
    fn default() -> (r: Self)
        ensures
            r@ == Live::usual(),
            r@.wf(),
    {
        LiveAudioConfig {
            monitor_enabled: false,
            monitor_source: "default".to_owned(),
            monitor_replace: false,
            monitor_gain: Number::ratio(1, 1),
            output_gain: Number::ratio(1, 1),
            microphone_gain: Number::ratio(1, 1),
            balance: Number::ratio(0, 1),
        }
    }
}

/// What the caller wants from this session.
#[derive(Debug)]
pub struct SessionConfig {
    pub preset: Preset,
    /// USB control-transfer addressing used for HCI commands, by its name; `None`
    /// leaves it to the transport.
    pub command_style: Option<String>,
    /// Carry stereo on one CIS when the device allows it.
    pub prefer_single_cis: bool,
    /// Capture device name to look for; `None` picks the virtual cable.
    pub audio_device: Option<String>,
    /// Render endpoint for decoded headset microphone audio. `None` means the
    /// microphone may be monitored locally but is not published to Windows.
    pub microphone_target: Option<String>,
    pub microphone_gain: Number,
    /// Optional Windows capture endpoint mixed into or substituted for music.
    /// `headset` uses the decoded Source ASE instead of opening a PC endpoint.
    pub monitor_source: Option<String>,
    pub monitor_replace: bool,
    pub monitor_gain: Number,
    pub limiter: OutputLimiter,
    /// How long a stream may be silent before the stack stops transmitting.
    ///
    /// Headphones worn all day spend most of it with nothing playing. Sending
    /// encoded silence anyway keeps both radios busy for no reason. `None`
    /// transmits continuously.
    pub idle_timeout: Option<Duration>,
    /// What to do when the headphones walk out of range.
    pub reconnect: ReconnectPolicy,
    pub scan_duration: Duration,
}

/// What a configuration says, whatever holds it.
pub struct Wishes {
    pub preset: Preset,
    pub command_style: Option<Seq<char>>,
    pub prefer_single_cis: bool,
    pub audio_device: Option<Seq<char>>,
    pub microphone_target: Option<Seq<char>>,
    pub microphone_gain: Number,
    pub monitor_source: Option<Seq<char>>,
    pub monitor_replace: bool,
    pub monitor_gain: Number,
    pub limiter: OutputLimiter,
    pub idle_timeout: Option<Duration>,
    pub reconnect: ReconnectPolicy,
    pub scan_duration: Duration,
}

impl View for SessionConfig {
    type V = Wishes;

    open spec fn view(&self) -> Wishes {
        Wishes {
            preset: self.preset,
            command_style: text_of(self.command_style),
            prefer_single_cis: self.prefer_single_cis,
            audio_device: text_of(self.audio_device),
            microphone_target: text_of(self.microphone_target),
            microphone_gain: self.microphone_gain,
            monitor_source: text_of(self.monitor_source),
            monitor_replace: self.monitor_replace,
            monitor_gain: self.monitor_gain,
            limiter: self.limiter,
            idle_timeout: self.idle_timeout,
            reconnect: self.reconnect,
            scan_duration: self.scan_duration,
        }
    }
}

impl Wishes {
    /// What is wanted where nothing is said.
    pub open spec fn usual() -> Self {
        Wishes {
            preset: Preset::WindowsDefault,
            command_style: None,
            prefer_single_cis: true,
            audio_device: None,
            microphone_target: None,
            microphone_gain: near(false, 1, 1),
            monitor_source: None,
            monitor_replace: false,
            monitor_gain: near(false, 1, 1),
            limiter: OutputLimiter { level: near(false, 1, 1) },
            idle_timeout: Some(Duration { nanos: 300_000_000_000 }),
            reconnect: ReconnectPolicy::usual(),
            scan_duration: Duration { nanos: 10_000_000_000 },
        }
    }
}

impl Default for SessionConfig {
    fn default() -> (r: Self)
        ensures
            r@ == Wishes::usual(),
    {
        SessionConfig {
            preset: Preset::WindowsDefault,
            command_style: None,
            prefer_single_cis: true,
            audio_device: None,
            microphone_target: None,
            microphone_gain: Number::ratio(1, 1),
            monitor_source: None,
            monitor_replace: false,
            monitor_gain: Number::ratio(1, 1),
            limiter: OutputLimiter::default(),
            idle_timeout: Some(Duration::from_secs(300)),
            reconnect: ReconnectPolicy::default(),
            scan_duration: Duration::from_secs(10),
        }
    }
}

// ---------------------------------------------------------------------------
// Progress
// ---------------------------------------------------------------------------

/// What the audio loop has counted.
#[derive(Debug)]
pub struct StreamCounters {
    pub frames: u64,
    /// Isochronous transfers submitted and how many came back failed. A growing
    /// failure count is the difference between "encoding fine but the audio never
    /// leaves the adapter" and a genuine radio problem.
    pub iso_sent: u64,
    pub iso_failed: u64,
    /// Current controller-reported received signal strength for the ACL.
    pub rssi: Option<i8>,
    /// Packets the controller confirms it has sent, per isochronous channel.
    pub delivered: Vec<u64>,
}

/// What was counted, whatever holds it.
pub struct Counted {
    pub frames: u64,
    pub iso_sent: u64,
    pub iso_failed: u64,
    pub rssi: Option<i8>,
    pub delivered: Seq<u64>,
}

impl View for StreamCounters {
    type V = Counted;

    open spec fn view(&self) -> Counted {
        Counted {
            frames: self.frames,
            iso_sent: self.iso_sent,
            iso_failed: self.iso_failed,
            rssi: self.rssi,
            delivered: self.delivered@,
        }
    }
}

/// What the controller has counted on one isochronous channel since it came up.
#[derive(Debug, Clone, Copy, PartialEq, Eq)]
pub struct RadioQuality {
    pub handle: u16,
    /// Packets that never arrived, by the controller's own reckoning.
    pub lost: u64,
    pub unacked: u32,
    pub flushed: u32,
    pub retransmitted: u32,
    pub crc_errors: u32,
    pub unreceived: u32,
}

/// Progress reported as the session advances, so a UI or log can follow along.
#[allow(inconsistent_fields)]
#[derive(Debug)]
pub enum Progress {
    AdapterReady { version: String, address: String },
    DeviceFound { name: String, address: String, rssi: i8, le_audio: bool },
    Connected { handle: u16 },
    CapabilitiesRead { summary: String },
    StreamPlanned { summary: String },
    Streaming {
        counters: StreamCounters,
        /// Samples that were captured and not sent yet.
        backlog: usize,
        /// How often there was nothing to send when a frame was due.
        underruns: u64,
        /// One entry per isochronous channel. The counts only grow: whoever shows
        /// them chooses the window for a rate.
        quality: Vec<RadioQuality>,
    },
    /// The audio source the stream is reading from, and its exact format.
    CaptureReady { device: String, format: String },
    /// Nothing has been playing, so the stack stopped transmitting. The
    /// connection and both isochronous streams stay up.
    Idle { after: Duration },
    /// Nothing has been playing, so the headphones are handed back.
    Yielded { after: Duration },
    /// Sound came back and transmission resumed.
    Resumed,
    Battery { levels: Vec<u8> },
    BatteryAsked { reason: String },
    /// The ACL link ended at the controller, with the Bluetooth reason code.
    /// Kept separate from a generic stop so callers can safely decide whether
    /// this was a lost link worth reconnecting or a local/user-requested stop.
    Disconnected { reason: u8 },
    Stopped { reason: String },
}

/// What a report says, whatever holds it.
#[allow(inconsistent_fields)]
pub enum News {
    AdapterReady { version: Seq<char>, address: Seq<char> },
    DeviceFound { name: Seq<char>, address: Seq<char>, rssi: i8, le_audio: bool },
    Connected { handle: u16 },
    CapabilitiesRead { summary: Seq<char> },
    StreamPlanned { summary: Seq<char> },
    Streaming {
        counters: Counted,
        backlog: usize,
        underruns: u64,
        quality: Seq<RadioQuality>,
    },
    CaptureReady { device: Seq<char>, format: Seq<char> },
    Idle { after: Duration },
    Yielded { after: Duration },
    Resumed,
    Battery { levels: Seq<u8> },
    BatteryAsked { reason: Seq<char> },
    Disconnected { reason: u8 },
    Stopped { reason: Seq<char> },
}

impl View for Progress {
    type V = News;

    open spec fn view(&self) -> News {
        match self {
            Progress::AdapterReady { version, address } => News::AdapterReady {
                version: version@,
                address: address@,
            },
            Progress::DeviceFound { name, address, rssi, le_audio } => News::DeviceFound {
                name: name@,
                address: address@,
                rssi: *rssi,
                le_audio: *le_audio,
            },
            Progress::Connected { handle } => News::Connected { handle: *handle },
            Progress::CapabilitiesRead { summary } => News::CapabilitiesRead { summary: summary@ },
            Progress::StreamPlanned { summary } => News::StreamPlanned { summary: summary@ },
            Progress::Streaming { counters, backlog, underruns, quality } => News::Streaming {
                counters: counters@,
                backlog: *backlog,
                underruns: *underruns,
                quality: quality@,
            },
            Progress::CaptureReady { device, format } => News::CaptureReady {
                device: device@,
                format: format@,
            },
            Progress::Idle { after } => News::Idle { after: *after },
            Progress::Yielded { after } => News::Yielded { after: *after },
            Progress::Resumed => News::Resumed,
            Progress::Battery { levels } => News::Battery { levels: levels@ },
            Progress::BatteryAsked { reason } => News::BatteryAsked { reason: reason@ },
            Progress::Disconnected { reason } => News::Disconnected { reason: *reason },
            Progress::Stopped { reason } => News::Stopped { reason: reason@ },
        }
    }
}

/// What reports say.
pub open spec fn news(v: Seq<Progress>) -> Seq<News> {
    v.map_values(|p: Progress| p@)
}

// ---------------------------------------------------------------------------
// Volume
// ---------------------------------------------------------------------------

/// The value that an ATT notification carries, if that is what a frame is.
pub open spec fn notified_in(frame: Frame) -> Option<(u16, Seq<u8>)> {
    let p = frame.payload;
    if frame.cid == CID_ATT && p.len() >= 3 && p[0] == HANDLE_VALUE_NOTIFICATION {
        Some((word_at(p, 1), p.skip(3)))
    } else {
        None
    }
}

/// Pulls an ATT notification apart, if that is what this frame is.
pub fn notification(frame: &L2capFrame) -> (r: Option<(u16, Vec<u8>)>)
    ensures
        r is Some <==> notified_in(frame@) is Some,
        r is Some ==> ({
            let (handle, value) = r->0;
            notified_in(frame@) == Some((handle, value@))
        }),
{
    let p = &frame.payload;
    if frame.cid != CID_ATT || p.len() < 3 || p[0] != HANDLE_VALUE_NOTIFICATION {
        return None;
    }
    let value = part(p.as_slice(), 3, p.len());
    assert(value@ =~= p@.skip(3));
    Some((word(p[1], p[2]), value))
}

/// Keeps the volume on the headphones and the Windows slider showing one number.
///
/// In LE Audio the headphones own the volume, so a press on the earcup is the
/// authoritative event and Windows has to follow it. Without this the buttons
/// look broken: they do change the volume, but only inside the headphones,
/// while the Windows slider stays where it was.
#[derive(Debug, Clone, Copy, PartialEq, Eq, Structural)]
pub struct VolumeBridge {
    pub handles: VolumeControlHandles,
    pub volume: VolumeState,
    /// Whether the slider of the system could be opened.
    pub slider: bool,
}

/// What a bridge says of itself.
pub open spec fn volume_text(state: VolumeState, slider: bool) -> Seq<char> {
    "hlasitost sluchatek "@ + decimal(state.percentage()) + " %"@ + (if state.muted {
        ", ztlumeno"@
    } else {
        Seq::empty()
    }) + "; "@ + (if slider {
        "the Windows volume slider will follow them"@
    } else {
        "posuvnik Windows se nepodarilo otevrit"@
    })
}

impl VolumeBridge {
    pub fn state(&self) -> (r: VolumeState)
        ensures
            r == self.volume,
    {
        self.volume
    }

    pub fn describe(&self) -> (r: String)
        ensures
            r@ == volume_text(self.volume, self.slider),
    {
        let mut out = String::new();
        out.append("hlasitost sluchatek ");
        push_decimal(&mut out, self.volume.percent() as u64);
        out.append(" %");
        if self.volume.muted {
            out.append(", ztlumeno");
        }
        out.append("; ");
        if self.slider {
            out.append("the Windows volume slider will follow them");
        } else {
            out.append("posuvnik Windows se nepodarilo otevrit");
        }
        assert(out@ =~= volume_text(self.volume, self.slider));
        out
    }

    /// Applies a Volume State notification, reporting whether anything moved.
    /// Where it did and there is a slider, the slider has to be moved along:
    /// mirrored, not translated, since both sides are a fraction of full scale.
    pub fn absorb(&mut self, value: &[u8]) -> (r: bool)
        ensures
            match volume_in(value@) {
                Some(state) => r == (state != old(self).volume) && *final(self) == (VolumeBridge {
                    volume: state,
                    ..*old(self)
                }),
                None => !r && *final(self) == *old(self),
            },
    {
        match parse_volume_state(value) {
            None => false,
            Some(state) => {
                if state == self.volume {
                    return false;
                }
                self.volume = state;
                true
            },
        }
    }
}

// ---------------------------------------------------------------------------
// The session
// ---------------------------------------------------------------------------

/// An adapter that was opened and brought up.
#[derive(Debug)]
pub struct Adapter {
    /// Its Bluetooth version, where it said one.
    pub version: Option<String>,
    pub address: Option<BdAddr>,
}

/// A session in progress.
#[derive(Debug)]
pub struct Session {
    config: SessionConfig,
    adapter: Option<Adapter>,
    write_policy: WritePolicy,
    volume: Option<VolumeBridge>,
}

/// What a session knows.
pub struct SessionState {
    pub config: Wishes,
    pub is_open: bool,
    pub local_version: Option<Seq<char>>,
    pub local_address: Option<Seq<u8>>,
    pub approved: Approved,
    pub volume: Option<VolumeBridge>,
}

impl View for Session {
    type V = SessionState;

    closed spec fn view(&self) -> SessionState {
        SessionState {
            config: self.config@,
            is_open: self.adapter is Some,
            local_version: match self.adapter {
                Some(a) => text_of(a.version),
                None => None,
            },
            local_address: match self.adapter {
                Some(a) => match a.address {
                    Some(address) => Some(address.0@),
                    None => None,
                },
                None => None,
            },
            approved: self.write_policy@,
            volume: self.volume,
        }
    }
}

/// What is reported of an adapter that came up.
pub open spec fn adapter_news(version: Option<Seq<char>>, address: Option<Seq<u8>>) -> News {
    News::AdapterReady {
        version: match version {
            Some(v) => "Bluetooth "@ + v,
            None => "unknown"@,
        },
        address: match address {
            Some(a) => crate::hci::address_text(a),
            None => "unknown"@,
        },
    }
}

/// What is reported of a device that was found.
pub open spec fn device_news(d: Heard) -> News {
    News::DeviceFound {
        name: match d.name {
            Some(name) => name,
            None => "(bez jmena)"@,
        },
        address: crate::hci::address_text(d.address),
        rssi: d.rssi,
        le_audio: d.announces_le_audio(),
    }
}

/// What a scan came to, whatever holds it.
pub open spec fn answers_of(r: Result<Vec<DiscoveredDevice>, String>) -> Result<
    Seq<Heard>,
    Seq<char>,
> {
    match r {
        Ok(answers) => Ok(heard(answers@)),
        Err(t) => Err(t@),
    }
}

/// What a scan found, or why it found nothing.
pub open spec fn scanned(is_open: bool, answers: Result<Seq<Heard>, Seq<char>>) -> Result<
    Seq<Heard>,
    Trouble,
> {
    if !is_open {
        Err(Trouble::NoDeviceFound)
    } else {
        match answers {
            Err(t) => Err(Trouble::Controller(t)),
            Ok(list) => if list.len() == 0 {
                Err(Trouble::NoDeviceFound)
            } else {
                Ok(in_order(gathered(list)))
            },
        }
    }
}

impl Session {
    pub fn new(config: SessionConfig) -> (r: Self)
        ensures
            r@ == (SessionState {
                config: config@,
                is_open: false,
                local_version: None,
                local_address: None,
                approved: Approved::nothing(),
                volume: None,
            }),
    {
        Session { config, adapter: None, write_policy: WritePolicy::new(), volume: None }
    }

    /// Takes over the adapter that was opened, or the reason why it was not.
    pub fn open_adapter(&mut self, opened: Result<Adapter, String>) -> (r: Result<
        Progress,
        SessionError,
    >)
        ensures
            match opened {
                Ok(adapter) => {
                    let address = match adapter.address {
                        Some(a) => Some(a.0@),
                        None => None,
                    };
                    &&& r is Ok
                    &&& r->Ok_0@ == adapter_news(text_of(adapter.version), address)
                    &&& final(self)@ == (SessionState {
                        is_open: true,
                        local_version: text_of(adapter.version),
                        local_address: address,
                        ..old(self)@
                    })
                },
                Err(t) => {
                    &&& r is Err
                    &&& r->Err_0@ == Trouble::Controller(t@)
                    &&& final(self)@ == old(self)@
                },
            },
    {
        let adapter: Adapter = match opened {
            Err(t) => {
                return Err(SessionError::Controller(t));
            },
            Ok(adapter) => adapter,
        };
        let mut version = String::new();
        match &adapter.version {
            Some(v) => {
                version.append("Bluetooth ");
                version.append(v.as_str());
                assert(version@ =~= "Bluetooth "@ + v@);
            },
            None => {
                version.append("unknown");
                assert(version@ =~= "unknown"@);
            },
        }
        let address: String = match &adapter.address {
            Some(a) => a.to_text(),
            None => "unknown".to_owned(),
        };
        self.adapter = Some(adapter);
        Ok(Progress::AdapterReady { version, address })
    }

    /// The volume of the headphones, where it can be followed.
    pub fn volume(&self) -> (r: Option<VolumeBridge>)
        ensures
            r == self@.volume,
    {
        self.volume
    }

    /// Keeps the volume that was followed while audio ran.
    pub fn keep_volume(&mut self, volume: Option<VolumeBridge>)
        ensures
            final(self)@ == (SessionState { volume, ..old(self)@ }),
    {
        self.volume = volume;
    }

    /// Whether an adapter is open.
    pub fn is_open(&self) -> (r: bool)
        ensures
            r == self@.is_open,
    {
        self.adapter.is_some()
    }

    /// Finishes a scan: everything that answered, in the order in which a person
    /// wants to see it, with a report of each. `answers` are the reports as they came,
    /// and a device may have sent several; or the controller's error.
    ///
    /// Everything that answers is kept, not only what advertises an LE Audio
    /// service. Plenty of headphones publish PACS only once connected, or send a
    /// shortened advertisement with no service list at all.
    pub fn scan(&self, answers: Result<Vec<DiscoveredDevice>, String>) -> (r: Result<
        (Vec<DiscoveredDevice>, Vec<Progress>),
        SessionError,
    >)
        ensures
            match scanned(self@.is_open, answers_of(answers)) {
                Err(e) => r is Err && r->Err_0@ == e,
                Ok(found) => r is Ok && ({
                    let (devices, reports) = r->Ok_0;
                    &&& heard(devices@) == found
                    &&& news(reports@) == found.map_values(|d: Heard| device_news(d))
                }),
            },
    {
        if self.adapter.is_none() {
            return Err(SessionError::NoDeviceFound);
        }
        let answers: Vec<DiscoveredDevice> = match answers {
            Err(t) => {
                return Err(SessionError::Controller(t));
            },
            Ok(answers) => answers,
        };
        if answers.len() == 0 {
            return Err(SessionError::NoDeviceFound);
        }
        let found = gather(answers.as_slice());
        let devices = order_found(found.as_slice());
        let mut reports: Vec<Progress> = Vec::new();
        let ghost wanted = heard(devices@).map_values(|d: Heard| device_news(d));
        let mut i: usize = 0;
        while i < devices.len()
            invariant
                i <= devices@.len(),
                wanted == heard(devices@).map_values(|d: Heard| device_news(d)),
                news(reports@) == wanted.take(i as int),
            decreases devices@.len() - i,
        {
            let device: &DiscoveredDevice = &devices[i];
            let ghost was = reports@;
            let name: String = match &device.name {
                Some(name) => name.as_str().to_owned(),
                None => "(bez jmena)".to_owned(),
            };
            let report = Progress::DeviceFound {
                name,
                address: device.address.to_text(),
                rssi: device.rssi,
                le_audio: device.is_le_audio(),
            };
            assert(report@ == wanted[i as int]);
            reports.push(report);
            assert(news(reports@) =~= news(was).push(report@));
            assert(news(reports@) =~= wanted.take(i + 1));
            i += 1;
        }
        assert(wanted.take(wanted.len() as int) =~= wanted);
        Ok((devices, reports))
    }

    /// Judges an attempt to connect: the controller's error, or the handle if the
    /// attempt completed.
    pub fn connect(&self, attempt: Result<Option<u16>, String>) -> (r: Result<u16, SessionError>)
        ensures
            match (self@.is_open, attempt) {
                (false, _) => r is Err && r->Err_0@ == Trouble::NoDeviceFound,
                (true, Err(t)) => r is Err && r->Err_0@ == Trouble::Controller(t@),
                (true, Ok(None)) => r is Err && r->Err_0@ == Trouble::ConnectFailed,
                (true, Ok(Some(handle))) => r is Ok && r->Ok_0 == handle,
            },
    {
        if self.adapter.is_none() {
            return Err(SessionError::NoDeviceFound);
        }
        match attempt {
            Err(t) => Err(SessionError::Controller(t)),
            Ok(None) => Err(SessionError::ConnectFailed),
            Ok(Some(handle)) => Ok(handle),
        }
    }

    /// Judges an attempt to turn encryption on: the controller's error, or
    /// whether the link is encrypted.
    ///
    /// Reusing the key of a bond is both faster and what a paired peripheral
    /// expects; running the full pairing exchange on every reconnect can make the
    /// peer reject an otherwise valid known host.
    pub fn resume_encryption(&self, attempt: Result<bool, String>) -> (r: Result<(), SessionError>)
        ensures
            match (self@.is_open, attempt) {
                (false, _) => r is Err && r->Err_0@ == Trouble::NoDeviceFound,
                (true, Err(t)) => r is Err && r->Err_0@ == Trouble::Controller(t@),
                (true, Ok(false)) => r is Err && r->Err_0@ == Trouble::EncryptionFailed,
                (true, Ok(true)) => r is Ok,
            },
    {
        if self.adapter.is_none() {
            return Err(SessionError::NoDeviceFound);
        }
        match attempt {
            Err(t) => Err(SessionError::Controller(t)),
            Ok(false) => Err(SessionError::EncryptionFailed),
            Ok(true) => Ok(()),
        }
    }

    /// What is reported once the device's capabilities are read.
    pub fn read_capabilities(&self, capabilities: &AudioCapabilities) -> (r: Progress)
        ensures
            r@ == (News::CapabilitiesRead { summary: capabilities_text(capabilities@) }),
    {
        Progress::CapabilitiesRead { summary: describe_capabilities(capabilities) }
    }

    /// Judges a plan: why there is none, why it may not be used, or what is
    /// reported of it. `allowed` is the verdict of the limits that hold for any
    /// device, whatever it claims to accept.
    pub fn plan_stream(
        &self,
        built: Result<(Preset, String), String>,
        allowed: Result<(), String>,
    ) -> (r: Result<Progress, SessionError>)
        ensures
            match (built, allowed) {
                (Err(t), _) => r is Err && r->Err_0@ == Trouble::Planning(t@),
                (Ok(_), Err(t)) => r is Err && r->Err_0@ == Trouble::UnsafeParameters(t@),
                (Ok((chosen, description)), Ok(())) => r is Ok && r->Ok_0@ == (
                News::StreamPlanned {
                    summary: if chosen != self@.config.preset {
                        description@ + " (fallback z "@ + self@.config.preset.name() + ")"@
                    } else {
                        description@
                    },
                }),
            },
    {
        let (chosen, description): (Preset, String) = match built {
            Err(t) => {
                return Err(SessionError::Planning(t));
            },
            Ok(pair) => pair,
        };
        if let Err(t) = allowed {
            return Err(SessionError::UnsafeParameters(t));
        }
        let ghost told = description@;
        let mut summary = description;
        if chosen != self.config.preset {
            summary.append(" (fallback z ");
            summary.append(self.config.preset.label());
            summary.append(")");
            assert(summary@ =~= told + " (fallback z "@ + self@.config.preset.name() + ")"@);
        }
        Ok(Progress::StreamPlanned { summary })
    }

    /// The configuration this session is running with.
    pub fn config(&self) -> (r: &SessionConfig)
        ensures
            r@ == self@.config,
    {
        &self.config
    }

    /// Changes settings between steps.
    ///
    /// The app changes scan length and little else while a session is alive, and
    /// everything baked into a stream is fixed when the stream is planned.
    pub fn config_mut(&mut self) -> (r: &mut SessionConfig)
        ensures
            r@ == old(self)@.config,
            final(self)@ == (SessionState { config: final(r)@, ..old(self)@ }),
    {
        &mut self.config
    }

    /// A link for GATT work over an established connection.
    pub fn open_link(&self, handle: u16) -> (r: Result<Link, SessionError>)
        ensures
            r is Ok <==> self@.is_open,
            r is Err ==> r->Err_0@ == Trouble::NoDeviceFound,
            r is Ok ==> r->Ok_0@ == LinkState::fresh(handle),
    {
        if self.adapter.is_none() {
            return Err(SessionError::NoDeviceFound);
        }
        Ok(Link::new(handle))
    }

    /// Ends a connection properly, so the peer can be reached again: the command,
    /// where there is a controller to send it to.
    pub fn disconnect(&self, handle: u16) -> (r: Option<Vec<u8>>)
        ensures
            r is Some <==> self@.is_open,
            r is Some ==> r->0@ == disconnect_command(handle),
    {
        if self.adapter.is_none() {
            return None;
        }
        Some(crate::hci::disconnect(handle, crate::hci::REASON_REMOTE_USER_TERMINATED))
    }

    /// The commands that disconnect channels that did come up, so the group can
    /// be removed.
    ///
    /// A group with an established channel in it cannot be removed, and the ASE
    /// belonging to that channel is still busy - so a retry would find the device
    /// unable to answer.
    pub fn release_cis(&self, handles: &[u16]) -> (r: Vec<Vec<u8>>)
        ensures
            packets(r@) == (if self@.is_open {
                handles@.map_values(|h: u16| disconnect_command(h))
            } else {
                Seq::empty()
            }),
    {
        let mut out: Vec<Vec<u8>> = Vec::new();
        let ghost wanted = if self@.is_open {
            handles@.map_values(|h: u16| disconnect_command(h))
        } else {
            Seq::empty()
        };
        if self.adapter.is_none() {
            assert(packets(out@) =~= wanted);
            return out;
        }
        let mut i: usize = 0;
        while i < handles.len()
            invariant
                i <= handles@.len(),
                self@.is_open,
                wanted == handles@.map_values(|h: u16| disconnect_command(h)),
                packets(out@) == wanted.take(i as int),
            decreases handles@.len() - i,
        {
            let ghost was = out@;
            if let Some(command) = self.disconnect(handles[i]) {
                out.push(command);
                assert(packets(out@) =~= packets(was).push(command@));
            }
            assert(packets(out@) =~= wanted.take(i + 1));
            i += 1;
        }
        assert(wanted.take(wanted.len() as int) =~= wanted);
        out
    }

    /// The command that tears the isochronous group down, so a retry starts from
    /// nothing. Its outcome is of no interest: this runs on the failure path, and
    /// a second error would replace the one worth reporting.
    pub fn release_isochronous(&self, plan: &StreamPlan) -> (r: Option<Vec<u8>>)
        ensures
            r is Some <==> self@.is_open,
            r is Some ==> r->0@ == command_bytes(LE_REMOVE_CIG, seq![plan@.cig_id]),
    {
        if self.adapter.is_none() {
            return None;
        }
        Some(le_remove_cig(plan.cig_id))
    }

    /// Lets the adapter go. True where reads are still blocked on it: waking them
    /// first is what actually closes the handle.
    pub fn shutdown(&mut self) -> (r: bool)
        ensures
            r == old(self)@.is_open,
            final(self)@ == (SessionState {
                is_open: false,
                local_version: None,
                local_address: None,
                ..old(self)@
            }),
    {
        let was_open: bool = self.adapter.is_some();
        self.adapter = None;
        was_open
    }
}

/// The command that ends a connection.
pub open spec fn disconnect_command(handle: u16) -> Seq<u8> {
    command_bytes(DISCONNECT, crate::bytes::word_bytes(handle) + seq![0x13u8])
}

// ---------------------------------------------------------------------------
// Pairing
// ---------------------------------------------------------------------------

/// The five exchanges of LE Secure Connections pairing, by what the peer sends.
#[derive(Debug, Clone, Copy, PartialEq, Eq, Structural)]
pub enum PairingRound {
    Response,
    PublicKey,
    /// Comes unprompted.
    Confirm,
    /// The nonce, checked against the confirm value that it was committed to.
    Random,
    /// Proof that both sides derived the same key.
    Check,
}

/// What pairing needs next.
#[derive(Debug)]
pub enum PairingStep {
    /// Make the request that opens the exchange between these addresses.
    Start { local: BdAddr, peer: BdAddr, peer_is_random: bool },
    /// Send this, and wait for the peer's next PDU.
    Exchange(Vec<u8>),
    /// Send nothing, and wait for the peer's next PDU.
    Receive,
    /// Work out what the peer's PDU calls for in this round.
    Handle(PairingRound, Vec<u8>),
    /// Turn encryption on with this key.
    Encrypt(Vec<u8>),
    Failed(SessionError),
}

/// What pairing needs next, whatever holds it.
pub enum PairingNeed {
    Start { local: Seq<u8>, peer: Seq<u8>, peer_is_random: bool },
    Exchange(Seq<u8>),
    Receive,
    Handle(PairingRound, Seq<u8>),
    Encrypt(Seq<u8>),
    Failed(Trouble),
}

impl View for PairingStep {
    type V = PairingNeed;

    open spec fn view(&self) -> PairingNeed {
        match self {
            PairingStep::Start { local, peer, peer_is_random } => PairingNeed::Start {
                local: local.0@,
                peer: peer.0@,
                peer_is_random: *peer_is_random,
            },
            PairingStep::Exchange(p) => PairingNeed::Exchange(p@),
            PairingStep::Receive => PairingNeed::Receive,
            PairingStep::Handle(round, p) => PairingNeed::Handle(*round, p@),
            PairingStep::Encrypt(key) => PairingNeed::Encrypt(key@),
            PairingStep::Failed(e) => PairingNeed::Failed(e@),
        }
    }
}

/// What came of each step so far.
pub open spec fn outcomes(v: Seq<Result<Vec<u8>, SessionError>>) -> Seq<
    Result<Seq<u8>, Trouble>,
> {
    v.map_values(
        |r: Result<Vec<u8>, SessionError>|
            match r {
                Ok(p) => Ok(p@),
                Err(e) => Err(e@),
            },
    )
}

/// The first step that failed.
pub open spec fn first_failure(s: Seq<Result<Seq<u8>, Trouble>>) -> Option<Trouble>
    decreases s.len(),
{
    if s.len() == 0 {
        None
    } else {
        match first_failure(s.drop_last()) {
            Some(e) => Some(e),
            None => match s.last() {
                Ok(_) => None,
                Err(e) => Some(e),
            },
        }
    }
}

/// The round that the `n`th outcome belongs to.
pub open spec fn round_of(n: nat) -> PairingRound {
    if n <= 2 {
        PairingRound::Response
    } else if n <= 4 {
        PairingRound::PublicKey
    } else if n <= 6 {
        PairingRound::Confirm
    } else if n <= 8 {
        PairingRound::Random
    } else {
        PairingRound::Check
    }
}

/// What pairing needs, given what came of it so far: the request, then for each
/// round the peer's PDU and what it calls for, and at the end the key. A step
/// that failed ends it, and so does not knowing one's own address.
pub open spec fn pairing_need(
    local: Option<Seq<u8>>,
    peer: Heard,
    s: Seq<Result<Seq<u8>, Trouble>>,
) -> PairingNeed {
    let n = s.len();
    match (local, first_failure(s)) {
        (None, _) => PairingNeed::Failed(Trouble::NoDeviceFound),
        (_, Some(e)) => PairingNeed::Failed(e),
        (Some(local), None) => if n == 0 {
            PairingNeed::Start {
                local,
                peer: peer.address,
                peer_is_random: peer.address_type != 0,
            }
        } else {
            let last = s.last()->Ok_0;
            if n >= 11 {
                PairingNeed::Encrypt(last)
            } else if n % 2 == 0 {
                PairingNeed::Handle(round_of(n), last)
            } else if n == 5 {
                PairingNeed::Receive
            } else {
                PairingNeed::Exchange(last)
            }
        },
    }
}

impl Session {
    /// What pairing needs next, given what came of each step so far.
    ///
    /// LE Audio characteristics sit behind encryption, so without this PACS stays
    /// unreadable no matter how correct the rest of the stack is.
    pub fn pair(
        &self,
        peer: &DiscoveredDevice,
        results: &[Result<Vec<u8>, SessionError>],
    ) -> (r: PairingStep)
        ensures
            r@ == pairing_need(self@.local_address, peer@, outcomes(results@)),
    {
        let local: BdAddr = match &self.adapter {
            Some(Adapter { version, address: Some(address) }) => *address,
            _ => {
                return PairingStep::Failed(SessionError::NoDeviceFound);
            },
        };
        assert(self@.local_address == Some(local.0@));
        let ghost s = outcomes(results@);
        let mut i: usize = 0;
        assert(s.take(0) =~= Seq::empty());
        while i < results.len()
            invariant
                i <= results@.len(),
                s == outcomes(results@),
                self@.local_address == Some(local.0@),
                first_failure(s.take(i as int)) is None,
            decreases results@.len() - i,
        {
            assert(s.take(i + 1).drop_last() =~= s.take(i as int));
            assert(s.take(i + 1).last() == s[i as int]);
            if let Err(e) = &results[i] {
                proof {
                    lemma_first_failure(s, i as int);
                }
                return PairingStep::Failed(e.clone());
            }
            i += 1;
        }
        assert(s.take(s.len() as int) =~= s);
        let n: usize = results.len();
        if n == 0 {
            return PairingStep::Start {
                local,
                peer: peer.address,
                peer_is_random: peer.address_type != 0,
            };
        }
        assert(s.last() == s[n - 1]);
        proof {
            assert(s.take(n as int).last() is Ok);
        }
        match &results[n - 1] {
            Err(e) => PairingStep::Failed(e.clone()),
            Ok(last) => {
                let last = copied(last.as_slice());
                if n >= 11 {
                    PairingStep::Encrypt(last)
                } else if n % 2 == 0 {
                    let round: PairingRound = if n <= 2 {
                        PairingRound::Response
                    } else if n <= 4 {
                        PairingRound::PublicKey
                    } else if n <= 6 {
                        PairingRound::Confirm
                    } else if n <= 8 {
                        PairingRound::Random
                    } else {
                        PairingRound::Check
                    };
                    PairingStep::Handle(round, last)
                } else if n == 5 {
                    PairingStep::Receive
                } else {
                    PairingStep::Exchange(last)
                }
            },
        }
    }
}

/// What failed first stays what failed first.
proof fn lemma_first_failure(s: Seq<Result<Seq<u8>, Trouble>>, i: int)
    requires
        0 <= i < s.len(),
        s[i] is Err,
        first_failure(s.take(i)) is None,
    ensures
        first_failure(s) == Some(s[i]->Err_0),
    decreases s.len(),
{
    if i == s.len() - 1 {
        assert(s.drop_last() =~= s.take(i));
    } else {
        assert(s.drop_last().take(i) =~= s.take(i));
        lemma_first_failure(s.drop_last(), i);
    }
}

/// A key is only ever handed over for encryption after every round: the peer's
/// confirm came before our nonce went out, and its proof before the key is used.
pub proof fn lemma_key_comes_last(
    local: Option<Seq<u8>>,
    peer: Heard,
    s: Seq<Result<Seq<u8>, Trouble>>,
)
    ensures
        pairing_need(local, peer, s) is Encrypt ==> s.len() >= 11 && forall|i: int|
            0 <= i < s.len() ==> (#[trigger] s[i]) is Ok,
{
    if pairing_need(local, peer, s) is Encrypt {
        assert forall|i: int| 0 <= i < s.len() implies (#[trigger] s[i]) is Ok by {
            lemma_no_failure(s, i);
        }
    }
}

proof fn lemma_no_failure(s: Seq<Result<Seq<u8>, Trouble>>, i: int)
    requires
        first_failure(s) is None,
        0 <= i < s.len(),
    ensures
        s[i] is Ok,
    decreases s.len(),
{
    if i < s.len() - 1 {
        lemma_no_failure(s.drop_last(), i);
    }
}

// ---------------------------------------------------------------------------
// Writing to the headphones
// ---------------------------------------------------------------------------

/// Operations written one after the other, up to the first that fails.
pub open spec fn operations_stage(
    s: Seq<Said>,
    at: int,
    handle: u16,
    operations: Seq<Seq<u8>>,
) -> Stage<()>
    decreases operations.len(),
{
    if operations.len() == 0 {
        Stage::Done((), at)
    } else {
        match sent_stage(s, at, handle, operations[0]) {
            Stage::Ask(pdu) => Stage::Ask(pdu),
            Stage::Failed(e, n) => Stage::Failed(e, n),
            Stage::Done(_, n) => operations_stage(s, n, handle, operations.skip(1)),
        }
    }
}

/// Writes that nobody depends on: each is tried where it is approved, whatever
/// came of the one before.
pub open spec fn courtesy_stage(
    ours: Approved,
    theirs: Approved,
    s: Seq<Said>,
    at: int,
    handle: u16,
    pdus: Seq<Seq<u8>>,
) -> Stage<()>
    decreases pdus.len(),
{
    if pdus.len() == 0 || !ours.permits(handle) {
        Stage::Done((), at)
    } else {
        match write_stage(theirs, s, at, handle, pdus[0]) {
            Stage::Ask(pdu) => Stage::Ask(pdu),
            Stage::Failed(_, n) | Stage::Done(_, n) => courtesy_stage(
                ours,
                theirs,
                s,
                n,
                handle,
                pdus.skip(1),
            ),
        }
    }
}

/// The volume is hooked up: the service is found, notifications are turned on and
/// the state is read. A device without the service has no remote volume, which is
/// no failure.
pub open spec fn attach_stage(s: Seq<Said>, at: int, slider: bool) -> Stage<Option<VolumeBridge>> {
    match volume_control_stage(s, at) {
        Stage::Ask(pdu) => Stage::Ask(pdu),
        Stage::Failed(e, n) => Stage::Failed(e, n),
        Stage::Done(None, n) => Stage::Done(None, n),
        Stage::Done(Some(handles), n) => match sent_stage(
            s,
            n,
            handles.state_cccd,
            seq![1, 0],
        ) {
            Stage::Ask(pdu) => Stage::Ask(pdu),
            Stage::Failed(e, m) => Stage::Failed(e, m),
            Stage::Done(_, m) => match volume_state_stage(s, m, handles.state) {
                Stage::Ask(pdu) => Stage::Ask(pdu),
                Stage::Failed(e, k) => Stage::Failed(e, k),
                Stage::Done(state, k) => Stage::Done(
                    Some(
                        VolumeBridge {
                            handles,
                            volume: match state {
                                Some(state) => state,
                                None => VolumeState::unknown(),
                            },
                            slider,
                        },
                    ),
                    k,
                ),
            },
        },
    }
}

/// What is approved once the volume handles are known.
pub open spec fn with_volume(approved: Approved, handles: VolumeControlHandles) -> Approved {
    Approved {
        volume_control_point: Some(handles.control_point),
        subscriptions: approved.subscriptions.insert(handles.state_cccd),
        ..approved
    }
}

impl Session {
    /// Sends the ASCS configuration, having first checked every write is allowed.
    pub fn configure_stream(
        &mut self,
        link: &mut Link,
        control_point: u16,
        sequence: &[Vec<u8>],
        replies: &[Reply],
        at: usize,
    ) -> (r: Step<()>)
        ensures
            r@ == operations_stage(
                said(replies@),
                at as int,
                control_point,
                packets(sequence@),
            ),
            final(self)@ == (SessionState {
                approved: Approved {
                    ase_control_point: Some(control_point),
                    ..old(self)@.approved
                },
                ..old(self)@
            }),
            final(link)@ == (LinkState {
                approved: Approved {
                    ase_control_point: Some(control_point),
                    ..old(link)@.approved
                },
                ..old(link)@
            }),
    {
        self.write_ascs(link, control_point, sequence, replies, at)
    }

    /// Sends a list of ASCS operations, each checked before it leaves.
    ///
    /// The handle is approved on both layers: the session tracks it for
    /// reporting, the link enforces it on every write that leaves this process.
    pub fn write_ascs(
        &mut self,
        link: &mut Link,
        control_point: u16,
        operations: &[Vec<u8>],
        replies: &[Reply],
        at: usize,
    ) -> (r: Step<()>)
        ensures
            r@ == operations_stage(
                said(replies@),
                at as int,
                control_point,
                packets(operations@),
            ),
            final(self)@ == (SessionState {
                approved: Approved {
                    ase_control_point: Some(control_point),
                    ..old(self)@.approved
                },
                ..old(self)@
            }),
            final(link)@ == (LinkState {
                approved: Approved {
                    ase_control_point: Some(control_point),
                    ..old(link)@.approved
                },
                ..old(link)@
            }),
    {
        self.write_policy.allow_ase_control_point(control_point);
        link.allow_writes_to(control_point);
        let ghost s = said(replies@);
        let ghost ops = packets(operations@);
        let ghost goal = operations_stage(s, at as int, control_point, ops);
        let ghost ours = self@;
        let ghost theirs = link@;
        let mut next: usize = at;
        let mut i: usize = 0;
        assert(ops.skip(0) =~= ops);
        while i < operations.len()
            invariant
                i <= operations@.len(),
                s == said(replies@),
                ops == packets(operations@),
                self@ == ours,
                link@ == theirs,
                ours.approved.ase_control_point == Some(control_point),
                theirs.approved.ase_control_point == Some(control_point),
                goal == operations_stage(s, next as int, control_point, ops.skip(i as int)),
                goal == operations_stage(said(replies@), at as int, control_point, ops),
                ours == (SessionState {
                    approved: Approved {
                        ase_control_point: Some(control_point),
                        ..old(self)@.approved
                    },
                    ..old(self)@
                }),
                theirs == (LinkState {
                    approved: Approved {
                        ase_control_point: Some(control_point),
                        ..old(link)@.approved
                    },
                    ..old(link)@
                }),
            decreases operations@.len() - i,
        {
            assert(ops.skip(i as int)[0] == operations@[i as int]@);
            assert(ops.skip(i as int).skip(1) =~= ops.skip(i + 1));
            if let Err(violation) = self.write_policy.check_write(control_point) {
                return Step::Failed(LinkError::Unsafe(violation), next);
            }
            match link.write_characteristic(
                control_point,
                operations[i].as_slice(),
                replies,
                next,
            ) {
                Step::Ask(pdu) => {
                    return Step::Ask(pdu);
                },
                Step::Failed(e, n) => {
                    return Step::Failed(e, n);
                },
                Step::Done(_, n) => {
                    next = n;
                },
            }
            i += 1;
        }
        Step::Done((), next)
    }

    /// Hooks up the headphones' volume buttons, if they have any. The bridge
    /// describes itself.
    ///
    /// Absence is not failure. A device with no Volume Control Service simply
    /// has no remote volume, and reporting that as an error would stop a stream
    /// that is otherwise perfectly fine.
    pub fn attach_volume_control(
        &mut self,
        link: &mut Link,
        slider: bool,
        replies: &[Reply],
        at: usize,
    ) -> (r: Step<Option<VolumeBridge>>)
        ensures
            r@ == attach_stage(said(replies@), at as int, slider),
            match volume_control_stage(said(replies@), at as int) {
                Stage::Done(Some(handles), _) => {
                    &&& final(self)@ == (SessionState {
                        approved: with_volume(old(self)@.approved, handles),
                        volume: match attach_stage(said(replies@), at as int, slider) {
                            Stage::Done(Some(bridge), _) => Some(bridge),
                            _ => old(self)@.volume,
                        },
                        ..old(self)@
                    })
                    &&& final(link)@ == (LinkState {
                        approved: with_volume(old(link)@.approved, handles),
                        ..old(link)@
                    })
                },
                _ => final(self)@ == old(self)@ && final(link)@ == old(link)@,
            },
    {
        let (found, next): (Option<VolumeControlHandles>, usize) =
            match Link::discover_volume_control(replies, at) {
            Step::Ask(pdu) => {
                return Step::Ask(pdu);
            },
            Step::Failed(e, n) => {
                return Step::Failed(e, n);
            },
            Step::Done(found, n) => (found, n),
        };
        let handles: VolumeControlHandles = match found {
            None => {
                return Step::Done(None, next);
            },
            Some(handles) => handles,
        };
        // Approve on both layers, exactly as the ASE control point is.
        self.write_policy.allow_volume_control_point(handles.control_point);
        self.write_policy.allow_subscription(handles.state_cccd);
        link.allow_volume_writes_to(handles.control_point);
        let next: usize = match link.subscribe(handles.state_cccd, replies, next) {
            Step::Ask(pdu) => {
                return Step::Ask(pdu);
            },
            Step::Failed(e, n) => {
                return Step::Failed(e, n);
            },
            Step::Done(_, n) => n,
        };
        match Link::read_volume_state(handles.state, replies, next) {
            Step::Ask(pdu) => Step::Ask(pdu),
            Step::Failed(e, n) => Step::Failed(e, n),
            Step::Done(state, n) => {
                let volume: VolumeState = match state {
                    Some(state) => state,
                    None => VolumeState { setting: 0, muted: false, change_counter: 0 },
                };
                let bridge = VolumeBridge { handles, volume, slider };
                self.volume = Some(bridge);
                Step::Done(Some(bridge), n)
            },
        }
    }

    /// Sets the headphones' volume from a level between nothing and full. Without
    /// a bridge there is nothing to set.
    pub fn set_volume(&self, link: &Link, level: Number, replies: &[Reply], at: usize) -> (r: Result<
        Step<()>,
        SessionError,
    >)
        requires
            level.wf(),
        ensures
            match self@.volume {
                None => r is Ok && r->Ok_0@ == Stage::<()>::Done((), at as int),
                Some(bridge) => {
                    let handle = bridge.handles.control_point;
                    let pdu = absolute_pdu(bridge.volume, setting_of(level) as u8);
                    if self@.approved.permits(handle) {
                        r is Ok && r->Ok_0@ == write_stage(
                            link@.approved,
                            said(replies@),
                            at as int,
                            handle,
                            pdu,
                        )
                    } else {
                        r is Err && r->Err_0@ == Trouble::Safety(SafetyViolation { handle })
                    }
                },
            },
    {
        let bridge: VolumeBridge = match self.volume {
            None => {
                return Ok(Step::Done((), at));
            },
            Some(bridge) => bridge,
        };
        let setting: u8 = VolumeState::setting_from_scalar(level);
        let pdu = set_absolute(&bridge.volume, setting);
        if let Err(violation) = self.write_policy.check_write(bridge.handles.control_point) {
            return Err(SessionError::Safety(violation));
        }
        Ok(
            link.write_characteristic(
                bridge.handles.control_point,
                pdu.as_slice(),
                replies,
                at,
            ),
        )
    }

    /// Tries writes that nobody depends on.
    fn write_each(
        &self,
        link: &Link,
        control_point: u16,
        pdus: &[Vec<u8>],
        replies: &[Reply],
        at: usize,
    ) -> (r: Step<()>)
        ensures
            r@ == courtesy_stage(
                self@.approved,
                link@.approved,
                said(replies@),
                at as int,
                control_point,
                packets(pdus@),
            ),
            r !is Failed,
    {
        let ghost s = said(replies@);
        let ghost ops = packets(pdus@);
        let ghost goal = courtesy_stage(
            self@.approved,
            link@.approved,
            s,
            at as int,
            control_point,
            ops,
        );
        let mut next: usize = at;
        let mut i: usize = 0;
        assert(ops.skip(0) =~= ops);
        while i < pdus.len()
            invariant
                i <= pdus@.len(),
                s == said(replies@),
                ops == packets(pdus@),
                goal == courtesy_stage(
                    self@.approved,
                    link@.approved,
                    s,
                    next as int,
                    control_point,
                    ops.skip(i as int),
                ),
                goal == courtesy_stage(
                    self@.approved,
                    link@.approved,
                    said(replies@),
                    at as int,
                    control_point,
                    ops,
                ),
            decreases pdus@.len() - i,
        {
            assert(ops.skip(i as int)[0] == pdus@[i as int]@);
            assert(ops.skip(i as int).skip(1) =~= ops.skip(i + 1));
            if self.write_policy.check_write(control_point).is_err() {
                return Step::Done((), next);
            }
            match link.write_characteristic(control_point, pdus[i].as_slice(), replies, next) {
                Step::Ask(pdu) => {
                    return Step::Ask(pdu);
                },
                Step::Failed(_, n) => {
                    next = n;
                },
                Step::Done(_, n) => {
                    next = n;
                },
            }
            i += 1;
        }
        Step::Done((), next)
    }

    /// Tells Source ASEs that this client is ready to receive their audio.
    ///
    /// Playback configures Sink ASEs, so that path deliberately does not call
    /// this: for a Sink ASE the server in the headphones must transition to
    /// Streaming autonomously.
    pub fn start_receivers(
        &self,
        link: &mut Link,
        control_point: u16,
        ase_ids: &[u8],
        replies: &[Reply],
        at: usize,
    ) -> (r: Step<()>)
        ensures
            r@ == courtesy_stage(
                self@.approved,
                old(link)@.approved,
                said(replies@),
                at as int,
                control_point,
                ase_ids@.map_values(|id: u8| start_ready_pdu(id)),
            ),
            r !is Failed,
            final(link)@ == (LinkState {
                att_timeout: if r is Ask {
                    Duration { nanos: 700_000_000 }
                } else {
                    Duration { nanos: 5_000_000_000 }
                },
                ..old(link)@
            }),
    {
        let mut pdus: Vec<Vec<u8>> = Vec::new();
        let ghost wanted = ase_ids@.map_values(|id: u8| start_ready_pdu(id));
        let mut i: usize = 0;
        while i < ase_ids.len()
            invariant
                i <= ase_ids@.len(),
                wanted == ase_ids@.map_values(|id: u8| start_ready_pdu(id)),
                packets(pdus@) == wanted.take(i as int),
            decreases ase_ids@.len() - i,
        {
            let ghost was = pdus@;
            let pdu = receiver_start_ready(ase_ids[i]);
            pdus.push(pdu);
            assert(packets(pdus@) =~= packets(was).push(pdu@));
            assert(packets(pdus@) =~= wanted.take(i + 1));
            i += 1;
        }
        assert(wanted.take(wanted.len() as int) =~= wanted);
        link.set_att_timeout(Duration::from_millis(700));
        let step = self.write_each(link, control_point, pdus.as_slice(), replies, at);
        if let Step::Done(_, _) = &step {
            link.set_att_timeout(att_timeout());
        }
        step
    }

    /// Puts endpoints back to Idle before the link goes away.
    ///
    /// Without this the headphones keep their streams in Enabling or Streaming
    /// after we vanish. The next connection then tries to configure an ASE that
    /// is, from the device's point of view, already busy - an invalid state
    /// transition - and the device answers by refusing the isochronous channel.
    /// The symptom is that the first connection after starting the app works and
    /// every one after it fails, which reads as the headphones being flaky.
    ///
    /// Failures are ignored: this runs while tearing down, and a device that has
    /// already forgotten the ASE is not a problem worth reporting.
    pub fn release_streams(
        &self,
        link: &mut Link,
        control_point: u16,
        ase_ids: &[u8],
        replies: &[Reply],
        at: usize,
    ) -> (r: Step<()>)
        ensures
            r@ == courtesy_stage(
                self@.approved,
                old(link)@.approved,
                said(replies@),
                at as int,
                control_point,
                ase_ids@.map_values(|id: u8| release_pdu(id)),
            ),
            r !is Failed,
            final(link)@ == (LinkState {
                att_timeout: if r is Ask {
                    Duration { nanos: 800_000_000 }
                } else {
                    Duration { nanos: 5_000_000_000 }
                },
                ..old(link)@
            }),
    {
        let mut pdus: Vec<Vec<u8>> = Vec::new();
        let ghost wanted = ase_ids@.map_values(|id: u8| release_pdu(id));
        let mut i: usize = 0;
        while i < ase_ids.len()
            invariant
                i <= ase_ids@.len(),
                wanted == ase_ids@.map_values(|id: u8| release_pdu(id)),
                packets(pdus@) == wanted.take(i as int),
            decreases ase_ids@.len() - i,
        {
            let ghost was = pdus@;
            let pdu = release(ase_ids[i]);
            pdus.push(pdu);
            assert(packets(pdus@) =~= packets(was).push(pdu@));
            assert(packets(pdus@) =~= wanted.take(i + 1));
            i += 1;
        }
        assert(wanted.take(wanted.len() as int) =~= wanted);
        // Short, then back to normal: this is a courtesy to the device, not
        // something worth freezing the program over.
        link.set_att_timeout(Duration::from_millis(800));
        let step = self.write_each(link, control_point, pdus.as_slice(), replies, at);
        if let Step::Done(_, _) = &step {
            link.set_att_timeout(att_timeout());
        }
        step
    }

    /// Puts every endpoint the device has back to Idle, microphone included.
    ///
    /// A source ASE left configured by whatever connected last still holds the
    /// controller's isochronous budget, and this device only offers so much of
    /// it. Starting from a known-empty state costs two writes and removes a
    /// whole class of "it worked the first time and never again".
    pub fn release_all_streams(
        &self,
        link: &mut Link,
        control_point: u16,
        capabilities: &AudioCapabilities,
        replies: &[Reply],
        at: usize,
    ) -> (r: Step<()>)
        ensures
            r@ == courtesy_stage(
                self@.approved,
                old(link)@.approved,
                said(replies@),
                at as int,
                control_point,
                every_endpoint(capabilities@).map_values(|id: u8| release_pdu(id)),
            ),
            r !is Failed,
            final(link)@ == (LinkState {
                att_timeout: if r is Ask {
                    Duration { nanos: 800_000_000 }
                } else {
                    Duration { nanos: 5_000_000_000 }
                },
                ..old(link)@
            }),
    {
        let mut everything = copied(capabilities.sink_ase_ids.as_slice());
        let mut sources = copied(capabilities.source_ase_ids.as_slice());
        everything.append(&mut sources);
        self.release_streams(link, control_point, everything.as_slice(), replies, at)
    }
}

/// Every endpoint of a device, sinks first.
pub open spec fn every_endpoint(c: Published) -> Seq<u8> {
    c.sink_ase_ids + c.source_ase_ids
}

// ---------------------------------------------------------------------------
// What holds of a session
// ---------------------------------------------------------------------------

/// Ending a connection is one command, byte by byte: Disconnect, the handle, and that the
/// user over here wanted it.
pub proof fn lemma_disconnect_names_its_connection(handle: u16)
    ensures
        ({
            let c = disconnect_command(handle);
            &&& c.len() == 6
            &&& c[0] == 0x06 && c[1] == 0x04 && c[2] == 3
            &&& c[3] as int + 256 * (c[4] as int) == handle
            &&& c[5] == 0x13
        }),
{
}

/// Pairing fails exactly where a step failed, with what failed first.
pub proof fn lemma_pairing_fails_with_its_first_failure(
    local: Seq<u8>,
    peer: Heard,
    s: Seq<Result<Seq<u8>, Trouble>>,
    i: int,
)
    requires
        0 <= i < s.len(),
        s[i] is Err,
        forall|k: int| 0 <= k < i ==> (#[trigger] s[k]) is Ok,
    ensures
        pairing_need(Some(local), peer, s) == PairingNeed::Failed(s[i]->Err_0),
        pairing_need(None, peer, s) == PairingNeed::Failed(Trouble::NoDeviceFound),
{
    assert(first_failure(s.take(i)) is None) by {
        lemma_all_went_well(s.take(i));
    }
    lemma_first_failure(s, i);
}

proof fn lemma_all_went_well(s: Seq<Result<Seq<u8>, Trouble>>)
    requires
        forall|k: int| 0 <= k < s.len() ==> (#[trigger] s[k]) is Ok,
    ensures
        first_failure(s) is None,
    decreases s.len(),
{
    if s.len() > 0 {
        let front = s.drop_last();
        assert forall|k: int| 0 <= k < front.len() implies (#[trigger] front[k]) is Ok by {
            assert(s[k] is Ok);
        }
        lemma_all_went_well(front);
        assert(s[s.len() - 1] is Ok);
    }
}

/// Pairing goes round by round, and what it worked out last is what it uses next: it
/// starts between the two addresses as they are; what a round calls for is sent, and the
/// peer's next word goes to the next round; the confirm value of the peer is waited for
/// with nothing sent; and the last result is the key.
pub proof fn lemma_pairing_goes_round_by_round(
    local: Seq<u8>,
    peer: Heard,
    s: Seq<Result<Seq<u8>, Trouble>>,
)
    requires
        forall|k: int| 0 <= k < s.len() ==> (#[trigger] s[k]) is Ok,
    ensures
        ({
            let need = pairing_need(Some(local), peer, s);
            let n = s.len();
            &&& n == 0 ==> need == (PairingNeed::Start {
                local,
                peer: peer.address,
                peer_is_random: peer.address_type != 0,
            })
            &&& n == 1 || n == 3 || n == 7 || n == 9 ==> need == PairingNeed::Exchange(
                s.last()->Ok_0,
            )
            &&& n == 5 ==> need == PairingNeed::Receive
            &&& n == 2 ==> need == PairingNeed::Handle(PairingRound::Response, s.last()->Ok_0)
            &&& n == 4 ==> need == PairingNeed::Handle(PairingRound::PublicKey, s.last()->Ok_0)
            &&& n == 6 ==> need == PairingNeed::Handle(PairingRound::Confirm, s.last()->Ok_0)
            &&& n == 8 ==> need == PairingNeed::Handle(PairingRound::Random, s.last()->Ok_0)
            &&& n == 10 ==> need == PairingNeed::Handle(PairingRound::Check, s.last()->Ok_0)
            &&& n == 11 ==> need == PairingNeed::Encrypt(s.last()->Ok_0)
        }),
{
    lemma_all_went_well(s);
}

/// Everything that configures a stream is written, in its order, to the control point,
/// and each write was answered before the next: where it ends well, the request after so
/// many answers was the write of the operation with that number.
pub proof fn lemma_every_operation_is_written(
    s: Seq<Said>,
    at: int,
    handle: u16,
    operations: Seq<Seq<u8>>,
    i: int,
)
    requires
        0 <= at <= s.len(),
        operations_stage(s, at, handle, operations) is Done,
        0 <= i < operations.len(),
    ensures
        operations_stage(s, at, handle, operations) == Stage::Done((), at + operations.len()),
        at + operations.len() <= s.len(),
        operations_stage(s.take(at + i), at, handle, operations) matches Stage::Ask(p) && writes(
            p,
            handle,
            operations[i],
        ),
    decreases operations.len(),
{
    let rest = operations.skip(1);
    assert(at < s.len());
    lemma_write_needs_an_answer(s, at, handle, operations[0]);
    lemma_write_on_air(handle, operations[0]);
    if i > 0 {
        lemma_every_operation_is_written(s, at + 1, handle, rest, i - 1);
        assert(at + 1 + (i - 1) == at + i);
        assert(s.take(at + i)[at] == s[at]);
        assert(rest[i - 1] == operations[i]);
    } else if rest.len() > 0 {
        lemma_every_operation_is_written(s, at + 1, handle, rest, 0);
    } else {
        assert(operations_stage(s, at + 1, handle, rest) == Stage::Done((), at + 1));
    }
}

proof fn lemma_write_on_air(handle: u16, value: Seq<u8>)
    ensures
        writes(crate::att::write_pdu(handle, value), handle, value),
{
    assert(crate::att::write_pdu(handle, value).skip(3) =~= value);
}

/// A courtesy is extended in full: where the handle is approved on both layers, every
/// write is tried, in its order, whatever came of the others; where it is not, nothing
/// is asked at all.
pub proof fn lemma_courtesy_is_extended_in_full(
    ours: Approved,
    theirs: Approved,
    s: Seq<Said>,
    at: int,
    handle: u16,
    pdus: Seq<Seq<u8>>,
    i: int,
)
    requires
        0 <= at,
        at + pdus.len() <= s.len(),
        0 <= i < pdus.len(),
    ensures
        ours.permits(handle) && theirs.permits(handle) ==> {
            &&& courtesy_stage(ours, theirs, s, at, handle, pdus) == Stage::Done(
                (),
                at + pdus.len(),
            )
            &&& courtesy_stage(ours, theirs, s.take(at + i), at, handle, pdus) matches Stage::Ask(
                p,
            ) && writes(p, handle, pdus[i])
        },
        !ours.permits(handle) || !theirs.permits(handle) ==> courtesy_stage(
            ours,
            theirs,
            s,
            at,
            handle,
            pdus,
        ) == Stage::Done((), at),
    decreases pdus.len(),
{
    let rest = pdus.skip(1);
    lemma_write_on_air(handle, pdus[0]);
    if ours.permits(handle) && theirs.permits(handle) {
        lemma_write_needs_an_answer(s, at, handle, pdus[0]);
        if i > 0 {
            lemma_courtesy_is_extended_in_full(ours, theirs, s, at + 1, handle, rest, i - 1);
            assert(at + 1 + (i - 1) == at + i);
            assert(s.take(at + i)[at] == s[at]);
            assert(rest[i - 1] == pdus[i]);
        } else if rest.len() > 0 {
            lemma_courtesy_is_extended_in_full(ours, theirs, s, at + 1, handle, rest, 0);
        } else {
            assert(courtesy_stage(ours, theirs, s, at + 1, handle, rest) == Stage::Done(
                (),
                at + 1,
            ));
        }
    } else if ours.permits(handle) {
        if rest.len() > 0 {
            lemma_courtesy_is_extended_in_full(ours, theirs, s, at, handle, rest, 0);
        } else {
            assert(courtesy_stage(ours, theirs, s, at, handle, rest) == Stage::Done((), at));
        }
    }
}

/// No endpoint is left busy: releasing everything releases every sink and every source
/// that the device has, each by its number.
pub proof fn lemma_every_endpoint_is_released(c: Published, ase_id: u8)
    ensures
        c.sink_ase_ids.contains(ase_id) || c.source_ase_ids.contains(ase_id)
            ==> every_endpoint(c).map_values(|id: u8| release_pdu(id)).contains(
            seq![0x08u8, 1, ase_id],
        ),
        every_endpoint(c).len() == c.sink_ase_ids.len() + c.source_ase_ids.len(),
{
    let all = every_endpoint(c);
    let pdus = all.map_values(|id: u8| release_pdu(id));
    assert(release_pdu(ase_id) == seq![0x08u8, 1, ase_id]);
    if c.sink_ase_ids.contains(ase_id) {
        let i = choose|i: int| 0 <= i < c.sink_ase_ids.len() && c.sink_ase_ids[i] == ase_id;
        assert(all[i] == ase_id);
        assert(pdus[i] == seq![0x08u8, 1, ase_id]);
    } else if c.source_ase_ids.contains(ase_id) {
        let i = choose|i: int| 0 <= i < c.source_ase_ids.len() && c.source_ase_ids[i] == ase_id;
        assert(all[c.sink_ase_ids.len() + i] == ase_id);
        assert(pdus[c.sink_ase_ids.len() + i] == seq![0x08u8, 1, ase_id]);
    }
}

/// Whether a bridge was built from answers: the handles that were found, then the write
/// that turns notifications on, then the state that was read.
pub open spec fn is_hooked_up(s: Seq<Said>, at: int, b: VolumeBridge, k: int, n: int) -> bool {
    &&& 0 <= k < s.len()
    &&& volume_control_stage(s, at) == Stage::Done(Some(b.handles), k)
    &&& sent_stage(s, k, b.handles.state_cccd, seq![1u8, 0]) is Done
    &&& sent_stage(s.take(k), k, b.handles.state_cccd, seq![1u8, 0]) matches Stage::Ask(p)
        && writes(p, b.handles.state_cccd, seq![1u8, 0])
    &&& volume_state_stage(s, k + 1, b.handles.state) matches Stage::Done(state, m) && m == n && (
    state is Some ==> state->0 == b.volume) && (state is None ==> b.volume.setting == 0
        && !b.volume.muted)
}

/// The volume is hooked up to where the device says it lives: its notifications were
/// turned on at the descriptor of the state, and what is known of it was read from the
/// state; a device without the service has none, and that is no failure.
pub proof fn lemma_volume_is_hooked_up(s: Seq<Said>, at: int, slider: bool)
    requires
        0 <= at,
    ensures
        attach_stage(s, at, slider) matches Stage::Done(bridge, n) ==> match bridge {
            None => volume_control_stage(s, at) == Stage::<Option<VolumeControlHandles>>::Done(
                None,
                n,
            ),
            Some(b) => {
                &&& b.slider == slider
                &&& exists|k: int| #[trigger] is_hooked_up(s, at, b, k, n)
            },
        },
{
    if let Stage::Done(Some(b), n) = attach_stage(s, at, slider) {
        if let Stage::Done(Some(handles), k) = volume_control_stage(s, at) {
            assert(sent_stage(s, k, handles.state_cccd, seq![1u8, 0]) is Done);
            lemma_volume_control_bounds(s, at);
            lemma_write_needs_an_answer(s, k, handles.state_cccd, seq![1u8, 0]);
            lemma_write_on_air(handles.state_cccd, seq![1u8, 0]);
            assert(is_hooked_up(s, at, b, k, n));
        }
    }
}

proof fn lemma_volume_control_bounds(s: Seq<Said>, at: int)
    requires
        0 <= at,
    ensures
        volume_control_stage(s, at) matches Stage::Done(_, n) ==> n >= 0,
{
    crate::link::procedure::lemma_volume_control_moves_on(s, at);
}

/// A scan keeps everything that answered, and an adapter says what it is.
pub proof fn lemma_scan_keeps_what_answered(answers: Seq<Heard>, t: Seq<char>)
    ensures
        scanned(true, Ok(answers)) is Ok <==> answers.len() > 0,
        scanned(true, Err(t)) == Err::<Seq<Heard>, Trouble>(Trouble::Controller(t)),
        scanned(false, Ok(answers)) is Err,
        scanned(true, Ok(answers)) matches Ok(found) ==> forall|i: int|
            0 <= i < answers.len() ==> is_among(found, (#[trigger] answers[i]).address),
{
    if answers.len() > 0 {
        let found = in_order(gathered(answers));
        assert forall|i: int| 0 <= i < answers.len() implies is_among(
            found,
            (#[trigger] answers[i]).address,
        ) by {
            lemma_whoever_answers_is_listed(answers, i);
        }
    }
}

/// A notification is a frame of the attribute channel, four, whose first byte is the
/// opcode for it. The next two name the handle, low byte first, and the rest is the value.
pub proof fn lemma_notification_is_pulled_apart(frame: Frame)
    ensures
        notified_in(frame) is Some <==> frame.cid == 4 && frame.payload.len() >= 3
            && frame.payload[0] == 0x1B,
        notified_in(frame) matches Some((handle, value)) ==> {
            &&& handle == frame.payload[1] + 256 * frame.payload[2]
            &&& value.len() == frame.payload.len() - 3
            &&& forall|i: int|
                0 <= i < value.len() ==> #[trigger] value[i] == frame.payload[i + 3]
        },
{
}

} // verus!
