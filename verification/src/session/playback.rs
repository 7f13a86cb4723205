//! The audio loop: capture, encode, send, one frame per SDU interval.
//!
//! Each turn of the loop is a chain of actions. Whoever drives the loop performs
//! an action and hands its outcome to the method that is named after it, which
//! gives the next action.

use vstd::arithmetic::power2::{lemma_pow2_pos, pow2};
use vstd::prelude::*;

use crate::att::{absorbed, AclReassembler, Frame, Partial};
use crate::audio::{
    all_scaled, is_silent, lemma_both_ears_hear_the_microphone, lemma_samples,
    lemma_scaled_is_a_sample, lemma_silence_is_quiet, lemma_silence_stays_silence, mix, mixed,
    resample_mono, resampled, scale_all, scaled, silent, to_samples, unit,
};
use crate::bytes::{copied, copied_words, holds_word, packets, word, word_at, word_bytes};
use crate::hci::{
    command_bytes, completed_command, completed_packets, disconnected, iso_data_in,
    parse_disconnection_complete, parse_iso_data_packet, parse_number_of_completed_packets,
    read_rssi, Event, EventView, READ_RSSI,
};
use crate::link::{acceptance, events, Link};
use crate::number::{lemma_near_whole, near, Number};
use crate::session::{
    notification, notified_in, Counted, Live, LiveAudioConfig, News, Progress, SessionError,
    StreamCounters, Trouble, VolumeBridge,
};
use crate::stream::{Planned, StreamPlan, Topology};
use crate::time::Duration;
use crate::vcs::{volume_in, VolumeState};

verus! {

/// The largest payload of an ACL packet on the playback connection.
pub const ACL_PAYLOAD: usize = 27;

/// How often the signal strength is asked for and the counters are reported.
pub const SECOND_NANOS: u128 = 1_000_000_000;

/// How many frames of silence go out before the music starts.
pub const PRIMING_FRAMES: u32 = 20;

/// How long the level rises when the music starts: full level from the first sample
/// would be a transient in someone's ears.
pub const START_RAMP_MILLIS: u32 = 300;

/// How long the level rises when sound comes back after a pause.
pub const RESUME_RAMP_MILLIS: u32 = 60;

/// The microphone of the headset itself, as a source to listen to.
pub open spec fn headset() -> Seq<char> {
    "headset"@
}

/// Something to be done for the loop.
#[derive(Debug)]
pub enum Action {
    /// Ask whether to stop.
    CheckStop,
    /// Take every event that has arrived.
    ReadEvents,
    SendCommand(Vec<u8>),
    /// Look at the live settings.
    ReadLive,
    /// Close what is listened to, and open this instead.
    SwitchMonitor(Option<String>),
    /// Take one ACL packet, if one is there.
    ReadAcl,
    /// Decode one frame of the headset microphone.
    Decode(Vec<u8>),
    /// Publish decoded microphone audio.
    Render { samples: Vec<i16>, rate: u32, gain: Number },
    SendAcl(Vec<Vec<u8>>),
    /// Move the slider of the system to where the headphones are.
    MoveSlider { level: Number, muted: bool },
    /// Capture one frame.
    Capture(usize),
    /// Capture this many samples of what is listened to.
    CaptureMonitor(usize),
    /// Screen the frame, apply the limiter at this gain, and the ramp.
    Screen { samples: Vec<i16>, gain: Number },
    Encode(Vec<i16>),
    /// Report this. Sound that comes back starts on a short ramp.
    Report(Progress),
    SendIso(Vec<u8>),
    /// Report the counters with the levels of the frame.
    ReportStreaming(StreamCounters),
    /// Throw away what was captured and not used, if told so; then sleep.
    Sleep { flush: bool, duration: Duration },
    Finish { report: Option<Progress>, result: Result<(), SessionError> },
}

/// Something to be done, whatever holds it.
pub enum Deed {
    CheckStop,
    ReadEvents,
    SendCommand(Seq<u8>),
    ReadLive,
    SwitchMonitor(Option<Seq<char>>),
    ReadAcl,
    Decode(Seq<u8>),
    Render { samples: Seq<i16>, rate: u32, gain: Number },
    SendAcl(Seq<Seq<u8>>),
    MoveSlider { level: Number, muted: bool },
    Capture(int),
    CaptureMonitor(int),
    Screen { samples: Seq<i16>, gain: Number },
    Encode(Seq<i16>),
    Report(News),
    SendIso(Seq<u8>),
    ReportStreaming(Counted),
    Sleep { flush: bool, duration: Duration },
    Finish { report: Option<News>, result: Result<(), Trouble> },
}

/// A text that may be missing.
pub open spec fn maybe(t: Option<String>) -> Option<Seq<char>> {
    crate::device::text_of(t)
}

impl View for Action {
    type V = Deed;

    open spec fn view(&self) -> Deed {
        match self {
            Action::CheckStop => Deed::CheckStop,
            Action::ReadEvents => Deed::ReadEvents,
            Action::SendCommand(c) => Deed::SendCommand(c@),
            Action::ReadLive => Deed::ReadLive,
            Action::SwitchMonitor(name) => Deed::SwitchMonitor(maybe(*name)),
            Action::ReadAcl => Deed::ReadAcl,
            Action::Decode(p) => Deed::Decode(p@),
            Action::Render { samples, rate, gain } => Deed::Render {
                samples: samples@,
                rate: *rate,
                gain: *gain,
            },
            Action::SendAcl(p) => Deed::SendAcl(packets(p@)),
            Action::MoveSlider { level, muted } => Deed::MoveSlider {
                level: *level,
                muted: *muted,
            },
            Action::Capture(n) => Deed::Capture(*n as int),
            Action::CaptureMonitor(n) => Deed::CaptureMonitor(*n as int),
            Action::Screen { samples, gain } => Deed::Screen { samples: samples@, gain: *gain },
            Action::Encode(samples) => Deed::Encode(samples@),
            Action::Report(p) => Deed::Report(p@),
            Action::SendIso(p) => Deed::SendIso(p@),
            Action::ReportStreaming(c) => Deed::ReportStreaming(c@),
            Action::Sleep { flush, duration } => Deed::Sleep { flush: *flush, duration: *duration },
            Action::Finish { report, result } => Deed::Finish {
                report: match report {
                    Some(p) => Some(p@),
                    None => None,
                },
                result: match result {
                    Ok(()) => Ok(()),
                    Err(e) => Err(e@),
                },
            },
        }
    }
}

/// The loop between two actions.
#[derive(Debug)]
pub struct Playback {
    cis_handles: Vec<u16>,
    acl_handle: Option<u16>,
    microphone_handle: Option<u16>,
    microphone_rate: u32,
    /// Whether decoded microphone audio is published.
    renders: bool,
    sample_rate: u32,
    samples_per_frame: usize,
    playback_enabled: bool,
    interval: Duration,
    idle_timeout: Option<Duration>,
    acl: AclReassembler,
    volume: Option<VolumeBridge>,
    delivered: Vec<u64>,
    rssi_pending: bool,
    rssi_asked: Option<Duration>,
    rssi: Option<i8>,
    live: LiveAudioConfig,
    monitor: Option<String>,
    monitor_open: bool,
    monitor_samples: Vec<i16>,
    samples: Vec<i16>,
    packets: Vec<Vec<u8>>,
    sent_of_frame: usize,
    silent_since: Option<Duration>,
    idle: bool,
    deadline: Duration,
    frames: u64,
    iso_sent: u64,
    iso_failed: u64,
    reported: Duration,
}

/// What the loop knows between two actions.
pub struct Sound {
    pub cis_handles: Seq<u16>,
    pub acl_handle: Option<u16>,
    pub microphone_handle: Option<u16>,
    pub microphone_rate: u32,
    pub renders: bool,
    pub sample_rate: u32,
    pub samples_per_frame: int,
    pub playback_enabled: bool,
    pub interval: Duration,
    pub idle_timeout: Option<Duration>,
    pub acl: Option<Partial>,
    pub volume: Option<VolumeBridge>,
    pub delivered: Seq<u64>,
    pub rssi_pending: bool,
    pub rssi_asked: Option<Duration>,
    pub rssi: Option<i8>,
    pub live: Live,
    pub monitor: Option<Seq<char>>,
    pub monitor_open: bool,
    pub monitor_samples: Seq<i16>,
    pub samples: Seq<i16>,
    pub packets: Seq<Seq<u8>>,
    pub sent_of_frame: int,
    pub silent_since: Option<Duration>,
    pub idle: bool,
    pub deadline: Duration,
    pub frames: u64,
    pub iso_sent: u64,
    pub iso_failed: u64,
    pub reported: Duration,
}

impl View for Playback {
    type V = Sound;

    closed spec fn view(&self) -> Sound {
        Sound {
            cis_handles: self.cis_handles@,
            acl_handle: self.acl_handle,
            microphone_handle: self.microphone_handle,
            microphone_rate: self.microphone_rate,
            renders: self.renders,
            sample_rate: self.sample_rate,
            samples_per_frame: self.samples_per_frame as int,
            playback_enabled: self.playback_enabled,
            interval: self.interval,
            idle_timeout: self.idle_timeout,
            acl: self.acl@,
            volume: self.volume,
            delivered: self.delivered@,
            rssi_pending: self.rssi_pending,
            rssi_asked: self.rssi_asked,
            rssi: self.rssi,
            live: self.live@,
            monitor: maybe(self.monitor),
            monitor_open: self.monitor_open,
            monitor_samples: self.monitor_samples@,
            samples: self.samples@,
            packets: packets(self.packets@),
            sent_of_frame: self.sent_of_frame as int,
            silent_since: self.silent_since,
            idle: self.idle,
            deadline: self.deadline,
            frames: self.frames,
            iso_sent: self.iso_sent,
            iso_failed: self.iso_failed,
            reported: self.reported,
        }
    }
}

impl Sound {
    /// Whether every channel has a count, and the live gains are numbers.
    pub open spec fn wf(self) -> bool {
        self.delivered.len() == self.cis_handles.len() && self.live.wf()
    }
}

/// One more, as far as it can be counted.
pub open spec fn one_more(n: u64) -> u64 {
    if n < u64::MAX {
        (n + 1) as u64
    } else {
        n
    }
}

fn count_one(n: u64) -> (r: u64)
    ensures
        r == one_more(n),
{
    if n < u64::MAX {
        n + 1
    } else {
        n
    }
}

// ---------------------------------------------------------------------------
// Starting
// ---------------------------------------------------------------------------

/// The handle of the channel at a place, if it came up.
pub open spec fn handle_at(handles: Seq<u16>, place: int) -> Option<u16> {
    if 0 <= place < handles.len() {
        Some(handles[place])
    } else {
        None
    }
}

/// The loop before its first turn.
pub open spec fn fresh(
    plan: Planned,
    cis_handles: Seq<u16>,
    acl_handle: Option<u16>,
    renders: bool,
    samples_per_frame: int,
    idle_timeout: Option<Duration>,
    volume: Option<VolumeBridge>,
    now: Duration,
) -> Sound {
    Sound {
        cis_handles,
        acl_handle,
        microphone_handle: match plan.microphone {
            Some(m) => handle_at(cis_handles, m.cis_id as int),
            None => None,
        },
        microphone_rate: match plan.microphone {
            Some(m) => match m.codec.sampling_frequency.rate() {
                Some(hz) => hz,
                None => 32_000,
            },
            None => 32_000,
        },
        renders: renders && plan.microphone is Some,
        sample_rate: match plan.codec.sampling_frequency.rate() {
            Some(hz) => hz,
            None => 48_000,
        },
        samples_per_frame,
        playback_enabled: plan.playback_enabled,
        interval: Duration { nanos: (plan.qos.sdu_interval_us * 1_000) as u128 },
        idle_timeout,
        acl: None,
        volume,
        delivered: Seq::new(cis_handles.len(), |i: int| 0u64),
        rssi_pending: false,
        rssi_asked: None,
        rssi: None,
        live: Live::usual(),
        monitor: None,
        monitor_open: false,
        monitor_samples: Seq::empty(),
        samples: Seq::empty(),
        packets: Seq::empty(),
        sent_of_frame: 0,
        silent_since: None,
        idle: false,
        deadline: now,
        frames: 0,
        iso_sent: 0,
        iso_failed: 0,
        reported: now,
    }
}

/// How many frames of silence go out first: a device decides that a stream is
/// live when data arrives on it, so two channels start together.
pub open spec fn priming(plan: Planned, channels: nat) -> u32 {
    if plan.topology == Topology::DualCis && channels > 1 {
        PRIMING_FRAMES
    } else {
        0
    }
}

pub fn priming_frames(plan: &StreamPlan, channels: usize) -> (r: u32)
    ensures
        r == priming(plan@, channels as nat),
{
    if plan.topology == Topology::DualCis && channels > 1 {
        PRIMING_FRAMES
    } else {
        0
    }
}

// ---------------------------------------------------------------------------
// What a report means to whoever drives the loop
// ---------------------------------------------------------------------------

/// How the loop ended, as far as its reports tell.
#[derive(Debug, Clone, Copy, PartialEq, Eq)]
pub struct Ending {
    /// Why the link was lost, if it was.
    pub lost: Option<u8>,
    /// Whether the headphones were handed back.
    pub yielded: bool,
}

impl Ending {
    /// What is known after one more report.
    pub open spec fn after(self, news: News) -> Self {
        match news {
            News::Disconnected { reason } => Ending { lost: Some(reason), ..self },
            News::Yielded { after } => Ending { yielded: true, ..self },
            _ => self,
        }
    }

    /// Nothing was reported yet.
    pub fn new() -> (r: Self)
        ensures
            r == (Ending { lost: None, yielded: false }),
    {
        Ending { lost: None, yielded: false }
    }

    /// Takes a report into account.
    pub fn take_note(&mut self, progress: &Progress)
        ensures
            *final(self) == old(self).after(progress@),
    {
        match progress {
            Progress::Disconnected { reason } => {
                self.lost = Some(*reason);
            },
            Progress::Yielded { .. } => {
                self.yielded = true;
            },
            _ => {},
        }
    }
}

/// How long the level rises from nothing after a report; `None` where it stays.
pub open spec fn ramp_in(news: News) -> Option<u32> {
    match news {
        News::Resumed => Some(RESUME_RAMP_MILLIS),
        _ => None,
    }
}

/// Whether a report asks for the level to rise from nothing again, and how long.
pub fn ramp_after(progress: &Progress) -> (r: Option<u32>)
    ensures
        r == ramp_in(progress@),
{
    match progress {
        Progress::Resumed => Some(RESUME_RAMP_MILLIS),
        _ => None,
    }
}

impl Playback {
    /// Gets the loop ready. Without a channel there is nothing to play to.
    pub fn start(
        plan: &StreamPlan,
        cis_handles: &[u16],
        acl_handle: Option<u16>,
        renders: bool,
        samples_per_frame: usize,
        idle_timeout: Option<Duration>,
        volume: Option<VolumeBridge>,
        now: Duration,
    ) -> (r: Result<Playback, SessionError>)
        ensures
            r is Ok <==> cis_handles@.len() > 0,
            r is Err ==> r->Err_0@ == Trouble::NoCisEstablished,
            r is Ok ==> r->Ok_0@.wf() && r->Ok_0@ == fresh(
                plan@,
                cis_handles@,
                acl_handle,
                renders,
                samples_per_frame as int,
                idle_timeout,
                volume,
                now,
            ),
    {
        if cis_handles.len() == 0 {
            return Err(SessionError::NoCisEstablished);
        }
        let microphone_handle: Option<u16> = match plan.microphone {
            Some(m) => {
                let place: usize = m.cis_id as usize;
                if place < cis_handles.len() {
                    Some(cis_handles[place])
                } else {
                    None
                }
            },
            None => None,
        };
        let microphone_rate: u32 = match plan.microphone {
            Some(m) => match m.codec.sampling_frequency.hz() {
                Some(hz) => hz,
                None => 32_000,
            },
            None => 32_000,
        };
        let mut delivered: Vec<u64> = Vec::new();
        while delivered.len() < cis_handles.len()
            invariant
                delivered@.len() <= cis_handles@.len(),
                forall|i: int| 0 <= i < delivered@.len() ==> #[trigger] delivered@[i] == 0,
            decreases cis_handles@.len() - delivered@.len(),
        {
            delivered.push(0);
        }
        let playback = Playback {
            cis_handles: copied_words(cis_handles),
            acl_handle,
            microphone_handle,
            microphone_rate,
            renders: renders && plan.microphone.is_some(),
            sample_rate: plan.codec.sampling_frequency.hz_or_48000(),
            samples_per_frame,
            playback_enabled: plan.playback_enabled,
            interval: Duration::from_micros(plan.qos.sdu_interval_us as u64),
            idle_timeout,
            acl: AclReassembler::new(),
            volume,
            delivered,
            rssi_pending: false,
            rssi_asked: None,
            rssi: None,
            live: LiveAudioConfig::default(),
            monitor: None,
            monitor_open: false,
            monitor_samples: Vec::new(),
            samples: Vec::new(),
            packets: Vec::new(),
            sent_of_frame: 0,
            silent_since: None,
            idle: false,
            deadline: now,
            frames: 0,
            iso_sent: 0,
            iso_failed: 0,
            reported: now,
        };
        proof {
            assert(delivered@ =~= Seq::new(cis_handles@.len(), |i: int| 0u64));
            assert(packets(playback.packets@) =~= Seq::empty());
            assert(playback.monitor_samples@ =~= Seq::empty());
            assert(playback.samples@ =~= Seq::empty());
        }
        Ok(playback)
    }

    /// The volume of the headphones as it was last heard of.
    pub fn volume(&self) -> (r: Option<VolumeBridge>)
        ensures
            r == self@.volume,
    {
        self.volume
    }
}

// ---------------------------------------------------------------------------
// Stopping, and what the controller says
// ---------------------------------------------------------------------------

/// A user who asked to stop is obeyed.
pub open spec fn stop_deed(stop: bool) -> Deed {
    if stop {
        Deed::Finish {
            report: Some(News::Stopped { reason: "zastaveno uzivatelem"@ }),
            result: Ok(()),
        }
    } else {
        Deed::ReadEvents
    }
}

/// What is known of the signal after an event: the answer to our question ends
/// the wait for it, and counts if it is about our connection.
pub open spec fn with_signal(s: Sound, e: EventView) -> Sound {
    match completed_command(e) {
        Some((opcode, params)) => if opcode == READ_RSSI {
            Sound {
                rssi_pending: false,
                rssi: if params.len() >= 4 && params[0] == 0 && s.acl_handle == Some(
                    word_at(params, 1),
                ) {
                    Some(params[3] as i8)
                } else {
                    s.rssi
                },
                ..s
            }
        } else {
            s
        },
        None => s,
    }
}

/// A sum, as far as it can be counted.
pub open spec fn counted_on(n: u64, more: u16) -> u64 {
    if n + more <= u64::MAX {
        (n + more) as u64
    } else {
        u64::MAX
    }
}

/// The counts after one more report about one channel. A handle that is none of
/// ours counts for nothing.
pub open spec fn with_delivery(delivered: Seq<u64>, handles: Seq<u16>, report: (u16, u16)) -> Seq<
    u64,
> {
    let slot = crate::cis::place_in(handles, report.0);
    if slot < handles.len() {
        delivered.update(slot, counted_on(delivered[slot], report.1))
    } else {
        delivered
    }
}

/// The counts after reports, one after the other.
pub open spec fn with_deliveries(
    delivered: Seq<u64>,
    handles: Seq<u16>,
    reports: Seq<(u16, u16)>,
) -> Seq<u64>
    decreases reports.len(),
{
    if reports.len() == 0 {
        delivered
    } else {
        with_delivery(
            with_deliveries(delivered, handles, reports.drop_last()),
            handles,
            reports.last(),
        )
    }
}

/// What the loop knows after one event.
pub open spec fn with_event(s: Sound, e: EventView) -> Sound {
    let heard = with_signal(s, e);
    Sound {
        delivered: with_deliveries(heard.delivered, heard.cis_handles, completed_packets(e)),
        ..heard
    }
}

/// What the loop knows after events, each counted once.
pub open spec fn with_events(s: Sound, es: Seq<EventView>) -> Sound
    decreases es.len(),
{
    if es.len() == 0 {
        s
    } else {
        with_event(with_events(s, es.drop_last()), es.last())
    }
}

/// Whether a handle is one that the loop cannot do without.
pub open spec fn is_watched(s: Sound, handle: u16) -> bool {
    s.cis_handles.contains(handle) || s.acl_handle == Some(handle)
}

/// Why the link is gone, if an event says so; the last word counts.
pub open spec fn gone_in(s: Sound, es: Seq<EventView>) -> Option<u8>
    decreases es.len(),
{
    if es.len() == 0 {
        None
    } else {
        match disconnected(es.last()) {
            Some((handle, reason)) => if is_watched(s, handle) {
                Some(reason)
            } else {
                gone_in(s, es.drop_last())
            },
            None => gone_in(s, es.drop_last()),
        }
    }
}

/// Whether a second has passed since something was last done.
pub open spec fn is_due(last: Option<Duration>, now: Duration) -> bool {
    match last {
        Some(last) => now.since(last).nanos >= SECOND_NANOS,
        None => true,
    }
}

/// Once the peer is gone there is nothing to play to. Otherwise the signal
/// strength is asked for, once a second and one question at a time.
pub open spec fn events_turn(s: Sound, es: Seq<EventView>, now: Duration) -> (Sound, Deed) {
    let t = with_events(s, es);
    match gone_in(s, es) {
        Some(reason) => (
            t,
            Deed::Finish { report: Some(News::Disconnected { reason }), result: Ok(()) },
        ),
        None => match s.acl_handle {
            Some(handle) => if !t.rssi_pending && is_due(t.rssi_asked, now) {
                (t, Deed::SendCommand(command_bytes(READ_RSSI, word_bytes(handle))))
            } else {
                (t, Deed::ReadLive)
            },
            None => (t, Deed::ReadLive),
        },
    }
}

impl Playback {
    /// Where the first turn, and every other, begins.
    pub fn begin(&self) -> (r: Action)
        ensures
            r@ == Deed::CheckStop,
    {
        Action::CheckStop
    }

    pub fn stop_checked(&self, stop: bool) -> (r: Action)
        ensures
            r@ == stop_deed(stop),
    {
        if stop {
            let reason = "zastaveno uzivatelem".to_owned();
            Action::Finish { report: Some(Progress::Stopped { reason }), result: Ok(()) }
        } else {
            Action::ReadEvents
        }
    }

    fn watches(&self, handle: u16) -> (r: bool)
        ensures
            r == is_watched(self@, handle),
    {
        holds_word(self.cis_handles.as_slice(), handle) || match self.acl_handle {
            Some(h) => h == handle,
            None => false,
        }
    }

    /// Takes in the answer to a question about the signal.
    fn hear_signal(&mut self, event: &Event)
        ensures
            final(self)@ == with_signal(old(self)@, event@),
    {
        if let Some((opcode, params)) = event.command_complete() {
            if opcode == READ_RSSI {
                self.rssi_pending = false;
                // status, connection handle, signal strength
                if params.len() >= 4 && params[0] == 0 {
                    let about: u16 = word(params[1], params[2]);
                    let ours: bool = match self.acl_handle {
                        Some(h) => h == about,
                        None => false,
                    };
                    if ours {
                        self.rssi = Some(params[3] as i8);
                    }
                }
            }
        }
    }

    /// Takes in reports about what was delivered.
    ///
    /// Proof from the controller that each stream is really going out. Two
    /// channels that both accept writes look identical from here; one of them
    /// quietly not transmitting does not.
    fn hear_deliveries(&mut self, reports: &[(u16, u16)])
        requires
            old(self)@.wf(),
        ensures
            final(self)@ == (Sound {
                delivered: with_deliveries(
                    old(self)@.delivered,
                    old(self)@.cis_handles,
                    reports@,
                ),
                ..old(self)@
            }),
            final(self)@.wf(),
    {
        let ghost start = self@;
        let mut i: usize = 0;
        assert(reports@.take(0) =~= Seq::empty());
        while i < reports.len()
            invariant
                i <= reports@.len(),
                self@ == (Sound {
                    delivered: with_deliveries(
                        start.delivered,
                        start.cis_handles,
                        reports@.take(i as int),
                    ),
                    ..start
                }),
                self@.wf(),
            decreases reports@.len() - i,
        {
            let (handle, count): (u16, u16) = reports[i];
            proof {
                assert(reports@.take(i + 1).drop_last() =~= reports@.take(i as int));
                assert(reports@.take(i + 1).last() == (handle, count));
            }
            let slot: usize = crate::cis::place(self.cis_handles.as_slice(), handle);
            if slot < self.cis_handles.len() {
                let had: u64 = self.delivered[slot];
                let now: u64 = if had <= u64::MAX - count as u64 {
                    had + count as u64
                } else {
                    u64::MAX
                };
                self.delivered.set(slot, now);
            }
            i += 1;
        }
        assert(reports@.take(reports@.len() as int) =~= reports@);
    }

    /// Takes the events that have arrived.
    ///
    /// They are consumed, not handed back: nothing else reads events while audio
    /// is running, and an event that went back would be found and counted again
    /// on every frame that follows.
    pub fn events_read(&mut self, list: &[Event], now: Duration) -> (r: Action)
        requires
            old(self)@.wf(),
        ensures
            (final(self)@, r@) == events_turn(old(self)@, events(list@), now),
            final(self)@.wf(),
    {
        let ghost start = self@;
        let ghost es = events(list@);
        let mut gone: Option<u8> = None;
        let mut i: usize = 0;
        assert(es.take(0) =~= Seq::empty());
        while i < list.len()
            invariant
                i <= list@.len(),
                es == events(list@),
                self@ == with_events(start, es.take(i as int)),
                self@.wf(),
                self@.cis_handles == start.cis_handles,
                self@.acl_handle == start.acl_handle,
                gone == gone_in(start, es.take(i as int)),
            decreases list@.len() - i,
        {
            let event: &Event = &list[i];
            proof {
                assert(es.take(i + 1).drop_last() =~= es.take(i as int));
                assert(es.take(i + 1).last() == event@);
            }
            self.hear_signal(event);
            if let Some((handle, reason)) = parse_disconnection_complete(event) {
                if self.watches(handle) {
                    gone = Some(reason);
                }
            }
            let reports = parse_number_of_completed_packets(event);
            self.hear_deliveries(reports.as_slice());
            i += 1;
        }
        assert(es.take(es.len() as int) =~= es);
        if let Some(reason) = gone {
            return Action::Finish {
                report: Some(Progress::Disconnected { reason }),
                result: Ok(()),
            };
        }
        if let Some(handle) = self.acl_handle {
            let due: bool = match self.rssi_asked {
                Some(last) => now.saturating_sub(last).nanos >= SECOND_NANOS,
                None => true,
            };
            if !self.rssi_pending && due {
                return Action::SendCommand(read_rssi(handle));
            }
        }
        Action::ReadLive
    }

    pub fn command_sent(&mut self, sent: bool, now: Duration) -> (r: Action)
        ensures
            final(self)@ == (Sound {
                rssi_pending: old(self)@.rssi_pending || sent,
                rssi_asked: Some(now),
                ..old(self)@
            }),
            r@ == Deed::ReadLive,
    {
        if sent {
            self.rssi_pending = true;
        }
        self.rssi_asked = Some(now);
        Action::ReadLive
    }
}

// ---------------------------------------------------------------------------
// What is listened to, and what the headphones say
// ---------------------------------------------------------------------------

/// What is to be listened to.
pub open spec fn wanted_monitor(live: Live) -> Option<Seq<char>> {
    if live.monitor_enabled {
        Some(live.monitor_source)
    } else {
        None
    }
}

/// What is read next: ACL data where there is a connection, else the frame.
pub open spec fn inbound(s: Sound) -> Deed {
    if s.acl_handle is Some {
        Deed::ReadAcl
    } else {
        Deed::Capture(s.samples_per_frame)
    }
}

/// New live settings hold from here on. A change of what is listened to drops
/// what was captured of it; the headset microphone needs no device of the PC.
pub open spec fn live_turn(s: Sound, live: Live) -> (Sound, Deed) {
    let wanted = wanted_monitor(live);
    if wanted == s.monitor {
        let t = Sound { live, ..s };
        (t, inbound(t))
    } else {
        (
            Sound {
                live,
                monitor: wanted,
                monitor_open: false,
                monitor_samples: Seq::empty(),
                ..s
            },
            Deed::SwitchMonitor(
                match wanted {
                    Some(source) => if source == headset() {
                        None
                    } else {
                        Some(source)
                    },
                    None => None,
                },
            ),
        )
    }
}

/// What a frame from the headphones calls for: an answer on the signalling
/// channel, or a volume that moved. A press on the earcup arrives here and
/// nowhere else.
pub open spec fn frame_turn(s: Sound, handle: u16, frame: Frame) -> (Sound, Deed) {
    match acceptance(handle, ACL_PAYLOAD as int, frame) {
        Some(answer) => (s, Deed::SendAcl(answer)),
        None => match (s.volume, notified_in(frame)) {
            (Some(bridge), Some((notified, value))) => match volume_in(value) {
                Some(state) => if notified == bridge.handles.state && state != bridge.volume {
                    let t = Sound { volume: Some(VolumeBridge { volume: state, ..bridge }), ..s };
                    if bridge.slider {
                        (
                            t,
                            Deed::MoveSlider {
                                level: near(false, state.setting as nat, 255),
                                muted: state.muted,
                            },
                        )
                    } else {
                        (t, Deed::ReadAcl)
                    }
                } else {
                    (s, Deed::ReadAcl)
                },
                None => (s, Deed::ReadAcl),
            },
            _ => (s, Deed::ReadAcl),
        },
    }
}

/// What a packet from the headphones means. Microphone audio is decoded; anything
/// else is put together into frames.
pub open spec fn packet_turn(s: Sound, raw: Seq<u8>) -> (Sound, Deed) {
    let audio = match iso_data_in(raw) {
        Some((handle, payload)) => if s.microphone_handle == Some(handle) {
            Some(payload)
        } else {
            None
        },
        None => None,
    };
    match (audio, s.acl_handle) {
        (Some(payload), _) => (s, Deed::Decode(payload)),
        (None, None) => (s, Deed::Capture(s.samples_per_frame)),
        (None, Some(handle)) => {
            let (partial, result) = absorbed(s.acl, raw);
            let t = Sound { acl: partial, ..s };
            match result {
                Ok(Some(frame)) => frame_turn(t, handle, frame),
                _ => (t, Deed::ReadAcl),
            }
        },
    }
}

/// Decoded microphone audio is listened to where that is wanted, and published
/// where it has somewhere to go.
pub open spec fn decoded_turn(s: Sound, decoded: Option<Seq<i16>>) -> (Sound, Deed) {
    match decoded {
        None => (s, Deed::ReadAcl),
        Some(d) => {
            let t = if s.live.monitor_enabled && s.live.monitor_source == headset()
                && s.playback_enabled {
                Sound {
                    monitor_samples: s.monitor_samples + to_samples(
                        resampled(d, s.microphone_rate, s.sample_rate, s.live.monitor_gain),
                    ),
                    ..s
                }
            } else {
                s
            };
            if s.renders {
                (
                    t,
                    Deed::Render {
                        samples: d,
                        rate: s.microphone_rate,
                        gain: s.live.microphone_gain,
                    },
                )
            } else {
                (t, Deed::ReadAcl)
            }
        },
    }
}

fn copied_samples(s: &[i16]) -> (r: Vec<i16>)
    ensures
        r@ == s@,
{
    let mut out: Vec<i16> = Vec::new();
    let mut i: usize = 0;
    while i < s.len()
        invariant
            i <= s@.len(),
            out@ == s@.take(i as int),
        decreases s@.len() - i,
    {
        out.push(s[i]);
        assert(out@ =~= s@.take(i + 1));
        i += 1;
    }
    assert(s@.take(s@.len() as int) =~= s@);
    out
}

fn same_choice(a: &Option<String>, b: &Option<String>) -> (r: bool)
    ensures
        r == (maybe(*a) == maybe(*b)),
{
    match (a, b) {
        (None, None) => true,
        (Some(x), Some(y)) => crate::text::same(x.as_str(), y.as_str()),
        _ => false,
    }
}

impl Playback {
    fn next_inbound(&self) -> (r: Action)
        ensures
            r@ == inbound(self@),
    {
        if self.acl_handle.is_some() {
            Action::ReadAcl
        } else {
            Action::Capture(self.samples_per_frame)
        }
    }

    /// Takes over the live settings.
    pub fn live_read(&mut self, live: LiveAudioConfig) -> (r: Action)
        requires
            old(self)@.wf(),
            live@.wf(),
        ensures
            (final(self)@, r@) == live_turn(old(self)@, live@),
            final(self)@.wf(),
    {
        let wanted: Option<String> = if live.monitor_enabled {
            Some(live.monitor_source.as_str().to_owned())
        } else {
            None
        };
        self.live = live;
        if same_choice(&wanted, &self.monitor) {
            return self.next_inbound();
        }
        self.monitor_open = false;
        self.monitor_samples = Vec::new();
        assert(self.monitor_samples@ =~= Seq::empty());
        let open: Option<String> = match &wanted {
            Some(source) => {
                if crate::text::same(source.as_str(), "headset") {
                    None
                } else {
                    Some(source.as_str().to_owned())
                }
            },
            None => None,
        };
        self.monitor = wanted;
        Action::SwitchMonitor(open)
    }

    pub fn monitor_switched(&mut self, opened: bool) -> (r: Action)
        ensures
            final(self)@ == (Sound { monitor_open: opened, ..old(self)@ }),
            r@ == inbound(old(self)@),
    {
        self.monitor_open = opened;
        self.next_inbound()
    }

    /// What a complete frame calls for.
    fn hear_frame(&mut self, handle: u16, frame: &crate::att::L2capFrame) -> (r: Action)
        ensures
            (final(self)@, r@) == frame_turn(old(self)@, handle, frame@),
    {
        if let Some((_, answer)) = Link::answer_signalling(handle, ACL_PAYLOAD, frame) {
            return Action::SendAcl(answer);
        }
        let mut bridge: VolumeBridge = match self.volume {
            Some(bridge) => bridge,
            None => {
                return Action::ReadAcl;
            },
        };
        if let Some((notified, value)) = notification(frame) {
            if notified == bridge.handles.state && bridge.absorb(value.as_slice()) {
                self.volume = Some(bridge);
                if bridge.slider {
                    return Action::MoveSlider {
                        level: bridge.volume.scalar(),
                        muted: bridge.volume.muted,
                    };
                }
            }
        }
        Action::ReadAcl
    }

    /// Takes one ACL packet, or the news that none is there.
    ///
    /// Playback is the longest-running step, and nothing else reads ACL while it
    /// runs. The peer sends its connection parameter request unprompted and then
    /// waits a minute for the answer before dropping the link, so the loop has to
    /// keep listening even though it has nothing to ask for.
    pub fn acl_read(&mut self, raw: Option<&[u8]>) -> (r: Action)
        ensures
            match raw {
                Some(raw) => (final(self)@, r@) == packet_turn(old(self)@, raw@),
                None => final(self)@ == old(self)@ && r@ == Deed::Capture(
                    old(self)@.samples_per_frame,
                ),
            },
            final(self)@.live == old(self)@.live,
            final(self)@.delivered == old(self)@.delivered,
            final(self)@.cis_handles == old(self)@.cis_handles,
    {
        let raw: &[u8] = match raw {
            Some(raw) => raw,
            None => {
                return Action::Capture(self.samples_per_frame);
            },
        };
        if let Some((handle, payload)) = parse_iso_data_packet(raw) {
            let ours: bool = match self.microphone_handle {
                Some(h) => h == handle,
                None => false,
            };
            if ours {
                return Action::Decode(payload);
            }
        }
        let handle: u16 = match self.acl_handle {
            Some(handle) => handle,
            None => {
                return Action::Capture(self.samples_per_frame);
            },
        };
        match self.acl.push(raw) {
            Ok(Some(frame)) => self.hear_frame(handle, &frame),
            _ => Action::ReadAcl,
        }
    }

    /// Takes decoded microphone audio, or the news that the frame was damaged.
    pub fn decoded(&mut self, decoded: Option<&[i16]>) -> (r: Action)
        requires
            old(self)@.wf(),
        ensures
            (final(self)@, r@) == decoded_turn(
                old(self)@,
                match decoded {
                    Some(d) => Some(d@),
                    None => None,
                },
            ),
            final(self)@.wf(),
    {
        let decoded: &[i16] = match decoded {
            Some(d) => d,
            None => {
                return Action::ReadAcl;
            },
        };
        if self.live.monitor_enabled && self.playback_enabled && crate::text::same(
            self.live.monitor_source.as_str(),
            "headset",
        ) {
            let mut more = resample_mono(
                decoded,
                self.microphone_rate,
                self.sample_rate,
                self.live.monitor_gain,
            );
            proof {
                lemma_samples(more@);
            }
            self.monitor_samples.append(&mut more);
        }
        if self.renders {
            return Action::Render {
                samples: copied_samples(decoded),
                rate: self.microphone_rate,
                gain: self.live.microphone_gain,
            };
        }
        Action::ReadAcl
    }

    /// What cannot be published ends the loop.
    pub fn rendered(&self, result: Result<(), String>) -> (r: Action)
        ensures
            match result {
                Ok(()) => r@ == Deed::ReadAcl,
                Err(t) => r@ == (Deed::Finish {
                    report: None,
                    result: Err(Trouble::Audio(t@)),
                }),
            },
    {
        match result {
            Ok(()) => Action::ReadAcl,
            Err(t) => Action::Finish { report: None, result: Err(SessionError::Audio(t)) },
        }
    }

    /// After an answer was sent, or the slider moved, there may be more to read.
    pub fn answered(&self) -> (r: Action)
        ensures
            r@ == Deed::ReadAcl,
    {
        Action::ReadAcl
    }
}

// ---------------------------------------------------------------------------
// One frame
// ---------------------------------------------------------------------------

/// A fraction of an interval: waiting for more to be captured need not spin.
pub open spec fn quarter(d: Duration) -> Duration {
    Duration { nanos: d.nanos / 4 }
}

/// What is done with the frame: played, or nothing where playback is off.
pub open spec fn frame_deed(s: Sound) -> Deed {
    if s.playback_enabled {
        Deed::Screen {
            samples: s.samples,
            gain: s.live.output_gain.clamped(near(false, 0, 1), near(false, 2, 1)),
        }
    } else {
        Deed::Sleep { flush: false, duration: quarter(s.interval) }
    }
}

/// The first `n` samples of a queue, with silence where it is too short.
pub open spec fn taken(queue: Seq<i16>, n: nat) -> Seq<i16> {
    Seq::new(
        n,
        |i: int|
            if i < queue.len() {
                queue[i]
            } else {
                0i16
            },
    )
}

/// A queue without its first `n` samples.
pub open spec fn left(queue: Seq<i16>, n: int) -> Seq<i16> {
    if n <= queue.len() {
        queue.skip(n)
    } else {
        Seq::empty()
    }
}

/// The last `n` samples of a queue: a stalled capture must not turn old sidetone
/// into seconds of delayed echo after it resumes.
pub open spec fn newest(queue: Seq<i16>, n: int) -> Seq<i16> {
    if queue.len() <= n {
        queue
    } else {
        queue.skip(queue.len() - n)
    }
}

/// The frame with what is listened to mixed in, and the queue cut to a fifth of a
/// second.
pub open spec fn with_monitor(s: Sound, mono: Seq<i16>) -> Sound {
    Sound {
        samples: to_samples(mixed(s.samples, mono, s.live.monitor_replace)),
        monitor_samples: newest(s.monitor_samples, (s.sample_rate / 5) as int),
        ..s
    }
}

/// What becomes of a captured frame.
pub open spec fn captured_turn(s: Sound, frame: Option<Seq<i16>>) -> (Sound, Deed) {
    match frame {
        None => (s, Deed::Sleep { flush: false, duration: quarter(s.interval) }),
        Some(frame) => {
            let t = Sound { samples: frame, ..s };
            let wanted = frame.len() / 2;
            if !(s.live.monitor_enabled && s.playback_enabled) {
                (t, frame_deed(t))
            } else if s.monitor_open {
                (t, Deed::CaptureMonitor(wanted as int))
            } else {
                let u = with_monitor(
                    Sound { monitor_samples: left(s.monitor_samples, wanted as int), ..t },
                    taken(s.monitor_samples, wanted),
                );
                (u, frame_deed(u))
            }
        },
    }
}

/// What becomes of the frame once what is listened to was captured, or not.
pub open spec fn monitored_turn(s: Sound, frame: Option<Seq<i16>>) -> (Sound, Deed) {
    let source = match frame {
        Some(frame) => frame,
        None => taken(Seq::empty(), s.samples.len() / 2),
    };
    let t = with_monitor(s, to_samples(all_scaled(source, s.live.monitor_gain)));
    (t, frame_deed(t))
}

impl Playback {
    fn frame_action(&self) -> (r: Action)
        requires
            self@.wf(),
        ensures
            r@ == frame_deed(self@),
    {
        if self.playback_enabled {
            let gain = self.live.output_gain.clamp(Number::ratio(0, 1), Number::ratio(2, 1));
            Action::Screen { samples: copied_samples(self.samples.as_slice()), gain }
        } else {
            Action::Sleep {
                flush: false,
                duration: Duration { nanos: self.interval.nanos / 4 },
            }
        }
    }

    /// Takes the first samples of the queue, with silence where it is too short.
    fn take_monitored(&mut self, n: usize) -> (r: Vec<i16>)
        ensures
            r@ == taken(old(self)@.monitor_samples, n as nat),
            final(self)@ == (Sound {
                monitor_samples: left(old(self)@.monitor_samples, n as int),
                ..old(self)@
            }),
    {
        let ghost queue = self.monitor_samples@;
        let mut out: Vec<i16> = Vec::new();
        let mut i: usize = 0;
        while i < n
            invariant
                i <= n,
                self.monitor_samples@ == queue,
                out@ == taken(queue, n as nat).take(i as int),
            decreases n - i,
        {
            out.push(
                if i < self.monitor_samples.len() {
                    self.monitor_samples[i]
                } else {
                    0
                },
            );
            assert(out@ =~= taken(queue, n as nat).take(i + 1));
            i += 1;
        }
        assert(out@ =~= taken(queue, n as nat));
        let mut rest: Vec<i16> = Vec::new();
        let mut k: usize = n;
        assert(n <= queue.len() ==> rest@ =~= queue.subrange(n as int, n as int));
        while k < self.monitor_samples.len()
            invariant
                self.monitor_samples@ == queue,
                n <= k,
                n <= queue.len() ==> k <= queue.len() && rest@ == queue.subrange(
                    n as int,
                    k as int,
                ),
                n > queue.len() ==> rest@.len() == 0,
            decreases queue.len() - k,
        {
            rest.push(self.monitor_samples[k]);
            assert(rest@ =~= queue.subrange(n as int, k + 1));
            k += 1;
        }
        assert(rest@ =~= left(queue, n as int));
        self.monitor_samples = rest;
        out
    }

    /// Mixes what is listened to into the frame, and cuts the queue.
    fn mix_in(&mut self, mono: &[i16])
        ensures
            final(self)@ == with_monitor(old(self)@, mono@),
    {
        let now = mix(self.samples.as_slice(), mono, self.live.monitor_replace);
        proof {
            lemma_samples(now@);
        }
        self.samples = now;
        let most: usize = (self.sample_rate / 5) as usize;
        if self.monitor_samples.len() > most {
            let excess: usize = self.monitor_samples.len() - most;
            let _ = self.take_monitored(excess);
        }
    }

    /// Takes a captured frame, or the news that nothing was captured yet, or the
    /// error that ends the loop.
    pub fn captured(&mut self, frame: Result<Option<Vec<i16>>, String>) -> (r: Action)
        requires
            old(self)@.wf(),
        ensures
            match frame {
                Err(t) => final(self)@ == old(self)@ && r@ == (Deed::Finish {
                    report: None,
                    result: Err(Trouble::Audio(t@)),
                }),
                Ok(frame) => (final(self)@, r@) == captured_turn(
                    old(self)@,
                    match frame {
                        Some(f) => Some(f@),
                        None => None,
                    },
                ),
            },
            final(self)@.wf(),
    {
        let frame: Vec<i16> = match frame {
            Err(t) => {
                return Action::Finish { report: None, result: Err(SessionError::Audio(t)) };
            },
            Ok(None) => {
                return Action::Sleep {
                    flush: false,
                    duration: Duration { nanos: self.interval.nanos / 4 },
                };
            },
            Ok(Some(frame)) => frame,
        };
        let wanted: usize = frame.len() / 2;
        self.samples = frame;
        if self.live.monitor_enabled && self.playback_enabled {
            if self.monitor_open {
                return Action::CaptureMonitor(wanted);
            }
            let mono = self.take_monitored(wanted);
            self.mix_in(mono.as_slice());
        }
        self.frame_action()
    }

    /// Takes what was captured of the source that is listened to. Nothing, or an
    /// error, is silence: playback continues.
    pub fn monitor_captured(&mut self, frame: Option<Vec<i16>>) -> (r: Action)
        requires
            old(self)@.wf(),
        ensures
            (final(self)@, r@) == monitored_turn(
                old(self)@,
                match frame {
                    Some(f) => Some(f@),
                    None => None,
                },
            ),
            final(self)@.wf(),
    {
        let source: Vec<i16> = match frame {
            Some(frame) => frame,
            None => {
                let wanted: usize = self.samples.len() / 2;
                let mut zeros: Vec<i16> = Vec::new();
                while zeros.len() < wanted
                    invariant
                        zeros@.len() <= wanted,
                        forall|i: int| 0 <= i < zeros@.len() ==> #[trigger] zeros@[i] == 0,
                    decreases wanted - zeros@.len(),
                {
                    zeros.push(0);
                }
                assert(zeros@ =~= taken(Seq::empty(), wanted as nat));
                zeros
            },
        };
        let mono = scale_all(source.as_slice(), self.live.monitor_gain);
        proof {
            lemma_samples(mono@);
        }
        self.mix_in(mono.as_slice());
        self.frame_action()
    }

    /// Takes the frame that passed the screen, or the reason why it did not.
    pub fn screened(&mut self, frame: Result<Vec<i16>, String>) -> (r: Action)
        ensures
            match frame {
                Ok(f) => final(self)@ == (Sound { samples: f@, ..old(self)@ }) && r@
                    == Deed::Encode(f@),
                Err(t) => final(self)@ == old(self)@ && r@ == (Deed::Finish {
                    report: Some(News::Stopped { reason: t@ }),
                    result: Err(Trouble::Screened(t@)),
                }),
            },
    {
        match frame {
            Ok(frame) => {
                let copy = copied_samples(frame.as_slice());
                self.samples = frame;
                Action::Encode(copy)
            },
            Err(t) => {
                let reason = t.as_str().to_owned();
                Action::Finish {
                    report: Some(Progress::Stopped { reason }),
                    result: Err(SessionError::Screened(t)),
                }
            },
        }
    }
}

// ---------------------------------------------------------------------------
// Silence, and sending
// ---------------------------------------------------------------------------

/// The next interval ends one interval after the last, but never in the past:
/// whoever fell behind resynchronises instead of accumulating debt.
pub open spec fn paced(s: Sound, now: Duration) -> (Sound, Duration) {
    let next = s.deadline.and(s.interval);
    if next.nanos > now.nanos {
        (Sound { deadline: next, ..s }, next.since(now))
    } else {
        (Sound { deadline: now, ..s }, Duration { nanos: 0 })
    }
}

/// How long there has been nothing to hear, counting this frame.
pub open spec fn silence_since(s: Sound, now: Duration) -> Option<Duration> {
    if silent(s.samples) {
        match s.silent_since {
            Some(since) => Some(since),
            None => Some(now),
        }
    } else {
        None
    }
}

/// What is known of silence after this frame, and what is reported of it. Silence
/// that has lasted to the limit stops the transmission; the first sound starts it
/// again.
pub open spec fn silence_turn(s: Sound, now: Duration) -> (Sound, Option<News>) {
    let since = silence_since(s, now);
    let t = Sound { silent_since: since, ..s };
    if !silent(s.samples) {
        if s.idle {
            (Sound { idle: false, ..t }, Some(News::Resumed))
        } else {
            (t, None)
        }
    } else {
        match (s.idle_timeout, since) {
            (Some(limit), Some(since)) => if !s.idle && now.since(since).nanos >= limit.nanos {
                (Sound { idle: true, ..t }, Some(News::Idle { after: limit }))
            } else {
                (t, None)
            },
            _ => (t, None),
        }
    }
}

/// What was counted so far.
pub open spec fn counters_of(s: Sound) -> Counted {
    Counted {
        frames: s.frames,
        iso_sent: s.iso_sent,
        iso_failed: s.iso_failed,
        rssi: s.rssi,
        delivered: s.delivered,
    }
}

/// A frame has gone out: it is counted, reported once a second, and the loop
/// waits for the next interval.
pub open spec fn sent_turn(s: Sound, now: Duration) -> (Sound, Deed) {
    let t = Sound { frames: one_more(s.frames), ..s };
    if now.since(s.reported).nanos >= SECOND_NANOS {
        (t, Deed::ReportStreaming(counters_of(t)))
    } else {
        let (u, duration) = paced(t, now);
        (u, Deed::Sleep { flush: false, duration })
    }
}

/// The next packet of the frame goes out; nothing does while the stream is idle.
pub open spec fn transmit_turn(s: Sound, now: Duration) -> (Sound, Deed) {
    if s.idle {
        let (t, duration) = paced(s, now);
        (t, Deed::Sleep { flush: false, duration })
    } else if s.sent_of_frame < s.packets.len() {
        (s, Deed::SendIso(s.packets[s.sent_of_frame]))
    } else {
        sent_turn(s, now)
    }
}

/// What becomes of a frame that was encoded.
pub open spec fn encoded_turn(s: Sound, frame: Seq<Seq<u8>>, now: Duration) -> (Sound, Deed) {
    let t = Sound { packets: frame, sent_of_frame: 0, ..s };
    let (u, report) = silence_turn(t, now);
    match report {
        Some(report) => (u, Deed::Report(report)),
        None => transmit_turn(u, now),
    }
}

/// What becomes of a packet that was handed to the transport. A link that dropped
/// ends playback; anything else is a fault worth reporting as one.
pub open spec fn handed_turn(s: Sound, failure: Option<Trouble>, now: Duration) -> (Sound, Deed) {
    let t = Sound { iso_sent: one_more(s.iso_sent), ..s };
    match failure {
        Some(e) => (
            Sound { iso_failed: one_more(s.iso_failed), ..t },
            Deed::Finish {
                report: Some(News::Stopped { reason: e.message() }),
                result: match e {
                    Trouble::Transport { usb: true, text } => Ok(()),
                    _ => Err(e),
                },
            },
        ),
        None => {
            let u = if s.sent_of_frame < s.packets.len() {
                Sound { sent_of_frame: s.sent_of_frame + 1, ..t }
            } else {
                t
            };
            if u.sent_of_frame < u.packets.len() {
                (u, Deed::SendIso(u.packets[u.sent_of_frame]))
            } else {
                sent_turn(u, now)
            }
        },
    }
}

/// After the counters were reported: a backlog that keeps growing means that the
/// loop is not keeping up, and dropping it stops latency creeping upward forever.
pub open spec fn streaming_turn(s: Sound, backlog: int, now: Duration) -> (Sound, Deed) {
    let (t, duration) = paced(Sound { reported: now, ..s }, now);
    (t, Deed::Sleep { flush: backlog > s.samples_per_frame * 8, duration })
}

impl Playback {
    /// Moves on to the next interval.
    fn pace(&mut self, now: Duration) -> (r: Duration)
        ensures
            (final(self)@, r) == paced(old(self)@, now),
    {
        let next = self.deadline.saturating_add(self.interval);
        if next.nanos > now.nanos {
            self.deadline = next;
            next.saturating_sub(now)
        } else {
            self.deadline = now;
            Duration { nanos: 0 }
        }
    }

    fn counters(&self) -> (r: StreamCounters)
        ensures
            r@ == counters_of(self@),
    {
        let mut delivered: Vec<u64> = Vec::new();
        let mut i: usize = 0;
        while i < self.delivered.len()
            invariant
                i <= self.delivered@.len(),
                delivered@ == self.delivered@.take(i as int),
            decreases self.delivered@.len() - i,
        {
            delivered.push(self.delivered[i]);
            assert(delivered@ =~= self.delivered@.take(i + 1));
            i += 1;
        }
        assert(self.delivered@.take(self.delivered@.len() as int) =~= self.delivered@);
        StreamCounters {
            frames: self.frames,
            iso_sent: self.iso_sent,
            iso_failed: self.iso_failed,
            rssi: self.rssi,
            delivered,
        }
    }

    /// Counts a frame that has gone out.
    fn finish_frame(&mut self, now: Duration) -> (r: Action)
        ensures
            (final(self)@, r@) == sent_turn(old(self)@, now),
    {
        self.frames = count_one(self.frames);
        if now.saturating_sub(self.reported).nanos >= SECOND_NANOS {
            return Action::ReportStreaming(self.counters());
        }
        let duration = self.pace(now);
        Action::Sleep { flush: false, duration }
    }

    /// Goes on with the frame.
    fn transmit(&mut self, now: Duration) -> (r: Action)
        ensures
            (final(self)@, r@) == transmit_turn(old(self)@, now),
    {
        if self.idle {
            let duration = self.pace(now);
            return Action::Sleep { flush: false, duration };
        }
        if self.sent_of_frame < self.packets.len() {
            return Action::SendIso(copied(self.packets[self.sent_of_frame].as_slice()));
        }
        self.finish_frame(now)
    }

    /// Judges whether there is anything to hear in the frame.
    fn judge_silence(&mut self, now: Duration) -> (r: Option<Progress>)
        ensures
            ({
                let (state, report) = silence_turn(old(self)@, now);
                &&& final(self)@ == state
                &&& match (r, report) {
                    (Some(p), Some(n)) => p@ == n,
                    (None, None) => true,
                    _ => false,
                }
            }),
    {
        if !is_silent(self.samples.as_slice()) {
            self.silent_since = None;
            if self.idle {
                self.idle = false;
                return Some(Progress::Resumed);
            }
            return None;
        }
        let since: Duration = match self.silent_since {
            Some(since) => since,
            None => now,
        };
        self.silent_since = Some(since);
        if let Some(limit) = self.idle_timeout {
            if !self.idle && now.saturating_sub(since).nanos >= limit.nanos {
                self.idle = true;
                return Some(Progress::Idle { after: limit });
            }
        }
        None
    }

    /// Takes the packets of the frame, one per channel, or the error that ends
    /// the loop.
    ///
    /// Silence still costs both radios a packet every interval. Stopping the
    /// transmission leaves the channels and the connection standing, so sound
    /// resumes on the next frame with no renegotiation.
    pub fn encoded(&mut self, frame: Result<Vec<Vec<u8>>, String>, now: Duration) -> (r: Action)
        ensures
            match frame {
                Ok(p) => (final(self)@, r@) == encoded_turn(old(self)@, packets(p@), now),
                Err(t) => final(self)@ == old(self)@ && r@ == (Deed::Finish {
                    report: None,
                    result: Err(Trouble::Encode(t@)),
                }),
            },
    {
        match frame {
            Err(t) => Action::Finish { report: None, result: Err(SessionError::Encode(t)) },
            Ok(frame) => {
                self.packets = frame;
                self.sent_of_frame = 0;
                match self.judge_silence(now) {
                    Some(report) => Action::Report(report),
                    None => self.transmit(now),
                }
            },
        }
    }

    /// After a report the frame goes on.
    pub fn announced(&mut self, now: Duration) -> (r: Action)
        ensures
            (final(self)@, r@) == transmit_turn(old(self)@, now),
    {
        self.transmit(now)
    }

    /// Takes the outcome of handing a packet to the transport.
    pub fn packet_sent(&mut self, failure: Option<SessionError>, now: Duration) -> (r: Action)
        ensures
            (final(self)@, r@) == handed_turn(
                old(self)@,
                match failure {
                    Some(e) => Some(e@),
                    None => None,
                },
                now,
            ),
    {
        self.iso_sent = count_one(self.iso_sent);
        if let Some(e) = failure {
            self.iso_failed = count_one(self.iso_failed);
            let reason = e.text();
            let result: Result<(), SessionError> = match e {
                SessionError::Transport { usb: true, text } => Ok(()),
                other => Err(other),
            };
            return Action::Finish { report: Some(Progress::Stopped { reason }), result };
        }
        let count: usize = self.packets.len();
        if self.sent_of_frame < count {
            self.sent_of_frame = self.sent_of_frame + 1;
        }
        if self.sent_of_frame < count {
            return Action::SendIso(copied(self.packets[self.sent_of_frame].as_slice()));
        }
        self.finish_frame(now)
    }

    /// Takes the number of captured samples that wait, after a report.
    pub fn streaming_reported(&mut self, backlog: usize, now: Duration) -> (r: Action)
        ensures
            (final(self)@, r@) == streaming_turn(old(self)@, backlog as int, now),
    {
        self.reported = now;
        let duration = self.pace(now);
        let flush: bool = backlog / 8 > self.samples_per_frame || (backlog / 8
            == self.samples_per_frame && backlog % 8 > 0);
        Action::Sleep { flush, duration }
    }
}

// ---------------------------------------------------------------------------
// Laws
// ---------------------------------------------------------------------------

/// How many packets reports name for one handle.
pub open spec fn named_for(reports: Seq<(u16, u16)>, handle: u16) -> int
    decreases reports.len(),
{
    if reports.len() == 0 {
        0
    } else {
        named_for(reports.drop_last(), handle) + if reports.last().0 == handle {
            reports.last().1 as int
        } else {
            0
        }
    }
}

/// Every report is counted once, on the channel that it names and no other: the
/// count of a channel grows by what the reports name for its handle, as far as it
/// can be counted.
pub proof fn lemma_deliveries_are_counted_once(
    delivered: Seq<u64>,
    handles: Seq<u16>,
    reports: Seq<(u16, u16)>,
    slot: int,
)
    requires
        delivered.len() == handles.len(),
        0 <= slot < handles.len(),
        handles.no_duplicates(),
    ensures
        with_deliveries(delivered, handles, reports).len() == handles.len(),
        with_deliveries(delivered, handles, reports)[slot] == if delivered[slot] + named_for(
            reports,
            handles[slot],
        ) <= u64::MAX {
            delivered[slot] + named_for(reports, handles[slot])
        } else {
            u64::MAX as int
        },
        named_for(reports, handles[slot]) >= 0,
    decreases reports.len(),
{
    if reports.len() > 0 {
        lemma_deliveries_are_counted_once(delivered, handles, reports.drop_last(), slot);
        crate::cis::lemma_place_in(handles, reports.last().0);
        let found = crate::cis::place_in(handles, reports.last().0);
        if reports.last().0 == handles[slot] {
            assert(handles.contains(handles[slot]));
            assert(found == slot);
        }
    }
}

/// The loop falls idle only after silence that has lasted to the limit, and never
/// where there is no limit.
pub proof fn lemma_idle_needs_lasting_silence(s: Sound, now: Duration)
    requires
        !s.idle,
        silence_turn(s, now).0.idle,
    ensures
        s.idle_timeout is Some,
        silent(s.samples),
        silence_since(s, now) is Some,
        now.since(silence_since(s, now)->0).nanos >= (s.idle_timeout->0).nanos,
        silence_turn(s, now).1 == Some(News::Idle { after: s.idle_timeout->0 }),
{
}

/// The first frame with anything in it ends the idling, and is sent.
pub proof fn lemma_sound_ends_idling(s: Sound, frame: Seq<Seq<u8>>, now: Duration)
    requires
        !silent(s.samples),
        frame.len() > 0,
    ensures
        ({
            let (t, deed) = encoded_turn(s, frame, now);
            &&& !t.idle
            &&& t.silent_since is None
            &&& s.idle ==> deed == Deed::Report(News::Resumed)
            &&& !s.idle ==> deed == Deed::SendIso(frame[0])
            &&& transmit_turn(t, now).1 == Deed::SendIso(frame[0])
        }),
{
}

/// While the loop is idle nothing is sent: a silent frame is paced, and that is
/// all.
pub proof fn lemma_idling_sends_nothing(s: Sound, frame: Seq<Seq<u8>>, now: Duration)
    requires
        s.idle,
        silent(s.samples),
    ensures
        encoded_turn(s, frame, now).0.idle,
        encoded_turn(s, frame, now).0.iso_sent == s.iso_sent,
        encoded_turn(s, frame, now).0.frames == s.frames,
        encoded_turn(s, frame, now).1 == (Deed::Sleep {
            flush: false,
            duration: paced(s, now).1,
        }),
{
}

/// Pacing never accumulates debt: the next deadline is never in the past, and the
/// sleep never lasts longer than one interval past the old one.
pub proof fn lemma_pacing_has_no_debt(s: Sound, now: Duration)
    ensures
        paced(s, now).0.deadline.nanos >= now.nanos,
        paced(s, now).1 == paced(s, now).0.deadline.since(now),
        s.deadline.nanos <= now.nanos ==> paced(s, now).1.nanos <= s.interval.nanos,
{
}

/// What is listened to never lags by more than a fifth of a second.
pub proof fn lemma_monitor_does_not_lag(s: Sound, mono: Seq<i16>)
    ensures
        with_monitor(s, mono).monitor_samples.len() <= s.sample_rate / 5,
{
}

/// A link that is gone ends the loop, whatever else the controller said: the last
/// event that names one of our handles gives the reason.
pub proof fn lemma_lost_link_ends_the_loop(
    s: Sound,
    before: Seq<EventView>,
    e: EventView,
    after: Seq<EventView>,
    now: Duration,
)
    requires
        disconnected(e) is Some,
        is_watched(s, (disconnected(e)->0).0),
        forall|i: int|
            0 <= i < after.len() ==> (disconnected(#[trigger] after[i]) is Some ==> !is_watched(
                s,
                (disconnected(after[i])->0).0,
            )),
    ensures
        events_turn(s, before.push(e) + after, now).1 == (Deed::Finish {
            report: Some(News::Disconnected { reason: (disconnected(e)->0).1 }),
            result: Ok(()),
        }),
    decreases after.len(),
{
    let all = before.push(e) + after;
    if after.len() == 0 {
        assert(all =~= before.push(e));
        assert(all.last() == e);
    } else {
        assert(all.last() == after.last());
        assert(all.drop_last() =~= before.push(e) + after.drop_last());
        lemma_lost_link_ends_the_loop(s, before, e, after.drop_last(), now);
    }
}

/// Whether a frame is put out at the gain that the user set: as it is between silence
/// and twice the level, and held to these bounds beyond them.
pub open spec fn is_played(deed: Deed, samples: Seq<i16>, wish: Number) -> bool {
    deed matches Deed::Screen { samples: given, gain } && {
        &&& given == samples
        &&& wish is NotANumber || 0 <= wish.rank() <= 2 * unit() ==> gain == wish
        &&& wish !is NotANumber && wish.rank() < 0 ==> gain is Finite && gain.rank() == 0
        &&& wish !is NotANumber && wish.rank() > 2 * unit() ==> gain is Finite && gain.rank() == 2
            * unit()
    }
}

proof fn lemma_frame_is_played(s: Sound)
    requires
        s.playback_enabled,
        s.live.output_gain.wf(),
    ensures
        is_played(frame_deed(s), s.samples, s.live.output_gain),
{
    lemma_near_whole(false, 0);
    lemma_near_whole(false, 2);
    lemma_pow2_pos(149);
    let u = pow2(149);
    assert(0 * u == 0) by (nonlinear_arith);
}

/// The volume that the user set is what is heard. A captured frame goes out at the live
/// gain: at half the level where half was asked for, silent at zero, and never louder
/// than twice. Where nothing is listened to beside it the frame is as it was captured.
pub proof fn lemma_gain_is_what_the_user_set(s: Sound, frame: Seq<i16>)
    requires
        s.wf(),
        s.playback_enabled,
    ensures
        ({
            let (t, deed) = captured_turn(s, Some(frame));
            &&& t.live == s.live
            &&& !s.live.monitor_enabled ==> t.samples == frame && is_played(
                deed,
                frame,
                s.live.output_gain,
            )
            &&& s.live.monitor_enabled && !s.monitor_open ==> is_played(
                deed,
                t.samples,
                s.live.output_gain,
            )
            &&& s.live.monitor_enabled && s.monitor_open ==> t.samples == frame && deed
                == Deed::CaptureMonitor((frame.len() / 2) as int)
        }),
        forall|heard: Option<Seq<i16>>| #[trigger]
            is_played(
                monitored_turn(s, heard).1,
                monitored_turn(s, heard).0.samples,
                s.live.output_gain,
            ),
{
    lemma_frame_is_played(captured_turn(s, Some(frame)).0);
    assert forall|heard: Option<Seq<i16>>| #[trigger]
        is_played(
            monitored_turn(s, heard).1,
            monitored_turn(s, heard).0.samples,
            s.live.output_gain,
        ) by {
        lemma_frame_is_played(monitored_turn(s, heard).0);
    }
}

/// Where playback is off, or nothing was captured, nothing is played.
pub proof fn lemma_nothing_is_played_without_playback(s: Sound, frame: Option<Seq<i16>>)
    requires
        !s.playback_enabled || frame is None,
    ensures
        captured_turn(s, frame).1 matches Deed::Sleep { flush, duration } && !flush && 4
            * duration.nanos <= s.interval.nanos < 4 * duration.nanos + 4,
{
}

/// What is listened to is mixed into the music at its own gain, one sample to both ears;
/// where nothing was captured of it the music is as it was.
pub proof fn lemma_monitor_is_mixed_in(s: Sound, heard: Option<Seq<i16>>, p: int)
    requires
        s.wf(),
        0 <= p,
        2 * p + 1 < s.samples.len(),
    ensures
        ({
            let now = monitored_turn(s, heard).0.samples;
            let left = s.samples[2 * p] as int;
            let right = s.samples[2 * p + 1] as int;
            &&& now.len() == s.samples.len()
            &&& heard is Some && p < (heard->0).len() ==> {
                let level = scaled((heard->0)[p], s.live.monitor_gain);
                if s.live.monitor_replace {
                    now[2 * p] == level && now[2 * p + 1] == level
                } else {
                    &&& -0x8000 <= left + level <= 0x7FFF ==> now[2 * p] == left + level
                    &&& -0x8000 <= right + level <= 0x7FFF ==> now[2 * p + 1] == right + level
                }
            }
            &&& heard is None && !s.live.monitor_replace ==> now[2 * p] == left && now[2 * p + 1] == right
        }),
{
    let source = match heard {
        Some(h) => h,
        None => taken(Seq::empty(), s.samples.len() / 2),
    };
    let mono = to_samples(all_scaled(source, s.live.monitor_gain));
    lemma_both_ears_hear_the_microphone(s.samples, mono, s.live.monitor_replace, p);
    if p < source.len() {
        lemma_scaled_is_a_sample(source[p], s.live.monitor_gain);
        assert(mono[p] == scaled(source[p], s.live.monitor_gain));
        if heard is None {
            lemma_silence_stays_silence(s.live.monitor_gain);
        }
    }
}

/// The queue of the headset microphone is played in its order: the front of it goes into
/// the frame, and what is left stays for the next, up to a fifth of a second.
pub proof fn lemma_monitor_queue_is_played_in_order(s: Sound, frame: Seq<i16>, p: int)
    requires
        s.wf(),
        s.playback_enabled,
        s.live.monitor_enabled,
        !s.monitor_open,
        0 <= p,
        2 * p + 1 < frame.len(),
    ensures
        ({
            let t = captured_turn(s, Some(frame)).0;
            let wanted = (frame.len() / 2) as int;
            let sample: int = if p < s.monitor_samples.len() {
                s.monitor_samples[p] as int
            } else {
                0
            };
            let rest = if wanted <= s.monitor_samples.len() {
                s.monitor_samples.skip(wanted)
            } else {
                Seq::empty()
            };
            &&& t.samples.len() == frame.len()
            &&& s.live.monitor_replace ==> t.samples[2 * p] == sample && t.samples[2 * p + 1]
                == sample
            &&& !s.live.monitor_replace && -0x8000 <= frame[2 * p] + sample <= 0x7FFF
                ==> t.samples[2 * p] == frame[2 * p] + sample
            &&& !s.live.monitor_replace && -0x8000 <= frame[2 * p + 1] + sample <= 0x7FFF
                ==> t.samples[2 * p + 1] == frame[2 * p + 1] + sample
            &&& rest.len() <= s.sample_rate / 5 ==> t.monitor_samples == rest
            &&& rest.len() > s.sample_rate / 5 ==> t.monitor_samples.len() == s.sample_rate / 5
                && t.monitor_samples == rest.skip(rest.len() - s.sample_rate / 5)
        }),
{
    let mono = taken(s.monitor_samples, frame.len() / 2);
    lemma_both_ears_hear_the_microphone(frame, mono, s.live.monitor_replace, p);
}

/// The loop after so many packets of its frame were handed over.
pub open spec fn after_handing(s: Sound, n: nat, now: Duration) -> (Sound, Deed)
    decreases n,
{
    if n == 0 {
        transmit_turn(s, now)
    } else {
        handed_turn(after_handing(s, (n - 1) as nat, now).0, None, now)
    }
}

/// Every packet of a frame goes out, once and in its order, and is counted; the frame
/// counts once the last one is out.
pub proof fn lemma_every_packet_goes_out(s: Sound, n: nat, now: Duration)
    requires
        !s.idle,
        s.sent_of_frame == 0,
        0 < s.packets.len(),
        s.iso_sent + s.packets.len() < u64::MAX,
        s.frames < u64::MAX,
        n <= s.packets.len(),
    ensures
        ({
            let (t, deed) = after_handing(s, n, now);
            &&& t.iso_sent == s.iso_sent + n
            &&& t.packets == s.packets
            &&& t.samples == s.samples
            &&& t.idle == s.idle
            &&& t.iso_failed == s.iso_failed
            &&& n < s.packets.len() ==> t.sent_of_frame == n && deed == Deed::SendIso(
                s.packets[n as int],
            ) && t.frames == s.frames
            &&& n == s.packets.len() ==> t.frames == s.frames + 1 && !(deed is SendIso)
        }),
    decreases n,
{
    if n > 0 {
        lemma_every_packet_goes_out(s, (n - 1) as nat, now);
    }
}

/// A frame that was encoded is the one that goes out, and in full.
pub proof fn lemma_encoded_frame_is_the_one_sent(s: Sound, frame: Seq<Seq<u8>>, now: Duration)
    ensures
        encoded_turn(s, frame, now).0.packets == frame,
        encoded_turn(s, frame, now).0.sent_of_frame == 0,
        encoded_turn(s, frame, now).0.samples == s.samples,
        !encoded_turn(s, frame, now).0.idle && frame.len() > 0 && encoded_turn(
            s,
            frame,
            now,
        ).1 !is Report ==> encoded_turn(s, frame, now).1 == Deed::SendIso(frame[0]),
{
}

/// Silence that lasts to the limit does stop the transmission, and says so once.
pub proof fn lemma_lasting_silence_idles(s: Sound, frame: Seq<Seq<u8>>, since: Duration, now: Duration)
    requires
        forall|i: int| 0 <= i < s.samples.len() ==> -16 <= #[trigger] s.samples[i] <= 16,
        s.silent_since == Some(since),
        s.idle_timeout is Some,
        now.nanos >= since.nanos,
    ensures
        ({
            let (t, deed) = encoded_turn(s, frame, now);
            let lasted = now.nanos - since.nanos >= (s.idle_timeout->0).nanos;
            &&& t.silent_since == Some(since)
            &&& t.idle == (s.idle || lasted)
            &&& !s.idle && lasted ==> deed == Deed::Report(
                News::Idle { after: s.idle_timeout->0 },
            )
            &&& s.idle ==> deed is Sleep
        }),
{
    lemma_silence_is_quiet(s.samples);
}

/// Silence is measured from its first frame, and any sound ends it.
pub proof fn lemma_silence_begins_with_its_first_frame(s: Sound, frame: Seq<Seq<u8>>, now: Duration)
    ensures
        ({
            let quiet = forall|i: int|
                0 <= i < s.samples.len() ==> -16 <= #[trigger] s.samples[i] <= 16;
            let since = encoded_turn(s, frame, now).0.silent_since;
            &&& quiet && s.silent_since is None ==> since == Some(now)
            &&& quiet && s.silent_since is Some ==> since == s.silent_since
            &&& !quiet ==> since is None && !encoded_turn(s, frame, now).0.idle
        }),
{
    lemma_silence_is_quiet(s.samples);
}

/// Frames keep their pace: from one to the next deadline it is one interval, and the
/// sleep ends at the deadline.
pub proof fn lemma_one_frame_an_interval(s: Sound, now: Duration)
    requires
        s.deadline.nanos + s.interval.nanos <= u128::MAX,
    ensures
        s.deadline.nanos + s.interval.nanos > now.nanos ==> {
            &&& paced(s, now).0.deadline.nanos == s.deadline.nanos + s.interval.nanos
            &&& now.nanos + paced(s, now).1.nanos == s.deadline.nanos + s.interval.nanos
        },
        s.deadline.nanos + s.interval.nanos <= now.nanos ==> {
            &&& paced(s, now).0.deadline == now
            &&& paced(s, now).1.nanos == 0
        },
{
}

/// The counters are reported once a second, with everything counted by then, and the
/// sleep after a frame lasts to the next deadline.
pub proof fn lemma_counters_are_reported_every_second(s: Sound, now: Duration)
    requires
        s.frames < u64::MAX,
        now.nanos >= s.reported.nanos,
    ensures
        now.nanos - s.reported.nanos >= 1_000_000_000 ==> sent_turn(s, now).1
            == Deed::ReportStreaming(
            Counted {
                frames: (s.frames + 1) as u64,
                iso_sent: s.iso_sent,
                iso_failed: s.iso_failed,
                rssi: s.rssi,
                delivered: s.delivered,
            },
        ),
        now.nanos - s.reported.nanos < 1_000_000_000 ==> sent_turn(s, now).1 == (Deed::Sleep {
            flush: false,
            duration: paced(s, now).1,
        }),
        forall|backlog: int| (#[trigger] streaming_turn(s, backlog, now)).0.reported == now,
        forall|backlog: int|
            (#[trigger] streaming_turn(s, backlog, now)).1 == (Deed::Sleep {
                flush: backlog > 8 * s.samples_per_frame,
                duration: paced(s, now).1,
            }),
{
}

/// A transport that fails ends the loop at once. A link that dropped is no fault of ours;
/// anything else is reported as one.
pub proof fn lemma_failed_packet_ends_the_loop(s: Sound, e: Trouble, now: Duration)
    requires
        s.iso_failed < u64::MAX,
        s.iso_sent < u64::MAX,
    ensures
        ({
            let (t, deed) = handed_turn(s, Some(e), now);
            &&& t.iso_failed == s.iso_failed + 1
            &&& t.iso_sent == s.iso_sent + 1
            &&& t.frames == s.frames
            &&& deed matches Deed::Finish { report, result } && {
                &&& report == Some(News::Stopped { reason: e.message() })
                &&& result is Ok <==> (e matches Trouble::Transport { usb, .. } && usb)
                &&& result is Err ==> result->Err_0 == e
            }
        }),
{
}

/// The signal strength is asked for at most once a second and one question at a time,
/// of the connection that plays: Read RSSI, byte by byte.
pub proof fn lemma_signal_is_asked_for(s: Sound, now: Duration)
    requires
        s.acl_handle is Some,
        s.rssi_asked is Some ==> now.nanos >= (s.rssi_asked->0).nanos,
    ensures
        ({
            let due = !s.rssi_pending && (s.rssi_asked is None || now.nanos - (
            s.rssi_asked->0).nanos >= 1_000_000_000);
            let (t, deed) = events_turn(s, Seq::empty(), now);
            &&& t == s
            &&& !due ==> deed == Deed::ReadLive
            &&& due ==> (deed matches Deed::SendCommand(c) && {
                &&& c.len() == 5
                &&& c[0] == 0x05 && c[1] == 0x14 && c[2] == 2
                &&& c[3] as int + 256 * (c[4] as int) == s.acl_handle->0
            })
        }),
{
}

/// The answer to that question counts where it is about our connection and went well,
/// and ends the wait for it in any case.
pub proof fn lemma_signal_is_heard(s: Sound, e: EventView)
    requires
        e.code == 0x0E,
        e.params.len() >= 7,
        e.params[1] == 0x05,
        e.params[2] == 0x14,
    ensures
        !with_events(s, seq![e]).rssi_pending,
        with_events(s, seq![e]).rssi == if e.params[3] == 0 && s.acl_handle is Some
            && e.params[4] as int + 256 * (e.params[5] as int) == s.acl_handle->0 {
            Some(e.params[6] as i8)
        } else {
            s.rssi
        },
{
    let es = seq![e];
    assert(es.drop_last() =~= Seq::empty());
    assert(with_events(s, es.drop_last()) == s);
    assert(es.last() == e);
    let params = e.params.skip(3);
    assert(params[0] == e.params[3] && params[1] == e.params[4]);
    assert(params[2] == e.params[5] && params[3] == e.params[6]);
}

/// Whether an event says that a handle is gone, byte by byte.
pub open spec fn ends(e: EventView, handle: u16, reason: u8) -> bool {
    &&& e.code == 0x05
    &&& e.params.len() >= 4
    &&& e.params[0] == 0
    &&& e.params[1] as int + 256 * (e.params[2] as int) == handle
    &&& e.params[3] == reason
}

/// The loop goes on for as long as it has a link: it ends over an event exactly where
/// the event says that one of the channels or the connection is gone, and it says why.
pub proof fn lemma_loop_ends_with_its_link(s: Sound, e: EventView, now: Duration)
    ensures
        ({
            let deed = events_turn(s, seq![e], now).1;
            &&& forall|handle: u16, reason: u8| #[trigger]
                ends(e, handle, reason) && (s.cis_handles.contains(handle) || s.acl_handle == Some(
                    handle,
                )) ==> deed == (Deed::Finish {
                    report: Some(News::Disconnected { reason }),
                    result: Ok(()),
                })
            &&& (forall|handle: u16, reason: u8| #[trigger]
                ends(e, handle, reason) ==> !s.cis_handles.contains(handle) && s.acl_handle
                    != Some(handle)) ==> deed !is Finish
        }),
{
    let es = seq![e];
    assert(es.drop_last() =~= Seq::empty());
    assert(gone_in(s, es.drop_last()) is None);
    assert(es.last() == e);
    if let Some((handle, reason)) = disconnected(e) {
        assert(ends(e, handle, reason));
    }
}

/// Microphone audio is decoded exactly where it comes over the channel of the
/// microphone, and what was decoded is published as it is, at its own rate and gain.
pub proof fn lemma_microphone_is_published(s: Sound, raw: Seq<u8>, d: Seq<i16>)
    ensures
        iso_data_in(raw) is Some && s.microphone_handle == Some((iso_data_in(raw)->0).0)
            ==> packet_turn(s, raw) == (s, Deed::Decode((iso_data_in(raw)->0).1)),
        packet_turn(s, raw).1 is Decode ==> iso_data_in(raw) is Some && s.microphone_handle == Some(
            (iso_data_in(raw)->0).0,
        ),
        s.renders ==> decoded_turn(s, Some(d)).1 == (Deed::Render {
            samples: d,
            rate: s.microphone_rate,
            gain: s.live.microphone_gain,
        }),
        !s.renders ==> decoded_turn(s, Some(d)).1 == Deed::ReadAcl,
        decoded_turn(s, None) == (s, Deed::ReadAcl),
        !s.live.monitor_enabled || s.live.monitor_source != "headset"@ || !s.playback_enabled
            ==> decoded_turn(s, Some(d)).0 == s,
        s.live.monitor_enabled && s.live.monitor_source == "headset"@ && s.playback_enabled ==> {
            let t = decoded_turn(s, Some(d)).0;
            let more = resampled(d, s.microphone_rate, s.sample_rate, s.live.monitor_gain);
            &&& t.monitor_samples.len() == s.monitor_samples.len() + more.len()
            &&& t.monitor_samples.take(s.monitor_samples.len() as int) == s.monitor_samples
            &&& t.samples == s.samples
        },
{
    if s.live.monitor_enabled && s.live.monitor_source == headset() && s.playback_enabled {
        let t = decoded_turn(s, Some(d)).0;
        assert(t.monitor_samples.take(s.monitor_samples.len() as int) =~= s.monitor_samples);
    }
    reveal_strlit("headset");
}

/// New live settings hold from the next frame on, and what is listened to follows them:
/// nothing where that is off, no device of the PC for the microphone of the headset.
/// Where it stays the same nothing of it is lost.
pub proof fn lemma_live_settings_hold(s: Sound, live: Live)
    ensures
        ({
            let (t, deed) = live_turn(s, live);
            let wanted = if live.monitor_enabled {
                Some(live.monitor_source)
            } else {
                None
            };
            &&& t.live == live
            &&& t.monitor == wanted
            &&& s.monitor == wanted ==> t.monitor_samples == s.monitor_samples && t.monitor_open
                == s.monitor_open && deed !is SwitchMonitor
            &&& s.monitor != wanted ==> t.monitor_samples.len() == 0 && (deed
                matches Deed::SwitchMonitor(source) && source == (if wanted == Some("headset"@) {
                None
            } else {
                wanted
            }))
            &&& t.samples == s.samples
            &&& t.volume == s.volume
        }),
{
}

/// A press on the earcup moves the slider: a notification of the volume state, byte by
/// byte, sets the level to that of the headphones, and nothing else does.
pub proof fn lemma_earcup_moves_the_slider(s: Sound, handle: u16, frame: Frame)
    requires
        frame.cid == 4,
        frame.payload.len() >= 6,
        frame.payload[0] == 0x1B,
        s.volume is Some,
    ensures
        ({
            let bridge = s.volume->0;
            let said = VolumeState {
                setting: frame.payload[3],
                muted: frame.payload[4] != 0,
                change_counter: frame.payload[5],
            };
            let (t, deed) = frame_turn(s, handle, frame);
            let ours = frame.payload[1] as int + 256 * (frame.payload[2] as int)
                == bridge.handles.state;
            &&& ours && said != bridge.volume ==> t.volume == Some(
                VolumeBridge { volume: said, ..bridge },
            )
            &&& ours && said != bridge.volume && bridge.slider ==> deed == (Deed::MoveSlider {
                level: near(false, frame.payload[3] as nat, 255),
                muted: frame.payload[4] != 0,
            })
            &&& !ours || said == bridge.volume ==> t == s
            &&& !ours || said == bridge.volume || !bridge.slider ==> deed == Deed::ReadAcl
        }),
{
    let value = frame.payload.skip(3);
    assert(value[0] == frame.payload[3] && value[1] == frame.payload[4]);
    assert(value[2] == frame.payload[5]);
}

} // verus!
