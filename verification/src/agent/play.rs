//! Setting a stream up, playing, and what is left afterwards.
//!
//! Each step that the link, the radio or the planner has to take is asked for, and
//! its outcome is handed to the method that is named after it.

use vstd::prelude::*;

use crate::agent::change::{
    changed, lemma_names_and_presets_belong_together, lemma_preset_is_spelled_out, parse_preset,
    preset_of,
};
use crate::agent::endpoint::{
    ask_device_for_qos, lemma_every_endpoint_is_read, preference_of, readings_lines,
    readings_stage, DevicePreference, Readings,
};
use crate::agent::message::{lines, log, nothing, say, Line, Message};
use crate::agent::state::{Agent, Standing};
use crate::agent::tuning::{
    codec_in, custom_codec, custom_qos, is_on, qos_in, text_or, Values,
};
use crate::bap::{
    ase_in, parse_state, state_name, state_text, CodecConfiguration, Preset, QosConfiguration,
    CONTEXT_MEDIA, LATENCY_BALANCED, LOCATION_FRONT_LEFT, LOCATION_FRONT_RIGHT, LOCATION_MONO,
    LOCATION_STEREO, STATE_STREAMING,
};
use crate::bytes::{copied, copied_words, holds_byte};
use crate::cis::{Channels, CisOutcome};
use crate::link::procedure::Said;
use crate::link::{Link, LinkState};
use crate::number::{lemma_decimal_reads_back, lemma_near_whole};
use crate::session::{SessionError, Trouble};
use crate::settings::{number_in, value_in, Settings};
use crate::stream::{Microphone, Planned, StreamPlan};
use crate::text::{
    decimal, decimal_text, hex, join, joined, phrase, push_decimal, push_hex, same, sentence, texts,
};
use crate::time::Duration;

verus! {

/// How long the endpoints have to start.
pub const START_NANOS: u128 = 3_000_000_000;

/// How long the wait is before they are asked again.
pub const ASK_AGAIN_NANOS: u128 = 80_000_000;

/// The reason that stands for a connection that timed out.
pub const TIMED_OUT: u8 = 0x08;

/// What the microphone is to sound like.
#[derive(Debug, Clone, Copy, PartialEq, Eq, Structural)]
pub enum MicrophoneQuality {
    Voice,
    Balanced,
    High,
}

/// What a stream is planned from.
#[derive(Debug, Clone, Copy, PartialEq, Eq, Structural)]
pub enum Request {
    Custom { codec: CodecConfiguration, qos: QosConfiguration, single_cis: bool },
    Preset { preset: Preset, single_cis: bool },
}

/// A stream that is being set up.
#[derive(Debug)]
pub struct Setup {
    pub handle: u16,
    pub control_point: u16,
    /// Whether the user spelled the codec out.
    pub custom: bool,
    /// The name of whatever produced the plan.
    pub label: String,
    pub plan: StreamPlan,
    /// The endpoints, each with its handle.
    pub sinks: Vec<(u8, u16)>,
    pub sources: Vec<(u8, u16)>,
    pub cis: Vec<u16>,
    pub deadline: Duration,
}

/// What is known of a stream that is being set up.
pub struct Staging {
    pub handle: u16,
    pub control_point: u16,
    pub custom: bool,
    pub label: Seq<char>,
    pub plan: Planned,
    pub sinks: Seq<(u8, u16)>,
    pub sources: Seq<(u8, u16)>,
    pub cis: Seq<u16>,
    pub deadline: Duration,
}

impl View for Setup {
    type V = Staging;

    open spec fn view(&self) -> Staging {
        Staging {
            handle: self.handle,
            control_point: self.control_point,
            custom: self.custom,
            label: self.label@,
            plan: self.plan@,
            sinks: self.sinks@,
            sources: self.sources@,
            cis: self.cis@,
            deadline: self.deadline,
        }
    }
}

/// What has to be taken down before giving up.
#[derive(Debug)]
pub struct Clearing {
    /// Channels that did come up. A group with one of them in it cannot be removed.
    pub channels: Vec<u16>,
    /// Whether the group has to be removed.
    pub group: bool,
}

/// What a setup needs next.
#[derive(Debug)]
pub enum Call {
    /// Carry both ears on one channel.
    IntoMono,
    /// The shape that older headsets were tuned to.
    IntoLegacy,
    AddMicrophone(MicrophoneQuality),
    /// Find the endpoints, and those of the microphone, too.
    ReadHandles { sources: bool },
    /// Put everything back to idle, wait a fifth of a second and configure the
    /// codec.
    ConfigureCodec,
    /// Read what each endpoint prefers.
    ReadPreferences,
    /// Configure the radio and enable the stream.
    ConfigureQos,
    Establish,
    /// Tell the microphone that its receiver is ready.
    StartReceiver(u8),
    /// Read the state of each endpoint.
    Watch(Vec<(u8, u16)>),
    /// Wait, and read the states again.
    WatchAgain(Vec<(u8, u16)>),
    /// Read the state of the microphone.
    WatchMicrophone(u16),
    /// Wait, and read the state of the microphone again.
    WatchMicrophoneAgain(u16),
    RunAudio,
    Fail { clearing: Clearing, text: String },
}

/// What a setup needs, whatever holds it.
pub enum Due {
    IntoMono,
    IntoLegacy,
    AddMicrophone(MicrophoneQuality),
    ReadHandles { sources: bool },
    ConfigureCodec,
    ReadPreferences,
    ConfigureQos,
    Establish,
    StartReceiver(u8),
    Watch(Seq<(u8, u16)>),
    WatchAgain(Seq<(u8, u16)>),
    WatchMicrophone(u16),
    WatchMicrophoneAgain(u16),
    RunAudio,
    Fail { channels: Seq<u16>, group: bool, text: Seq<char> },
}

impl View for Call {
    type V = Due;

    open spec fn view(&self) -> Due {
        match self {
            Call::IntoMono => Due::IntoMono,
            Call::IntoLegacy => Due::IntoLegacy,
            Call::AddMicrophone(quality) => Due::AddMicrophone(*quality),
            Call::ReadHandles { sources } => Due::ReadHandles { sources: *sources },
            Call::ConfigureCodec => Due::ConfigureCodec,
            Call::ReadPreferences => Due::ReadPreferences,
            Call::ConfigureQos => Due::ConfigureQos,
            Call::Establish => Due::Establish,
            Call::StartReceiver(ase_id) => Due::StartReceiver(*ase_id),
            Call::Watch(endpoints) => Due::Watch(endpoints@),
            Call::WatchAgain(endpoints) => Due::WatchAgain(endpoints@),
            Call::WatchMicrophone(handle) => Due::WatchMicrophone(*handle),
            Call::WatchMicrophoneAgain(handle) => Due::WatchMicrophoneAgain(*handle),
            Call::RunAudio => Due::RunAudio,
            Call::Fail { clearing, text } => Due::Fail {
                channels: clearing.channels@,
                group: clearing.group,
                text: text@,
            },
        }
    }
}

/// Giving up with nothing to take down.
pub open spec fn failed(text: Seq<char>) -> Due {
    Due::Fail { channels: Seq::empty(), group: false, text }
}

fn fail(text: String) -> (r: Call)
    ensures
        r@ == failed(text@),
{
    let channels: Vec<u16> = Vec::new();
    assert(channels@ =~= Seq::empty());
    Call::Fail { clearing: Clearing { channels, group: false }, text }
}

// ---------------------------------------------------------------------------
// Planning
// ---------------------------------------------------------------------------

/// What a stream is planned from, by the settings.
pub open spec fn request_in(values: Values, single_cis: bool) -> Request {
    let chosen = text_or(values, "preset"@, "windows"@);
    if chosen == "custom"@ {
        Request::Custom { codec: codec_in(values), qos: qos_in(values), single_cis }
    } else {
        Request::Preset {
            preset: match preset_of(chosen) {
                Some(preset) => preset,
                None => Preset::WindowsDefault,
            },
            single_cis,
        }
    }
}

/// Whether the settings spell the codec out.
pub open spec fn is_custom(values: Values) -> bool {
    text_or(values, "preset"@, "windows"@) == "custom"@
}

/// The radio settings of a plan. Those that the user typed in count only where the
/// codec is spelled out: a preset carries settings that were measured, and a stale
/// saved value must not override them.
pub open spec fn typed_qos(qos: QosConfiguration, values: Values) -> QosConfiguration {
    if is_custom(values) {
        QosConfiguration {
            phy: match value_in(values, "phy"@) {
                Some(phy) => if phy == "1M"@ {
                    0x01
                } else {
                    0x02
                },
                None => qos.phy,
            },
            retransmission_number: match number_in(values, "retransmissions"@) {
                Some(n) => n.truncated(0xFF) as u8,
                None => qos.retransmission_number,
            },
            ..qos
        }
    } else {
        qos
    }
}

/// The quality that the settings ask for.
pub open spec fn quality_in(values: Values) -> MicrophoneQuality {
    let said = text_or(values, "microphone_quality"@, "balanced"@);
    if said == "voice"@ {
        MicrophoneQuality::Voice
    } else if said == "high"@ {
        MicrophoneQuality::High
    } else {
        MicrophoneQuality::Balanced
    }
}

/// What is said of monitoring.
pub open spec fn monitoring_line(values: Values) -> Line {
    Line::Log(
        if is_on(values, "monitor_enabled"@) {
            "monitoring enabled according to settings"@
        } else {
            "monitoring disabled; no PC microphone is opened"@
        },
    )
}

/// What is said of a plan that is complete, and what follows.
pub open spec fn described(before: Seq<Line>, g: Staging, values: Values) -> (Seq<Line>, Due) {
    (
        before.push(monitoring_line(values)).push(
            Line::Log(
                "ASE control point "@ + hex(g.control_point as nat, 4) + ", preset "@ + g.label,
            ),
        ),
        Due::ReadHandles { sources: g.plan.microphone is Some },
    )
}

/// What follows once the plan has its shape: the microphone, where it is on.
pub open spec fn microphone_turn(before: Seq<Line>, g: Staging, values: Values) -> (Seq<Line>, Due) {
    if text_or(values, "microphone_mode"@, "off"@) == "on"@ {
        (before, Due::AddMicrophone(quality_in(values)))
    } else {
        described(
            before.push(
                Line::Log(
                    "headset microphone disabled; Source ASE is released and radio budget stays with playback"@,
                ),
            ),
            g,
            values,
        )
    }
}

/// What follows a plan: mono is a choice, not only a fallback.
pub open spec fn shape_turn(g: Staging, values: Values) -> (Seq<Line>, Due) {
    let mode = text_or(values, "audio_mode"@, "stereo"@);
    if mode == "mono"@ {
        (
            seq![Line::Log("mono mode: one channel with left and right mixed"@)],
            Due::IntoMono,
        )
    } else if mode == "legacy"@ {
        (
            seq![
                Line::Log(
                    "legacy mode: both sides report left, sequential packing, without response reads"@,
                ),
            ],
            Due::IntoLegacy,
        )
    } else {
        microphone_turn(Seq::empty(), g, values)
    }
}

fn setting<'a>(settings: &'a Settings, key: &str, other: &'a str) -> (r: &'a str)
    requires
        settings.wf(),
    ensures
        r@ == text_or(settings@, key@, other@),
{
    match settings.get(key) {
        Some(text) => text,
        None => other,
    }
}

fn switched_on(settings: &Settings, key: &str) -> (r: bool)
    requires
        settings.wf(),
    ensures
        r == is_on(settings@, key@),
{
    match settings.bool(key) {
        Some(flag) => flag,
        None => false,
    }
}

impl Agent {
    /// What a stream is to be planned from, if one can be set up at all.
    pub fn request_plan(&self) -> (r: Result<Request, String>)
        requires
            self.wf(),
        ensures
            match (self@.capabilities, self@.control_point, self@.session) {
                (None, _, _) => r is Err && r->Err_0@
                    == "device capabilities have not been loaded"@,
                (Some(_), None, _) => r is Err && r->Err_0@ == "ASE control point is unknown"@,
                (Some(_), Some(_), None) => r is Err && r->Err_0@ == "adapter is off"@,
                (Some(_), Some(_), Some(session)) => r == Ok::<Request, String>(
                    request_in(self@.settings, session.config.prefer_single_cis),
                ),
            },
    {
        if self.capabilities.is_none() {
            return Err("device capabilities have not been loaded".to_owned());
        }
        if self.control_point.is_none() {
            return Err("ASE control point is unknown".to_owned());
        }
        let single_cis: bool = match &self.session {
            None => {
                return Err("adapter is off".to_owned());
            },
            Some(session) => session.config().prefer_single_cis,
        };
        let chosen: &str = setting(&self.settings, "preset", "windows");
        if same(chosen, "custom") {
            Ok(
                Request::Custom {
                    codec: custom_codec(&self.settings),
                    qos: custom_qos(&self.settings),
                    single_cis,
                },
            )
        } else {
            let preset: Preset = match parse_preset(chosen) {
                Some(preset) => preset,
                None => Preset::WindowsDefault,
            };
            Ok(Request::Preset { preset, single_cis })
        }
    }

    /// Takes the plan with the preset that it follows, or why there is none.
    pub fn planned(&self, handle: u16, outcome: Result<(StreamPlan, Preset), String>) -> (r: Result<
        (Setup, Vec<Message>, Call),
        String,
    >)
        requires
            self.wf(),
        ensures
            match (outcome, self@.control_point) {
                (Err(t), _) => r is Err && r->Err_0@ == (if is_custom(self@.settings) {
                    "device rejected the custom configuration: "@
                } else {
                    "stream could not be scheduled: "@
                }) + t@,
                (Ok(_), None) => r is Err && r->Err_0@ == "ASE control point is unknown"@,
                (Ok((plan, preset)), Some(control_point)) => {
                    let (setup, said, call) = r->Ok_0;
                    let custom = is_custom(self@.settings);
                    let staging = Staging {
                        handle,
                        control_point,
                        custom,
                        label: if custom {
                            "custom"@
                        } else {
                            preset.name()
                        },
                        plan: Planned { qos: typed_qos(plan@.qos, self@.settings), ..plan@ },
                        sinks: Seq::empty(),
                        sources: Seq::empty(),
                        cis: Seq::empty(),
                        deadline: Duration { nanos: 0 },
                    };
                    &&& r is Ok
                    &&& setup@ == staging
                    &&& (lines(said@), call@) == shape_turn(staging, self@.settings)
                },
            },
    {
        let settings: &Settings = &self.settings;
        let custom: bool = same(setting(settings, "preset", "windows"), "custom");
        let (plan, preset): (StreamPlan, Preset) = match outcome {
            Err(t) => {
                return Err(
                    if custom {
                        phrase("device rejected the custom configuration: ", t.as_str())
                    } else {
                        phrase("stream could not be scheduled: ", t.as_str())
                    },
                );
            },
            Ok(pair) => pair,
        };
        let control_point: u16 = match self.control_point {
            None => {
                return Err("ASE control point is unknown".to_owned());
            },
            Some(control_point) => control_point,
        };
        let mut plan = plan;
        if custom {
            if let Some(phy) = settings.get("phy") {
                plan.qos.phy = if same(phy, "1M") {
                    0x01
                } else {
                    0x02
                };
            }
            if let Some(n) = settings.number("retransmissions") {
                plan.qos.retransmission_number = n.truncate(0xFF) as u8;
            }
        }
        let label: String = if custom {
            "custom".to_owned()
        } else {
            preset.label().to_owned()
        };
        let setup = Setup {
            handle,
            control_point,
            custom,
            label,
            plan,
            sinks: Vec::new(),
            sources: Vec::new(),
            cis: Vec::new(),
            deadline: Duration { nanos: 0 },
        };
        proof {
            assert(setup@.sinks =~= Seq::empty());
            assert(setup@.sources =~= Seq::empty());
            assert(setup@.cis =~= Seq::empty());
        }
        let mode: &str = setting(settings, "audio_mode", "stereo");
        let mut out = nothing();
        if same(mode, "mono") {
            log(&mut out, "mono mode: one channel with left and right mixed");
            return Ok((setup, out, Call::IntoMono));
        }
        if same(mode, "legacy") {
            log(
                &mut out,
                "legacy mode: both sides report left, sequential packing, without response reads",
            );
            return Ok((setup, out, Call::IntoLegacy));
        }
        let (said, call): (Vec<Message>, Call) = self.ask_microphone(&setup, out);
        Ok((setup, said, call))
    }

    fn ask_microphone(&self, setup: &Setup, before: Vec<Message>) -> (r: (Vec<Message>, Call))
        requires
            self.wf(),
        ensures
            (lines((r.0)@), (r.1)@) == microphone_turn(lines(before@), setup@, self@.settings),
    {
        let settings: &Settings = &self.settings;
        let mut out = before;
        if same(setting(settings, "microphone_mode", "off"), "on") {
            let said: &str = setting(settings, "microphone_quality", "balanced");
            let quality: MicrophoneQuality = if same(said, "voice") {
                MicrophoneQuality::Voice
            } else if same(said, "high") {
                MicrophoneQuality::High
            } else {
                MicrophoneQuality::Balanced
            };
            return (out, Call::AddMicrophone(quality));
        }
        log(
            &mut out,
            "headset microphone disabled; Source ASE is released and radio budget stays with playback",
        );
        self.describe_plan(setup, out)
    }

    fn describe_plan(&self, setup: &Setup, before: Vec<Message>) -> (r: (Vec<Message>, Call))
        requires
            self.wf(),
        ensures
            (lines((r.0)@), (r.1)@) == described(lines(before@), setup@, self@.settings),
    {
        let mut out = before;
        if switched_on(&self.settings, "monitor_enabled") {
            log(&mut out, "monitoring enabled according to settings");
        } else {
            log(&mut out, "monitoring disabled; no PC microphone is opened");
        }
        let mut text = String::new();
        text.append("ASE control point ");
        push_hex(&mut text, setup.control_point as u32, 4);
        text.append(", preset ");
        text.append(setup.label.as_str());
        assert(text@ =~= "ASE control point "@ + hex(setup@.control_point as nat, 4) + ", preset "@
            + setup@.label);
        log(&mut out, text.as_str());
        (out, Call::ReadHandles { sources: setup.plan.microphone.is_some() })
    }

    /// Takes the plan in the shape that the mode asks for.
    pub fn shaped(&self, setup: &mut Setup, plan: StreamPlan) -> (r: (Vec<Message>, Call))
        requires
            self.wf(),
        ensures
            final(setup)@ == (Staging { plan: plan@, ..old(setup)@ }),
            (lines((r.0)@), (r.1)@) == microphone_turn(
                Seq::empty(),
                final(setup)@,
                self@.settings,
            ),
    {
        setup.plan = plan;
        self.ask_microphone(setup, nothing())
    }

    /// Takes the plan with the microphone, or why that cannot be.
    pub fn microphone_added(&self, setup: &mut Setup, outcome: Result<StreamPlan, String>) -> (r: (
        Vec<Message>,
        Call,
    ))
        requires
            self.wf(),
        ensures
            match outcome {
                Err(t) => final(setup)@ == old(setup)@ && lines((r.0)@).len() == 0 && (r.1)@
                    == failed("headset microphone could not be configured: "@ + t@),
                Ok(plan) => final(setup)@ == (Staging { plan: plan@, ..old(setup)@ }) && (
                lines((r.0)@), (r.1)@) == described(
                    seq![Line::Log("headset microphone enabled; playback remains active"@)],
                    final(setup)@,
                    self@.settings,
                ),
            },
    {
        match outcome {
            Err(t) => (
                nothing(),
                fail(phrase("headset microphone could not be configured: ", t.as_str())),
            ),
            Ok(plan) => {
                setup.plan = plan;
                let mut out = nothing();
                log(&mut out, "headset microphone enabled; playback remains active");
                self.describe_plan(setup, out)
            },
        }
    }
}

// ---------------------------------------------------------------------------
// Endpoints
// ---------------------------------------------------------------------------

/// Which ear an allocation stands for. One that is not known is shown as it is.
pub open spec fn side_text(allocation: u32) -> Seq<char> {
    if allocation == LOCATION_FRONT_LEFT {
        "left"@
    } else if allocation == LOCATION_FRONT_RIGHT {
        "right"@
    } else if allocation == LOCATION_STEREO {
        "stereo"@
    } else if allocation == LOCATION_MONO {
        "mono"@
    } else {
        hex(allocation as nat, 8)
    }
}

/// What is said of where a stream goes.
pub open spec fn allocation_text(ase_id: u8, allocation: u32) -> Seq<char> {
    "  ASE "@ + decimal(ase_id as nat) + " → "@ + side_text(allocation) + " ("@ + hex(
        allocation as nat,
        8,
    ) + ")"@
}

/// What is said of where each stream goes.
pub open spec fn allocation_lines(ids: Seq<u8>, allocations: Seq<u32>) -> Seq<Line> {
    Seq::new(
        if ids.len() <= allocations.len() {
            ids.len()
        } else {
            allocations.len()
        },
        |i: int| Line::Log(allocation_text(ids[i], allocations[i])),
    )
}

/// The endpoints that a plan configures.
pub open spec fn configured_by(plan: Planned) -> Seq<u8> {
    match plan.microphone {
        Some(m) => plan.ase_ids.push(m.ase_id),
        None => plan.ase_ids,
    }
}

fn describe_allocation(ase_id: u8, allocation: u32) -> (r: String)
    ensures
        r@ == allocation_text(ase_id, allocation),
{
    let mut out = String::new();
    out.append("  ASE ");
    push_decimal(&mut out, ase_id as u64);
    out.append(" → ");
    if allocation == LOCATION_FRONT_LEFT {
        out.append("left");
    } else if allocation == LOCATION_FRONT_RIGHT {
        out.append("right");
    } else if allocation == LOCATION_STEREO {
        out.append("stereo");
    } else if allocation == LOCATION_MONO {
        out.append("mono");
    } else {
        push_hex(&mut out, allocation, 8);
    }
    out.append(" (");
    push_hex(&mut out, allocation, 8);
    out.append(")");
    assert(out@ =~= allocation_text(ase_id, allocation));
    out
}

impl Agent {
    /// Takes the endpoints, with the ear that each stream is for.
    ///
    /// What is about to be configured is recorded before the result is known: the
    /// endpoints are configured on the device the moment the writes land, so they
    /// need releasing even if everything after this fails.
    pub fn handles_read(
        &mut self,
        setup: &mut Setup,
        sinks: Vec<(u8, u16)>,
        sources: Vec<(u8, u16)>,
        allocations: &[u32],
    ) -> (r: (Vec<Message>, Call))
        requires
            old(self).wf(),
        ensures
            final(self).wf(),
            final(setup)@ == (Staging { sinks: sinks@, sources: sources@, ..old(setup)@ }),
            final(self)@ == (Standing {
                configured_ases: configured_by(old(setup)@.plan),
                ..old(self)@
            }),
            lines((r.0)@) == allocation_lines(old(setup)@.plan.ase_ids, allocations@),
            (r.1)@ == Due::ConfigureCodec,
    {
        setup.sinks = sinks;
        setup.sources = sources;
        let ghost ids = setup.plan.ase_ids@;
        let ghost wanted = allocation_lines(ids, allocations@);
        let mut out = nothing();
        let mut i: usize = 0;
        assert(wanted.take(0) =~= Seq::empty());
        while i < setup.plan.ase_ids.len() && i < allocations.len()
            invariant
                i <= wanted.len(),
                ids == setup.plan.ase_ids@,
                wanted == allocation_lines(ids, allocations@),
                lines(out@) == wanted.take(i as int),
            decreases wanted.len() - i,
        {
            log(&mut out, describe_allocation(setup.plan.ase_ids[i], allocations[i]).as_str());
            assert(wanted.take(i + 1) =~= wanted.take(i as int).push(wanted[i as int]));
            i += 1;
        }
        assert(wanted.take(wanted.len() as int) =~= wanted);
        let mut configured = copied(setup.plan.ase_ids.as_slice());
        if let Some(microphone) = setup.plan.microphone {
            configured.push(microphone.ase_id);
        }
        self.configured_ases = configured;
        (out, Call::ConfigureCodec)
    }
}

// ---------------------------------------------------------------------------
// The radio
// ---------------------------------------------------------------------------

/// The delay: theirs, where they ask for another.
pub open spec fn with_delay(qos: QosConfiguration, wanted: DevicePreference) -> (
    QosConfiguration,
    Seq<Line>,
) {
    match wanted.presentation_delay_us {
        Some(delay) => if delay != qos.presentation_delay_us {
            (
                QosConfiguration { presentation_delay_us: delay, ..qos },
                seq![
                    Line::Log(
                        "headphones request "@ + decimal((delay / 1000) as nat)
                            + " ms delay instead of "@ + decimal(
                            (qos.presentation_delay_us / 1000) as nat,
                        ) + " ms; using their value"@,
                    ),
                ],
            )
        } else {
            (qos, Seq::empty())
        },
        None => (qos, Seq::empty()),
    }
}

/// The retransmissions: theirs, where they recommend another number.
pub open spec fn with_retransmissions(qos: QosConfiguration, wanted: DevicePreference) -> (
    QosConfiguration,
    Seq<Line>,
) {
    match wanted.retransmissions {
        Some(rtn) => if rtn != qos.retransmission_number {
            (
                QosConfiguration { retransmission_number: rtn, ..qos },
                seq![
                    Line::Log(
                        "headphones recommend "@ + decimal(rtn as nat)
                            + " retransmissions instead of "@ + decimal(
                            qos.retransmission_number as nat,
                        ) + "; using theirs"@,
                    ),
                ],
            )
        } else {
            (qos, Seq::empty())
        },
        None => (qos, Seq::empty()),
    }
}

/// The transport latency: not above theirs, which is a ceiling and no preference.
pub open spec fn with_latency(qos: QosConfiguration, wanted: DevicePreference) -> (
    QosConfiguration,
    Seq<Line>,
) {
    match wanted.max_transport_latency_ms {
        Some(limit) => if qos.max_transport_latency_ms > limit {
            (
                QosConfiguration { max_transport_latency_ms: limit, ..qos },
                seq![
                    Line::Log(
                        "headphones support at most "@ + decimal(limit as nat)
                            + " ms transport latency, not "@ + decimal(
                            qos.max_transport_latency_ms as nat,
                        ) + "; using theirs"@,
                    ),
                ],
            )
        } else {
            (qos, Seq::empty())
        },
        None => (qos, Seq::empty()),
    }
}

/// The radio: 1M where 2M is genuinely absent from what they offer.
pub open spec fn with_phy(qos: QosConfiguration, wanted: DevicePreference) -> (
    QosConfiguration,
    Seq<Line>,
) {
    match wanted.phy_preference {
        Some(phy) => if phy & 0x02 == 0 && phy & 0x01 != 0 && qos.phy != 0x01 {
            (
                QosConfiguration { phy: 0x01, ..qos },
                seq![
                    Line::Log("headphones do not offer the 2M radio; falling back to 1M"@),
                ],
            )
        } else {
            (qos, Seq::empty())
        },
        None => (qos, Seq::empty()),
    }
}

/// The radio settings once the headphones have said what they want. Where the user
/// spelled the codec out only the delay is theirs: a control that silently
/// overrides itself is worse than no control.
pub open spec fn adjusted(qos: QosConfiguration, wanted: DevicePreference, custom: bool) -> (
    QosConfiguration,
    Seq<Line>,
) {
    let (a, first) = with_delay(qos, wanted);
    if custom {
        (a, first)
    } else {
        let (b, second) = with_retransmissions(a, wanted);
        let (c, third) = with_latency(b, wanted);
        let (d, fourth) = with_phy(c, wanted);
        (d, first + second + third + fourth)
    }
}

fn push_delay(out: &mut Vec<Message>, qos: &mut QosConfiguration, wanted: &DevicePreference)
    ensures
        *final(qos) == with_delay(*old(qos), *wanted).0,
        lines(final(out)@) == lines(old(out)@) + with_delay(*old(qos), *wanted).1,
{
    let ghost was = lines(out@);
    assert(was + Seq::<Line>::empty() =~= was);
    if let Some(delay) = wanted.presentation_delay_us {
        if delay != qos.presentation_delay_us {
            let mut text = String::new();
            text.append("headphones request ");
            push_decimal(&mut text, (delay / 1000) as u64);
            text.append(" ms delay instead of ");
            push_decimal(&mut text, (qos.presentation_delay_us / 1000) as u64);
            text.append(" ms; using their value");
            assert(text@ =~= "headphones request "@ + decimal((delay / 1000) as nat)
                + " ms delay instead of "@ + decimal((qos.presentation_delay_us / 1000) as nat)
                + " ms; using their value"@);
            log(out, text.as_str());
            assert(lines(out@) =~= was + with_delay(*old(qos), *wanted).1);
            qos.presentation_delay_us = delay;
        }
    }
}

fn push_radio(out: &mut Vec<Message>, qos: &mut QosConfiguration, wanted: &DevicePreference)
    ensures
        ({
            let (b, second) = with_retransmissions(*old(qos), *wanted);
            let (c, third) = with_latency(b, *wanted);
            let (d, fourth) = with_phy(c, *wanted);
            &&& *final(qos) == d
            &&& lines(final(out)@) == lines(old(out)@) + second + third + fourth
        }),
{
    let ghost was = lines(out@);
    let ghost q0 = *qos;
    if let Some(rtn) = wanted.retransmissions {
        if rtn != qos.retransmission_number {
            let mut text = String::new();
            text.append("headphones recommend ");
            push_decimal(&mut text, rtn as u64);
            text.append(" retransmissions instead of ");
            push_decimal(&mut text, qos.retransmission_number as u64);
            text.append("; using theirs");
            assert(text@ =~= "headphones recommend "@ + decimal(rtn as nat)
                + " retransmissions instead of "@ + decimal(qos.retransmission_number as nat)
                + "; using theirs"@);
            log(out, text.as_str());
            qos.retransmission_number = rtn;
        }
    }
    let ghost (q1, second) = with_retransmissions(q0, *wanted);
    assert(lines(out@) =~= was + second);
    assert(*qos == q1);
    if let Some(limit) = wanted.max_transport_latency_ms {
        if qos.max_transport_latency_ms > limit {
            let mut text = String::new();
            text.append("headphones support at most ");
            push_decimal(&mut text, limit as u64);
            text.append(" ms transport latency, not ");
            push_decimal(&mut text, qos.max_transport_latency_ms as u64);
            text.append("; using theirs");
            assert(text@ =~= "headphones support at most "@ + decimal(limit as nat)
                + " ms transport latency, not "@ + decimal(qos.max_transport_latency_ms as nat)
                + "; using theirs"@);
            log(out, text.as_str());
            qos.max_transport_latency_ms = limit;
        }
    }
    let ghost (q2, third) = with_latency(q1, *wanted);
    assert(lines(out@) =~= was + second + third);
    assert(*qos == q2);
    if let Some(phy) = wanted.phy_preference {
        if phy & 0x02 == 0 && phy & 0x01 != 0 && qos.phy != 0x01 {
            log(out, "headphones do not offer the 2M radio; falling back to 1M");
            qos.phy = 0x01;
        }
    }
    let ghost (q3, fourth) = with_phy(q2, *wanted);
    assert(lines(out@) =~= was + second + third + fourth);
    assert(*qos == q3);
}

impl Agent {
    /// Takes the outcome of configuring the codec.
    pub fn codec_configured(&self, outcome: Result<(), SessionError>) -> (r: Call)
        ensures
            r@ == match outcome {
                Ok(()) => Due::ReadPreferences,
                Err(e) => failed("konfigurace kodeku selhala: "@ + e@.message()),
            },
    {
        match outcome {
            Ok(()) => Call::ReadPreferences,
            Err(e) => fail(phrase("konfigurace kodeku selhala: ", e.text().as_str())),
        }
    }

    /// Takes what the endpoints prefer. The numbers are what their firmware was
    /// tuned around; those of a preset are what one particular headset was observed
    /// to be sent.
    pub fn preferences_read(&self, setup: &mut Setup, list: &Readings) -> (r: (Vec<Message>, Call))
        ensures
            ({
                let g = old(setup)@;
                let wanted = preference_of(list@, g.plan.qos.presentation_delay_us);
                let (qos, said) = adjusted(g.plan.qos, wanted, g.custom);
                &&& final(setup)@ == (Staging { plan: Planned { qos, ..g.plan }, ..g })
                &&& lines((r.0)@) == readings_lines(list@) + said
                &&& (r.1)@ == Due::ConfigureQos
            }),
    {
        let ghost g = setup@;
        let mut qos: QosConfiguration = setup.plan.qos;
        let (wanted, mut out): (DevicePreference, Vec<Message>) = ask_device_for_qos(
            list,
            qos.presentation_delay_us,
        );
        let ghost first = lines(out@);
        push_delay(&mut out, &mut qos, &wanted);
        if !setup.custom {
            push_radio(&mut out, &mut qos, &wanted);
        }
        setup.plan.qos = qos;
        assert(lines(out@) =~= first + adjusted(g.plan.qos, wanted, g.custom).1);
        (out, Call::ConfigureQos)
    }

    /// Takes the outcome of configuring the radio. The stream has one shape, driven
    /// by what the device published: guessing at parameters leaves the headphones
    /// configured for something the user never asked for.
    pub fn qos_configured(&self, setup: &mut Setup, outcome: Result<(), SessionError>) -> (r: Call)
        ensures
            match outcome {
                Ok(()) => r@ == Due::Establish && final(setup)@ == (Staging {
                    plan: Planned {
                        target_latency: LATENCY_BALANCED,
                        context: CONTEXT_MEDIA,
                        ..old(setup)@.plan
                    },
                    ..old(setup)@
                }),
                Err(e) => r@ == failed("konfigurace QoS selhala: "@ + e@.message())
                    && final(setup)@ == old(setup)@,
            },
    {
        match outcome {
            Ok(()) => {
                setup.plan.target_latency = LATENCY_BALANCED;
                setup.plan.context = CONTEXT_MEDIA;
                Call::Establish
            },
            Err(e) => fail(phrase("konfigurace QoS selhala: ", e.text().as_str())),
        }
    }
}

// ---------------------------------------------------------------------------
// Waiting for the endpoints
// ---------------------------------------------------------------------------

/// The endpoints that a plan uses.
pub open spec fn used(sinks: Seq<(u8, u16)>, ids: Seq<u8>) -> Seq<(u8, u16)>
    decreases sinks.len(),
{
    if sinks.len() == 0 {
        Seq::empty()
    } else {
        let front = used(sinks.drop_last(), ids);
        if ids.contains(sinks.last().0) {
            front.push(sinks.last())
        } else {
            front
        }
    }
}

/// The handle of an endpoint.
pub open spec fn handle_of(endpoints: Seq<(u8, u16)>, ase_id: u8) -> Option<u16>
    decreases endpoints.len(),
{
    if endpoints.len() == 0 {
        None
    } else if endpoints[0].0 == ase_id {
        Some(endpoints[0].1)
    } else {
        handle_of(endpoints.skip(1), ase_id)
    }
}

/// The end of a wait that begins now.
pub open spec fn start_by(now: Duration) -> Duration {
    now.and(Duration { nanos: START_NANOS })
}

/// What follows an attempt to bring the channels up. A partial result is silence
/// with extra steps on a device that will not start either stream without both, and
/// the survivors hold the group un-removable: they are handed back. The time to
/// start begins once a microphone's receiver is ready.
pub open spec fn established_turn(
    g: Staging,
    outcome: Result<Channels, Trouble>,
    now: Duration,
) -> (Staging, Seq<Line>, Due) {
    match outcome {
        Err(e) => (
            g,
            Seq::empty(),
            Due::Fail {
                channels: Seq::empty(),
                group: true,
                text: "isochronous channels could not be established: "@ + e.message(),
            },
        ),
        Ok(channels) => if channels.failed.len() > 0 {
            (
                g,
                Seq::empty(),
                Due::Fail {
                    channels: channels.established,
                    group: true,
                    text: "headphones did not establish every channel ("@
                        + channels.description() + "); retrying the connection"@,
                },
            )
        } else {
            let up = Staging { cis: channels.established, ..g };
            let endpoints = used(g.sinks, g.plan.ase_ids);
            let said = seq![Line::Log("channels established: "@ + channels.description())];
            if endpoints.len() != g.plan.ase_ids.len() {
                (
                    up,
                    said,
                    failed(
                        "stereo stream cannot be verified: found "@ + decimal(endpoints.len())
                            + " of "@ + decimal(g.plan.ase_ids.len())
                            + " Sink ASE characteristics"@,
                    ),
                )
            } else {
                match g.plan.microphone {
                    Some(m) => if handle_of(g.sources, m.ase_id) is None {
                        (
                            up,
                            said,
                            failed(
                                "microphone cannot be verified: Source ASE "@ + decimal(
                                    m.ase_id as nat,
                                ) + " has no readable state characteristic"@,
                            ),
                        )
                    } else {
                        (up, said, Due::StartReceiver(m.ase_id))
                    },
                    None => (
                        Staging { deadline: start_by(now), ..up },
                        said,
                        Due::Watch(endpoints),
                    ),
                }
            }
        },
    }
}

/// What follows once the receiver was told to start: the endpoints have so long to
/// start from now on.
pub open spec fn receiver_turn(g: Staging, now: Duration) -> (Staging, Due) {
    (
        Staging { deadline: start_by(now), ..g },
        Due::Watch(used(g.sinks, g.plan.ase_ids)),
    )
}

fn used_endpoints(sinks: &[(u8, u16)], ids: &[u8]) -> (r: Vec<(u8, u16)>)
    ensures
        r@ == used(sinks@, ids@),
{
    let mut out: Vec<(u8, u16)> = Vec::new();
    let mut i: usize = 0;
    assert(sinks@.take(0) =~= Seq::empty());
    while i < sinks.len()
        invariant
            i <= sinks@.len(),
            out@ == used(sinks@.take(i as int), ids@),
        decreases sinks@.len() - i,
    {
        proof {
            assert(sinks@.take(i + 1).drop_last() =~= sinks@.take(i as int));
            assert(sinks@.take(i + 1).last() == sinks@[i as int]);
        }
        if holds_byte(ids, sinks[i].0) {
            out.push(sinks[i]);
        }
        i += 1;
    }
    assert(sinks@.take(sinks@.len() as int) =~= sinks@);
    out
}

fn find_handle(endpoints: &[(u8, u16)], ase_id: u8) -> (r: Option<u16>)
    ensures
        r == handle_of(endpoints@, ase_id),
{
    let mut i: usize = 0;
    assert(endpoints@.skip(0) =~= endpoints@);
    while i < endpoints.len()
        invariant
            i <= endpoints@.len(),
            handle_of(endpoints@, ase_id) == handle_of(endpoints@.skip(i as int), ase_id),
        decreases endpoints@.len() - i,
    {
        assert(endpoints@.skip(i as int)[0] == endpoints@[i as int]);
        assert(endpoints@.skip(i as int).skip(1) =~= endpoints@.skip(i + 1));
        if endpoints[i].0 == ase_id {
            return Some(endpoints[i].1);
        }
        i += 1;
    }
    None
}

impl Agent {
    /// Takes the outcome of bringing the channels up.
    pub fn established(
        &self,
        setup: &mut Setup,
        outcome: Result<CisOutcome, SessionError>,
        now: Duration,
    ) -> (r: (Vec<Message>, Call))
        ensures
            (final(setup)@, lines((r.0)@), (r.1)@) == established_turn(
                old(setup)@,
                match outcome {
                    Ok(channels) => Ok(channels@),
                    Err(e) => Err(e@),
                },
                now,
            ),
    {
        let mut out = nothing();
        let channels: CisOutcome = match outcome {
            Err(e) => {
                let none: Vec<u16> = Vec::new();
                assert(none@ =~= Seq::empty());
                let text = phrase(
                    "isochronous channels could not be established: ",
                    e.text().as_str(),
                );
                return (
                    out,
                    Call::Fail { clearing: Clearing { channels: none, group: true }, text },
                );
            },
            Ok(channels) => channels,
        };
        if !channels.complete() {
            let text = sentence(
                "headphones did not establish every channel (",
                channels.describe().as_str(),
                "); retrying the connection",
            );
            return (
                out,
                Call::Fail {
                    clearing: Clearing { channels: channels.established, group: true },
                    text,
                },
            );
        }
        log(&mut out, phrase("channels established: ", channels.describe().as_str()).as_str());
        setup.cis = channels.established;
        let endpoints = used_endpoints(setup.sinks.as_slice(), setup.plan.ase_ids.as_slice());
        if endpoints.len() != setup.plan.ase_ids.len() {
            let mut text = String::new();
            text.append("stereo stream cannot be verified: found ");
            push_decimal(&mut text, endpoints.len() as u64);
            text.append(" of ");
            push_decimal(&mut text, setup.plan.ase_ids.len() as u64);
            text.append(" Sink ASE characteristics");
            assert(text@ =~= "stereo stream cannot be verified: found "@ + decimal(
                endpoints@.len(),
            ) + " of "@ + decimal(setup@.plan.ase_ids.len()) + " Sink ASE characteristics"@);
            return (out, fail(text));
        }
        match setup.plan.microphone {
            Some(microphone) => {
                if find_handle(setup.sources.as_slice(), microphone.ase_id).is_none() {
                    let text = sentence(
                        "microphone cannot be verified: Source ASE ",
                        decimal_text(microphone.ase_id as u64).as_str(),
                        " has no readable state characteristic",
                    );
                    return (out, fail(text));
                }
                (out, Call::StartReceiver(microphone.ase_id))
            },
            None => {
                setup.deadline = now.saturating_add(Duration { nanos: START_NANOS });
                (out, Call::Watch(endpoints))
            },
        }
    }

    /// Goes on once the microphone was told that its receiver is ready.
    pub fn receiver_started(&self, setup: &mut Setup, now: Duration) -> (r: Call)
        ensures
            (final(setup)@, r@) == receiver_turn(old(setup)@, now),
    {
        setup.deadline = now.saturating_add(Duration { nanos: START_NANOS });
        Call::Watch(used_endpoints(setup.sinks.as_slice(), setup.plan.ase_ids.as_slice()))
    }
}

/// The state of an endpoint that was read.
pub open spec fn state_in(reading: (u8, Option<Seq<u8>>)) -> Option<u8> {
    match reading.1 {
        Some(value) => match ase_in(value) {
            Some(ase) => Some(ase.state),
            None => None,
        },
        None => None,
    }
}

/// Whether an endpoint is streaming.
pub open spec fn streams(reading: (u8, Option<Seq<u8>>)) -> bool {
    state_in(reading) == Some(STATE_STREAMING)
}

/// Whether every endpoint is streaming.
pub open spec fn all_stream(s: Seq<(u8, Option<Seq<u8>>)>) -> bool {
    forall|i: int| 0 <= i < s.len() ==> streams(#[trigger] s[i])
}

/// What is said of the state of an endpoint, for whoever asked for diagnostics.
pub open spec fn state_lines(s: Seq<(u8, Option<Seq<u8>>)>) -> Seq<Line> {
    Seq::new(
        s.len(),
        |i: int|
            Line::Log(
                "  ASE "@ + decimal(s[i].0 as nat) + " je ve stavu "@ + (match state_in(s[i]) {
                    Some(state) => state_text(state),
                    None => "could not be read"@,
                }),
            ),
    )
}

/// The endpoints that are not streaming, each in words.
pub open spec fn missing(s: Seq<(u8, Option<Seq<u8>>)>) -> Seq<Seq<char>>
    decreases s.len(),
{
    if s.len() == 0 {
        Seq::empty()
    } else {
        let front = missing(s.drop_last());
        if streams(s.last()) {
            front
        } else {
            front.push(
                "ASE "@ + decimal(s.last().0 as nat) + ": "@ + (match state_in(s.last()) {
                    Some(state) => state_text(state),
                    None => "unreadable state"@,
                }),
            )
        }
    }
}

/// Whether there is time to ask once more.
pub open spec fn has_time(now: Duration, deadline: Duration) -> bool {
    now.and(Duration { nanos: ASK_AGAIN_NANOS }).nanos < deadline.nanos
}

/// What follows once the states of the endpoints were read. Every one has to reach
/// Streaming before audio is sent: with one still Enabling the surviving channel is
/// rendered into both ears.
pub open spec fn states_turn(
    g: Staging,
    s: Seq<(u8, Option<Seq<u8>>)>,
    diagnostics: bool,
    now: Duration,
) -> (Staging, Seq<Line>, Due) {
    let told = if diagnostics {
        state_lines(s)
    } else {
        Seq::empty()
    };
    if !all_stream(s) && has_time(now, g.deadline) {
        (g, Seq::empty(), Due::WatchAgain(used(g.sinks, g.plan.ase_ids)))
    } else if missing(s).len() > 0 {
        (
            g,
            told,
            failed(
                "headphones did not start both stereo channels ("@ + joined(missing(s), ", "@)
                    + "); audio is not sent because one channel could play as mono in both ears"@,
            ),
        )
    } else {
        match g.plan.microphone {
            Some(m) => match handle_of(g.sources, m.ase_id) {
                Some(handle) => (
                    Staging { deadline: start_by(now), ..g },
                    told,
                    Due::WatchMicrophone(handle),
                ),
                None => (g, told, failed("microphone state is unavailable"@)),
            },
            None => (g, told, Due::RunAudio),
        }
    }
}

/// Where nothing is missing every endpoint streams, and the other way round.
proof fn lemma_missing(s: Seq<(u8, Option<Seq<u8>>)>)
    ensures
        missing(s).len() == 0 <==> all_stream(s),
    decreases s.len(),
{
    if s.len() > 0 {
        let front = s.drop_last();
        lemma_missing(front);
        if all_stream(s) {
            assert forall|i: int| 0 <= i < front.len() implies streams(#[trigger] front[i]) by {
                assert(streams(s[i]));
            }
            assert(streams(s[s.len() - 1]));
        }
        if missing(s).len() == 0 {
            assert forall|i: int| 0 <= i < s.len() implies streams(#[trigger] s[i]) by {
                if i < front.len() {
                    assert(streams(front[i]));
                }
            }
        }
    }
}

fn read_state(value: &Option<Vec<u8>>) -> (r: Option<u8>)
    ensures
        r == (match value {
            Some(v) => match ase_in(v@) {
                Some(ase) => Some(ase.state),
                None => None,
            },
            None => None,
        }),
{
    match value {
        Some(v) => match parse_state(v.as_slice()) {
            Some(ase) => Some(ase.state),
            None => None,
        },
        None => None,
    }
}

fn list_missing(list: &Readings) -> (r: Vec<String>)
    ensures
        texts(r@) == missing(list@),
{
    let ghost all = list@;
    let mut out: Vec<String> = Vec::new();
    let mut i: usize = 0;
    assert(all.take(0) =~= Seq::empty());
    assert(texts(out@) =~= Seq::empty());
    while i < list.values.len()
        invariant
            i <= list.values@.len(),
            all == list@,
            all.len() == list.values@.len(),
            texts(out@) == missing(all.take(i as int)),
        decreases list.values@.len() - i,
    {
        proof {
            assert(all.take(i + 1).drop_last() =~= all.take(i as int));
            assert(all.take(i + 1).last() == all[i as int]);
        }
        let state: Option<u8> = read_state(&list.values[i].1);
        let streaming: bool = match state {
            Some(state) => state == STATE_STREAMING,
            None => false,
        };
        assert(state == state_in(all[i as int]));
        if !streaming {
            let mut text = String::new();
            text.append("ASE ");
            push_decimal(&mut text, list.values[i].0 as u64);
            text.append(": ");
            text.append(
                match state {
                    Some(state) => state_name(state),
                    None => "unreadable state",
                },
            );
            assert(text@ =~= "ASE "@ + decimal(all[i as int].0 as nat) + ": "@ + (
            match state_in(all[i as int]) {
                Some(state) => state_text(state),
                None => "unreadable state"@,
            }));
            let ghost was = out@;
            out.push(text);
            assert(texts(out@) =~= texts(was).push(text@));
        }
        i += 1;
    }
    assert(all.take(all.len() as int) =~= all);
    out
}

fn push_states(out: &mut Vec<Message>, list: &Readings)
    ensures
        lines(final(out)@) == lines(old(out)@) + state_lines(list@),
{
    let ghost was = lines(out@);
    let ghost all = list@;
    let mut i: usize = 0;
    assert(was + state_lines(all).take(0) =~= was);
    while i < list.values.len()
        invariant
            i <= list.values@.len(),
            all == list@,
            all.len() == list.values@.len(),
            lines(out@) == was + state_lines(all).take(i as int),
        decreases list.values@.len() - i,
    {
        let state: Option<u8> = read_state(&list.values[i].1);
        assert(state == state_in(all[i as int]));
        let mut text = String::new();
        text.append("  ASE ");
        push_decimal(&mut text, list.values[i].0 as u64);
        text.append(" je ve stavu ");
        text.append(
            match state {
                Some(state) => state_name(state),
                None => "could not be read",
            },
        );
        assert(text@ =~= "  ASE "@ + decimal(all[i as int].0 as nat) + " je ve stavu "@ + (
        match state_in(all[i as int]) {
            Some(state) => state_text(state),
            None => "could not be read"@,
        }));
        log(out, text.as_str());
        assert(lines(out@) =~= was + state_lines(all).take(i + 1));
        i += 1;
    }
    assert(state_lines(all).take(all.len() as int) =~= state_lines(all));
}

impl Agent {
    /// Takes the states of the endpoints.
    pub fn states_read(&self, setup: &mut Setup, list: &Readings, now: Duration) -> (r: (
        Vec<Message>,
        Call,
    ))
        requires
            self.wf(),
        ensures
            (final(setup)@, lines((r.0)@), (r.1)@) == states_turn(
                old(setup)@,
                list@,
                is_on(self@.settings, "diagnostics"@),
                now,
            ),
    {
        let mut out = nothing();
        let absent = list_missing(list);
        proof {
            lemma_missing(list@);
            assert(texts(absent@).len() == absent@.len());
        }
        let time: bool = now.saturating_add(Duration { nanos: ASK_AGAIN_NANOS }).nanos
            < setup.deadline.nanos;
        if absent.len() > 0 && time {
            return (
                out,
                Call::WatchAgain(
                    used_endpoints(setup.sinks.as_slice(), setup.plan.ase_ids.as_slice()),
                ),
            );
        }
        if switched_on(&self.settings, "diagnostics") {
            push_states(&mut out, list);
            assert(lines(out@) =~= state_lines(list@));
        }
        if absent.len() > 0 {
            let text = sentence(
                "headphones did not start both stereo channels (",
                join(absent.as_slice(), ", ").as_str(),
                "); audio is not sent because one channel could play as mono in both ears",
            );
            return (out, fail(text));
        }
        match setup.plan.microphone {
            Some(microphone) => match find_handle(setup.sources.as_slice(), microphone.ase_id) {
                Some(handle) => {
                    setup.deadline = now.saturating_add(Duration { nanos: START_NANOS });
                    (out, Call::WatchMicrophone(handle))
                },
                None => (out, fail("microphone state is unavailable".to_owned())),
            },
            None => (out, Call::RunAudio),
        }
    }
}

/// What is said of a microphone that is on.
pub open spec fn microphone_text(m: Microphone) -> Seq<char> {
    "microphone Source ASE "@ + decimal(m.ase_id as nat) + " active: "@ + decimal(
        match m.codec.sampling_frequency.rate() {
            Some(hz) => hz as nat,
            None => 0,
        },
    ) + " Hz, "@ + decimal(m.codec.octets_per_frame as nat) + " octets per frame"@
}

/// What follows once the state of the microphone was read.
pub open spec fn microphone_state_turn(
    g: Staging,
    m: Microphone,
    handle: u16,
    value: Option<Seq<u8>>,
    now: Duration,
) -> (Seq<Line>, Due) {
    let state = state_in((m.ase_id, value));
    if state == Some(STATE_STREAMING) {
        (seq![Line::Log(microphone_text(m))], Due::RunAudio)
    } else if has_time(now, g.deadline) {
        (Seq::empty(), Due::WatchMicrophoneAgain(handle))
    } else {
        (
            Seq::empty(),
            failed(
                "microphone Source ASE "@ + decimal(m.ase_id as nat)
                    + " is not in Streaming state ("@ + (match state {
                    Some(state) => state_text(state),
                    None => "unreadable state"@,
                }) + ")"@,
            ),
        )
    }
}

impl Agent {
    /// Takes the state of the microphone, read from its handle.
    pub fn microphone_read(
        &self,
        setup: &Setup,
        handle: u16,
        value: Option<Vec<u8>>,
        now: Duration,
    ) -> (r: (Vec<Message>, Call))
        ensures
            match setup@.plan.microphone {
                Some(m) => (lines((r.0)@), (r.1)@) == microphone_state_turn(
                    setup@,
                    m,
                    handle,
                    match value {
                        Some(v) => Some(v@),
                        None => None,
                    },
                    now,
                ),
                None => lines((r.0)@).len() == 0 && (r.1)@ == Due::RunAudio,
            },
    {
        let mut out = nothing();
        let m: Microphone = match setup.plan.microphone {
            None => {
                return (out, Call::RunAudio);
            },
            Some(m) => m,
        };
        let state: Option<u8> = read_state(&value);
        let streaming: bool = match state {
            Some(state) => state == STATE_STREAMING,
            None => false,
        };
        if streaming {
            let mut text = String::new();
            text.append("microphone Source ASE ");
            push_decimal(&mut text, m.ase_id as u64);
            text.append(" active: ");
            push_decimal(
                &mut text,
                match m.codec.sampling_frequency.hz() {
                    Some(hz) => hz as u64,
                    None => 0,
                },
            );
            text.append(" Hz, ");
            push_decimal(&mut text, m.codec.octets_per_frame as u64);
            text.append(" octets per frame");
            assert(text@ =~= microphone_text(m));
            log(&mut out, text.as_str());
            return (out, Call::RunAudio);
        }
        if now.saturating_add(Duration { nanos: ASK_AGAIN_NANOS }).nanos < setup.deadline.nanos {
            return (out, Call::WatchMicrophoneAgain(handle));
        }
        let mut text = String::new();
        text.append("microphone Source ASE ");
        push_decimal(&mut text, m.ase_id as u64);
        text.append(" is not in Streaming state (");
        text.append(
            match state {
                Some(state) => state_name(state),
                None => "unreadable state",
            },
        );
        text.append(")");
        assert(text@ =~= "microphone Source ASE "@ + decimal(m.ase_id as nat)
            + " is not in Streaming state ("@ + (match state {
            Some(state) => state_text(state),
            None => "unreadable state"@,
        }) + ")"@);
        (out, fail(text))
    }

    /// What the application is told when audio begins.
    pub fn streaming_started(&self, setup: &Setup, latency_ms: u32) -> (r: Message)
        ensures
            r@ == (Line::StreamingStarted { cis: setup@.cis, latency_ms }),
    {
        Message::StreamingStarted { cis: copied_words(setup.cis.as_slice()), latency_ms }
    }
}

// ---------------------------------------------------------------------------
// After the music
// ---------------------------------------------------------------------------

/// What is left to do once audio has ended: release these endpoints, remove the
/// group, and hang up where the connection is of no more use.
#[derive(Debug)]
pub struct Aftermath {
    pub release: Vec<u8>,
    pub hang_up: Option<u16>,
    pub say: Vec<Message>,
    pub result: Result<(), String>,
}

/// What is left to do, whatever holds it.
pub struct Wake {
    pub release: Seq<u8>,
    pub hang_up: Option<u16>,
    pub say: Seq<Line>,
    pub result: Result<(), Seq<char>>,
}

impl View for Aftermath {
    type V = Wake;

    open spec fn view(&self) -> Wake {
        Wake {
            release: self.release@,
            hang_up: self.hang_up,
            say: lines(self.say@),
            result: match self.result {
                Ok(()) => Ok(()),
                Err(t) => Err(t@),
            },
        }
    }
}

/// The worker once the connection is known to be gone.
pub open spec fn bereft(s: Standing, reason: u8) -> Standing {
    Standing {
        connected: None,
        capabilities: None,
        control_point: None,
        configured_ases: Seq::empty(),
        lost_reason: Some(reason),
        ..s
    }
}

/// The address of the connection, as far as there is one.
pub open spec fn address_of(s: Standing) -> Seq<char> {
    match s.connected {
        Some((address, _)) => address,
        None => ""@,
    }
}

/// What follows audio that has ended. Handing the headphones back is a real release
/// rather than silence: an endpoint left configured keeps the headset ours. A link
/// that is gone, or a failure of the transport, leads to another attempt; so the
/// application cannot remain falsely connected.
pub open spec fn stopped_turn(
    s: Standing,
    g: Staging,
    failure: Option<Trouble>,
    lost: Option<u8>,
    yielded: bool,
) -> (Standing, Wake) {
    let handed = if yielded {
        Standing {
            configured_ases: Seq::empty(),
            yielded: Some(
                (
                    match g.plan.codec.sampling_frequency.rate() {
                        Some(hz) => hz,
                        None => 48_000,
                    },
                    g.plan.qos.sdu_interval_us,
                ),
            ),
            ..s
        }
    } else {
        s
    };
    let release = if yielded {
        s.configured_ases
    } else {
        Seq::empty()
    };
    let said = (if yielded {
        seq![
            Line::Log("silence: headphones released, another device may take them"@),
            Line::Yielded,
        ]
    } else {
        Seq::empty()
    }).push(Line::StreamingStopped);
    match (lost, failure) {
        (Some(reason), _) => (
            bereft(handed, reason),
            Wake {
                release,
                hang_up: None,
                say: said.push(Line::Lost { address: address_of(s), reason }),
                result: match failure {
                    Some(e) => Err("playback ended: "@ + e.message()),
                    None => Ok(()),
                },
            },
        ),
        (None, Some(e)) => (
            Standing { link: None, ..bereft(handed, TIMED_OUT) },
            Wake {
                release,
                hang_up: Some(g.handle),
                say: said.push(
                    Line::Log("playback failed: "@ + e.message() + "; restoring the connection"@),
                ).push(Line::Lost { address: address_of(s), reason: TIMED_OUT }),
                result: Ok(()),
            },
        ),
        (None, None) => (handed, Wake { release, hang_up: None, say: said, result: Ok(()) }),
    }
}

impl Agent {
    fn forget_connection(&mut self, reason: u8) -> (r: String)
        requires
            old(self).wf(),
        ensures
            final(self).wf(),
            final(self)@ == bereft(old(self)@, reason),
            r@ == address_of(old(self)@),
    {
        let address: String = match self.connected.take() {
            Some((address, _)) => address,
            None => "".to_owned(),
        };
        self.capabilities = None;
        self.control_point = None;
        self.configured_ases = Vec::new();
        assert(self.configured_ases@ =~= Seq::empty());
        self.lost_reason = Some(reason);
        address
    }

    /// Takes the news that audio has ended: with what failure, whether the link was
    /// lost, and whether the headphones were handed back.
    pub fn stopped(
        &mut self,
        setup: &Setup,
        failure: Option<SessionError>,
        lost: Option<u8>,
        yielded: bool,
    ) -> (r: Aftermath)
        requires
            old(self).wf(),
        ensures
            final(self).wf(),
            (final(self)@, r@) == stopped_turn(
                old(self)@,
                setup@,
                match failure {
                    Some(e) => Some(e@),
                    None => None,
                },
                lost,
                yielded,
            ),
    {
        let ghost (now, wake) = stopped_turn(
            self@,
            setup@,
            if failure is Some {
                Some(failure->0@)
            } else {
                None
            },
            lost,
            yielded,
        );
        let mut out = nothing();
        let mut release: Vec<u8> = Vec::new();
        if yielded {
            release = copied(self.configured_ases.as_slice());
            self.configured_ases = Vec::new();
            assert(self.configured_ases@ =~= Seq::empty());
            self.yielded = Some(
                (setup.plan.codec.sampling_frequency.hz_or_48000(), setup.plan.qos.sdu_interval_us),
            );
            log(&mut out, "silence: headphones released, another device may take them");
            say(&mut out, Message::Yielded);
        }
        say(&mut out, Message::StreamingStopped);
        assert(release@ =~= wake.release);
        if let Some(reason) = lost {
            let address = self.forget_connection(reason);
            say(&mut out, Message::Lost { address, reason });
            let result: Result<(), String> = match failure {
                Some(e) => Err(phrase("playback ended: ", e.text().as_str())),
                None => Ok(()),
            };
            assert(lines(out@) =~= wake.say);
            assert(self@ == now);
            return Aftermath { release, hang_up: None, say: out, result };
        }
        if let Some(e) = failure {
            log(
                &mut out,
                sentence(
                    "playback failed: ",
                    e.text().as_str(),
                    "; restoring the connection",
                ).as_str(),
            );
            let address = self.forget_connection(TIMED_OUT);
            self.link = None;
            say(&mut out, Message::Lost { address, reason: TIMED_OUT });
            assert(lines(out@) =~= wake.say);
            assert(self@ == now);
            return Aftermath { release, hang_up: Some(setup.handle), say: out, result: Ok(()) };
        }
        assert(lines(out@) =~= wake.say);
        assert(self@ == now);
        Aftermath { release, hang_up: None, say: out, result: Ok(()) }
    }
}

// ---------------------------------------------------------------------------
// Playing, and taking the headphones back
// ---------------------------------------------------------------------------

/// What follows playback.
#[derive(Debug)]
pub enum Encore {
    Finished(Result<(), String>),
    /// Nothing is configured and nothing is sent: a phone may have the headphones.
    /// Wait for this computer to make a sound.
    WaitForSound { handle: u16, sample_rate: u32, frame_us: u32 },
    /// Build the whole stream again.
    Again,
}

/// What follows playback, whatever holds it.
pub enum Sequel {
    Finished(Result<(), Seq<char>>),
    WaitForSound { handle: u16, sample_rate: u32, frame_us: u32 },
    Again,
}

impl View for Encore {
    type V = Sequel;

    open spec fn view(&self) -> Sequel {
        match self {
            Encore::Finished(result) => Sequel::Finished(
                match result {
                    Ok(()) => Ok(()),
                    Err(t) => Err(t@),
                },
            ),
            Encore::WaitForSound { handle, sample_rate, frame_us } => Sequel::WaitForSound {
                handle: *handle,
                sample_rate: *sample_rate,
                frame_us: *frame_us,
            },
            Encore::Again => Sequel::Again,
        }
    }
}

/// What follows playback that has ended. A link that is gone is not kept. Anything
/// but a deliberate hand-back is the end.
pub open spec fn ended_turn(s: Standing, link: LinkState, result: Result<(), Seq<char>>) -> (
    Standing,
    Sequel,
) {
    let kept = Standing {
        link: if s.connected is Some {
            Some(link)
        } else {
            s.link
        },
        yielded: None,
        ..s
    };
    (
        kept,
        match (s.yielded, s.connected, result) {
            (Some((sample_rate, frame_us)), Some((_, handle)), Ok(())) => Sequel::WaitForSound {
                handle,
                sample_rate,
                frame_us,
            },
            _ => Sequel::Finished(result),
        },
    )
}

impl Agent {
    /// Gets ready to play: the connection, and the link to set a stream up over.
    pub fn begin_play(&mut self) -> (r: Result<(u16, Link), String>)
        requires
            old(self).wf(),
        ensures
            final(self).wf(),
            match (old(self)@.connected, old(self)@.link) {
                (None, _) => r is Err && r->Err_0@ == "no device is connected"@ && final(self)@
                    == old(self)@,
                (Some(_), None) => r is Err && r->Err_0@ == "connection is not open"@
                    && final(self)@ == old(self)@,
                (Some((_, handle)), Some(link)) => {
                    let (got, taken) = r->Ok_0;
                    &&& r is Ok
                    &&& got == handle
                    &&& taken@ == link
                    &&& final(self)@ == (Standing { link: None, yielded: None, ..old(self)@ })
                },
            },
    {
        let handle: u16 = match &self.connected {
            None => {
                return Err("no device is connected".to_owned());
            },
            Some((_, handle)) => *handle,
        };
        match self.link.take() {
            None => Err("connection is not open".to_owned()),
            Some(link) => {
                self.yielded = None;
                Ok((handle, link))
            },
        }
    }

    /// Takes the link back with the outcome of playing.
    pub fn end_play(&mut self, link: Link, result: Result<(), String>) -> (r: Encore)
        requires
            old(self).wf(),
        ensures
            final(self).wf(),
            (final(self)@, r@) == ended_turn(
                old(self)@,
                link@,
                match result {
                    Ok(()) => Ok(()),
                    Err(t) => Err(t@),
                },
            ),
    {
        let handle: Option<u16> = match &self.connected {
            Some((_, handle)) => Some(*handle),
            None => None,
        };
        if handle.is_some() {
            self.link = Some(link);
        }
        let yielded: Option<(u32, u32)> = self.yielded;
        self.yielded = None;
        match (yielded, handle) {
            (Some((sample_rate, frame_us)), Some(handle)) => match result {
                Ok(()) => Encore::WaitForSound { handle, sample_rate, frame_us },
                Err(t) => Encore::Finished(Err(t)),
            },
            _ => Encore::Finished(result),
        }
    }

    /// Takes the outcome of waiting for a sound.
    pub fn sound_heard(&self, outcome: Result<bool, SessionError>) -> (r: (Vec<Message>, Encore))
        ensures
            match outcome {
                Err(e) => lines((r.0)@).len() == 0 && (r.1)@ == Sequel::Finished(
                    Err("waiting for audio failed: "@ + e@.message()),
                ),
                Ok(false) => lines((r.0)@).len() == 0 && (r.1)@ == Sequel::Finished(Ok(())),
                Ok(true) => lines((r.0)@) == seq![
                    Line::Log("audio is back: taking the headphones again"@),
                    Line::Reclaiming,
                ] && (r.1)@ == Sequel::Again,
            },
    {
        let mut out = nothing();
        match outcome {
            Err(e) => (
                out,
                Encore::Finished(
                    Err(phrase("waiting for audio failed: ", e.text().as_str())),
                ),
            ),
            Ok(heard) => {
                if !heard {
                    return (out, Encore::Finished(Ok(())));
                }
                log(&mut out, "audio is back: taking the headphones again");
                say(&mut out, Message::Reclaiming);
                (out, Encore::Again)
            },
        }
    }
}

// ---------------------------------------------------------------------------
// Laws
// ---------------------------------------------------------------------------

/// Audio is sent only once every endpoint of the stream was seen to be streaming.
pub proof fn lemma_audio_waits_for_every_endpoint(
    g: Staging,
    s: Seq<(u8, Option<Seq<u8>>)>,
    diagnostics: bool,
    now: Duration,
    i: int,
)
    requires
        states_turn(g, s, diagnostics, now).2 is RunAudio || states_turn(
            g,
            s,
            diagnostics,
            now,
        ).2 is WatchMicrophone,
        0 <= i < s.len(),
    ensures
        state_in(s[i]) == Some(STATE_STREAMING),
{
    lemma_missing(s);
    assert(streams(s[i]));
}

/// Whether no endpoint was found twice.
pub open spec fn found_once(endpoints: Seq<(u8, u16)>) -> bool {
    forall|i: int, j: int|
        0 <= i < j < endpoints.len() ==> #[trigger] endpoints[i].0 != #[trigger] endpoints[j].0
}

/// The endpoints that are used, by their number.
pub open spec fn used_ids(sinks: Seq<(u8, u16)>, ids: Seq<u8>) -> Seq<u8> {
    used(sinks, ids).map_values(|e: (u8, u16)| e.0)
}

proof fn lemma_used_once(sinks: Seq<(u8, u16)>, ids: Seq<u8>)
    requires
        found_once(sinks),
    ensures
        used_ids(sinks, ids).no_duplicates(),
    decreases sinks.len(),
{
    if sinks.len() > 0 {
        let front = sinks.drop_last();
        assert(found_once(front)) by {
            assert forall|i: int, j: int| 0 <= i < j < front.len() implies #[trigger] front[i].0
                != #[trigger] front[j].0 by {
                assert(front[i] == sinks[i] && front[j] == sinks[j]);
            }
        }
        lemma_used_once(front, ids);
        let before = used(front, ids);
        let last = sinks.last();
        if ids.contains(last.0) {
            let all = used_ids(sinks, ids);
            assert(used(sinks, ids) == before.push(last));
            assert forall|i: int, j: int|
                0 <= i < all.len() && 0 <= j < all.len() && i != j implies all[i] != all[j] by {
                let m = if i < j {
                    i
                } else {
                    j
                };
                let n = if i < j {
                    j
                } else {
                    i
                };
                assert(all[m] == used_ids(front, ids)[m]);
                if n < before.len() {
                    assert(all[n] == used_ids(front, ids)[n]);
                } else {
                    lemma_used_endpoints(front, ids, before[m]);
                    assert(before.contains(before[m]));
                    let k = choose|k: int| 0 <= k < front.len() && front[k] == before[m];
                    assert(sinks[k] == before[m]);
                    assert(sinks[sinks.len() - 1] == last);
                }
            }
        }
    }
}

proof fn lemma_every_id_is_used(sinks: Seq<(u8, u16)>, ids: Seq<u8>, ase_id: u8)
    requires
        found_once(sinks),
        used(sinks, ids).len() == ids.len(),
        ids.contains(ase_id),
    ensures
        used_ids(sinks, ids).contains(ase_id),
{
    let some = used_ids(sinks, ids);
    lemma_used_once(sinks, ids);
    some.unique_seq_to_set();
    ids.lemma_cardinality_of_set();
    assert(some.to_set().subset_of(ids.to_set())) by {
        assert forall|a: u8| some.to_set().contains(a) implies ids.to_set().contains(a) by {
            let i = choose|i: int| 0 <= i < some.len() && some[i] == a;
            let endpoint = used(sinks, ids)[i];
            assert(used(sinks, ids).contains(endpoint));
            lemma_used_endpoints(sinks, ids, endpoint);
        }
    }
    vstd::set_lib::lemma_len_subset(some.to_set(), ids.to_set());
    vstd::set_lib::lemma_subset_equality(some.to_set(), ids.to_set());
    assert(ids.to_set().contains(ase_id));
    assert(some.to_set().contains(ase_id));
}

/// No audio before both ears: from channels that came up to the reading that lets
/// audio run, every endpoint of the plan was read in between and was streaming.
pub proof fn lemma_audio_waits_for_the_whole_plan(
    g: Staging,
    outcome: Result<Channels, Trouble>,
    then: Duration,
    watched: Staging,
    replies: Seq<Said>,
    at: int,
    diagnostics: bool,
    now: Duration,
    ase_id: u8,
)
    requires
        found_once(g.sinks),
        g.plan.ase_ids.contains(ase_id),
        !(established_turn(g, outcome, then).2 is Fail),
        watched.sinks == g.sinks,
        watched.plan == g.plan,
        readings_stage(replies, at, used(g.sinks, g.plan.ase_ids), Seq::empty()) is Done,
        ({
            let s = readings_stage(
                replies,
                at,
                used(g.sinks, g.plan.ase_ids),
                Seq::empty(),
            )->Done_0;
            let next = states_turn(watched, s, diagnostics, now).2;
            next is RunAudio || next is WatchMicrophone
        }),
    ensures
        ({
            let s = readings_stage(
                replies,
                at,
                used(g.sinks, g.plan.ase_ids),
                Seq::empty(),
            )->Done_0;
            exists|i: int|
                0 <= i < s.len() && (#[trigger] s[i]).0 == ase_id && state_in(s[i]) == Some(
                    STATE_STREAMING,
                )
        }),
{
    let endpoints = used(g.sinks, g.plan.ase_ids);
    let s = readings_stage(replies, at, endpoints, Seq::empty())->Done_0;
    lemma_every_endpoint_is_read(replies, at, endpoints, Seq::empty());
    lemma_every_id_is_used(g.sinks, g.plan.ase_ids, ase_id);
    let ids = used_ids(g.sinks, g.plan.ase_ids);
    let i = choose|i: int| 0 <= i < ids.len() && ids[i] == ase_id;
    assert(s[0 + i].0 == endpoints[i].0);
    lemma_audio_waits_for_every_endpoint(watched, s, diagnostics, now, i);
}

/// Endpoints are never asked against the clock of another step: whenever they are
/// first watched, the whole time to start lies ahead.
pub proof fn lemma_time_to_start_is_whole(
    g: Staging,
    outcome: Result<Channels, Trouble>,
    now: Duration,
)
    ensures
        established_turn(g, outcome, now).2 is Watch ==> established_turn(
            g,
            outcome,
            now,
        ).0.deadline == start_by(now),
        established_turn(g, outcome, now).2 is StartReceiver ==> g.plan.microphone is Some,
        receiver_turn(g, now).1 is Watch,
        receiver_turn(g, now).0.deadline == start_by(now),
{
}

/// The endpoints that are waited for are those that the plan uses: none is left out
/// and none is foreign.
pub proof fn lemma_used_endpoints(sinks: Seq<(u8, u16)>, ids: Seq<u8>, endpoint: (u8, u16))
    ensures
        used(sinks, ids).contains(endpoint) <==> sinks.contains(endpoint) && ids.contains(
            endpoint.0,
        ),
    decreases sinks.len(),
{
    if sinks.len() == 0 {
        assert(used(sinks, ids) =~= Seq::empty());
    } else {
        let front = sinks.drop_last();
        let last = sinks.last();
        lemma_used_endpoints(front, ids, endpoint);
        let before = used(front, ids);
        let now = used(sinks, ids);
        if front.contains(endpoint) {
            let i = choose|i: int| 0 <= i < front.len() && front[i] == endpoint;
            assert(sinks[i] == endpoint);
        }
        if sinks.contains(endpoint) && endpoint != last {
            let i = choose|i: int| 0 <= i < sinks.len() && sinks[i] == endpoint;
            assert(front[i] == endpoint);
        }
        assert(sinks[sinks.len() - 1] == last);
        if ids.contains(last.0) {
            assert(now == before.push(last));
            assert(now[now.len() - 1] == last);
            if before.contains(endpoint) {
                let i = choose|i: int| 0 <= i < before.len() && before[i] == endpoint;
                assert(now[i] == endpoint);
            }
            if now.contains(endpoint) && endpoint != last {
                let i = choose|i: int| 0 <= i < now.len() && now[i] == endpoint;
                assert(before[i] == endpoint);
            }
        }
    }
}

/// The radio settings that are sent never exceed the latency that the headphones
/// support, unless the user spelled them out.
pub proof fn lemma_latency_is_supported(
    qos: QosConfiguration,
    wanted: DevicePreference,
    custom: bool,
)
    requires
        !custom,
        wanted.max_transport_latency_ms is Some,
    ensures
        adjusted(qos, wanted, custom).0.max_transport_latency_ms
            <= wanted.max_transport_latency_ms->0,
{
}

/// The radio falls back to 1M only where the headphones do not offer 2M at all, and
/// never where the user spelled the codec out.
pub proof fn lemma_slow_radio_is_a_fallback(
    qos: QosConfiguration,
    wanted: DevicePreference,
    custom: bool,
)
    ensures
        adjusted(qos, wanted, custom).0.phy != qos.phy ==> {
            &&& !custom
            &&& adjusted(qos, wanted, custom).0.phy == 0x01
            &&& wanted.phy_preference is Some
            &&& wanted.phy_preference->0 & 0x02 == 0
            &&& wanted.phy_preference->0 & 0x01 != 0
        },
{
}

/// What the user spelled out is sent as it is, but for the delay.
pub proof fn lemma_custom_settings_stay(qos: QosConfiguration, wanted: DevicePreference)
    ensures
        adjusted(qos, wanted, true).0 == (QosConfiguration {
            presentation_delay_us: adjusted(qos, wanted, true).0.presentation_delay_us,
            ..qos
        }),
{
}

/// After a loss nothing of the connection is kept: the next attempt starts from
/// nothing, and knows why.
pub proof fn lemma_loss_leaves_nothing(
    s: Standing,
    g: Staging,
    failure: Option<Trouble>,
    lost: Option<u8>,
    yielded: bool,
)
    requires
        lost is Some || failure is Some,
    ensures
        ({
            let after = stopped_turn(s, g, failure, lost, yielded).0;
            &&& after.connected is None
            &&& after.capabilities is None
            &&& after.control_point is None
            &&& after.configured_ases.len() == 0
            &&& after.lost_reason is Some
        }),
{
}

/// A stop that the user asked for leaves no reason to reconnect.
pub proof fn lemma_stop_is_no_loss(s: Standing, g: Staging, yielded: bool)
    ensures
        stopped_turn(s, g, None, None, yielded).0.lost_reason == s.lost_reason,
        stopped_turn(s, g, None, None, yielded).0.connected == s.connected,
{
}

/// The headphones get what they prefer: their delay and their retransmissions where they
/// name them, and never more latency than they support; what they say nothing of stays
/// as it was planned. Where the user spelled the codec out only the delay is theirs.
pub proof fn lemma_headphones_get_what_they_prefer(
    qos: QosConfiguration,
    wanted: DevicePreference,
    custom: bool,
)
    ensures
        ({
            let now = adjusted(qos, wanted, custom).0;
            &&& now.presentation_delay_us == (match wanted.presentation_delay_us {
                Some(delay) => delay,
                None => qos.presentation_delay_us,
            })
            &&& !custom ==> now.retransmission_number == (match wanted.retransmissions {
                Some(rtn) => rtn,
                None => qos.retransmission_number,
            })
            &&& !custom && wanted.max_transport_latency_ms is Some
                && wanted.max_transport_latency_ms->0 < qos.max_transport_latency_ms
                ==> now.max_transport_latency_ms == wanted.max_transport_latency_ms->0
            &&& wanted.max_transport_latency_ms is None || wanted.max_transport_latency_ms->0
                >= qos.max_transport_latency_ms ==> now.max_transport_latency_ms
                == qos.max_transport_latency_ms
            &&& !custom && wanted.phy_preference is Some && wanted.phy_preference->0 & 0x02 == 0
                && wanted.phy_preference->0 & 0x01 != 0 ==> now.phy == 0x01
            &&& wanted.phy_preference is None || wanted.phy_preference->0 & 0x02 != 0 ==> now.phy
                == qos.phy
            &&& now.sdu_interval_us == qos.sdu_interval_us
            &&& now.framing == qos.framing
            &&& now.max_sdu == qos.max_sdu
        }),
{
}

/// The stream is planned from what the user chose: from the preset under whose name the
/// settings stand, from the codec that they spell out where that is "custom", and from
/// the usual preset where nothing was chosen.
pub proof fn lemma_stream_follows_the_choice(values: Values, preset: Preset, single_cis: bool)
    ensures
        value_in(values, "preset"@) == Some(preset.name()) ==> request_in(values, single_cis) == (
        Request::Preset { preset, single_cis }) && !is_custom(values),
        value_in(values, "preset"@) == Some("custom"@) ==> request_in(values, single_cis) == (
        Request::Custom { codec: codec_in(values), qos: qos_in(values), single_cis }) && is_custom(
            values,
        ),
        value_in(values, "preset"@) is None ==> request_in(values, single_cis) == (
        Request::Preset { preset: Preset::WindowsDefault, single_cis }),
{
    reveal_strlit("custom");
    reveal_strlit("windows");
    reveal_strlit("low-latency");
    reveal_strlit("high-quality");
    reveal_strlit("robust");
    assert("custom"@.len() == 6 && "robust"@.len() == 6 && "windows"@.len() == 7);
    assert("low-latency"@.len() == 11 && "high-quality"@.len() == 12);
    assert("custom"@[0] == 'c' && "robust"@[0] == 'r');
    lemma_names_and_presets_belong_together(preset, preset.name());
    lemma_names_and_presets_belong_together(Preset::WindowsDefault, "windows"@);
}

/// Choosing a preset is what the next stream is planned from.
pub proof fn lemma_chosen_preset_is_planned(
    values: Values,
    preset: Preset,
    recognised: bool,
    single_cis: bool,
)
    ensures
        request_in(changed(values, "preset"@, preset.name(), recognised).0, single_cis) == (
        Request::Preset { preset, single_cis }),
{
    lemma_preset_is_spelled_out(values, preset, recognised, "preset"@);
    lemma_stream_follows_the_choice(
        changed(values, "preset"@, preset.name(), recognised).0,
        preset,
        single_cis,
    );
}

/// A preset keeps its own radio settings, whatever was typed in before; a codec that is
/// spelled out takes the radio and the retransmissions that were typed in, and nothing
/// else of a plan is touched.
pub proof fn lemma_typed_settings_count_only_when_asked_for(
    qos: QosConfiguration,
    values: Values,
    rtn: nat,
)
    requires
        rtn <= 255,
    ensures
        ({
            let now = typed_qos(qos, values);
            &&& !is_custom(values) ==> now == qos
            &&& is_custom(values) && value_in(values, "phy"@) == Some("1M"@) ==> now.phy == 1
            &&& is_custom(values) && value_in(values, "phy"@) == Some("2M"@) ==> now.phy == 2
            &&& is_custom(values) && value_in(values, "retransmissions"@) == Some(decimal(rtn))
                ==> now.retransmission_number == rtn
            &&& now.sdu_interval_us == qos.sdu_interval_us
            &&& now.max_sdu == qos.max_sdu
            &&& now.max_transport_latency_ms == qos.max_transport_latency_ms
            &&& now.presentation_delay_us == qos.presentation_delay_us
        }),
{
    reveal_strlit("1M");
    reveal_strlit("2M");
    assert("1M"@[0] == '1' && "2M"@[0] == '2');
    lemma_decimal_reads_back(rtn);
    lemma_near_whole(false, rtn);
}

/// The shape of a stream is the mode that was chosen, and the microphone is part of it
/// exactly where it is switched on, at the quality that was chosen.
pub proof fn lemma_shape_follows_the_settings(g: Staging, values: Values)
    ensures
        ({
            let due = shape_turn(g, values).1;
            let mode = value_in(values, "audio_mode"@);
            let on = value_in(values, "microphone_mode"@) == Some("on"@);
            let quality = value_in(values, "microphone_quality"@);
            &&& mode == Some("mono"@) <==> due is IntoMono
            &&& mode == Some("legacy"@) <==> due is IntoLegacy
            &&& due is AddMicrophone || due is ReadHandles || due is IntoMono || due is IntoLegacy
            &&& due is AddMicrophone ==> on
            &&& on && mode != Some("mono"@) && mode != Some("legacy"@) ==> due is AddMicrophone
            &&& on ==> (microphone_turn(Seq::empty(), g, values).1 matches Due::AddMicrophone(q)
                && {
                &&& quality == Some("voice"@) <==> q == MicrophoneQuality::Voice
                &&& quality == Some("high"@) <==> q == MicrophoneQuality::High
            })
            &&& !on ==> microphone_turn(Seq::empty(), g, values).1 == (Due::ReadHandles {
                sources: g.plan.microphone is Some,
            })
        }),
{
    reveal_strlit("mono");
    reveal_strlit("legacy");
    reveal_strlit("stereo");
    reveal_strlit("on");
    reveal_strlit("off");
    reveal_strlit("voice");
    reveal_strlit("high");
    reveal_strlit("balanced");
    assert("mono"@.len() == 4 && "legacy"@.len() == 6 && "stereo"@.len() == 6);
    assert("legacy"@[0] == 'l' && "stereo"@[0] == 's');
    assert("on"@.len() == 2 && "off"@.len() == 3);
    assert("voice"@.len() == 5 && "high"@.len() == 4 && "balanced"@.len() == 8);
}

/// Everything that is going to be configured is on record, and nothing else: each
/// endpoint of the plan, and that of the microphone.
pub proof fn lemma_configured_endpoints_are_on_record(plan: Planned, ase_id: u8)
    ensures
        configured_by(plan).contains(ase_id) <==> plan.ase_ids.contains(ase_id) || (
        plan.microphone is Some && plan.microphone->0.ase_id == ase_id),
{
    if let Some(m) = plan.microphone {
        let all = configured_by(plan);
        assert(all[plan.ase_ids.len() as int] == m.ase_id);
        if plan.ase_ids.contains(ase_id) {
            let i = choose|i: int| 0 <= i < plan.ase_ids.len() && plan.ase_ids[i] == ase_id;
            assert(all[i] == ase_id);
        }
        if all.contains(ase_id) && ase_id != m.ase_id {
            let i = choose|i: int| 0 <= i < all.len() && all[i] == ase_id;
            assert(plan.ase_ids[i] == ase_id);
        }
    }
}

/// What is said of a stream tells the ears apart: one for the left, one for the right,
/// both at once, and none in particular have words of their own.
pub proof fn lemma_ears_are_told_apart(allocation: u32)
    ensures
        side_text(1) == "left"@,
        side_text(2) == "right"@,
        side_text(3) == "stereo"@,
        side_text(0) == "mono"@,
        allocation > 3 ==> side_text(allocation) == hex(allocation as nat, 8),
{
}

/// Half a stream is no stream: unless every channel came up, the survivors are handed
/// back, the group is removed and the reason is given; and once all are up, they are the
/// channels of the stream.
pub proof fn lemma_half_a_stream_is_handed_back(
    g: Staging,
    outcome: Result<Channels, Trouble>,
    now: Duration,
)
    ensures
        ({
            let (r, said, due) = established_turn(g, outcome, now);
            &&& outcome matches Err(_) ==> r == g && (due matches Due::Fail {
                channels,
                group,
                text,
            } && channels.len() == 0 && group)
            &&& outcome matches Ok(c) ==> (c.failed.len() > 0 ==> r == g && (due
                matches Due::Fail { channels, group, text } && channels == c.established && group))
            &&& outcome matches Ok(c) ==> (c.failed.len() == 0 ==> r.cis == c.established
                && r.plan == g.plan && r.sinks == g.sinks && r.sources == g.sources && said
                == seq![Line::Log("channels established: "@ + c.description())])
            &&& due is Watch || due is StartReceiver ==> outcome is Ok
                && outcome->Ok_0.failed.len() == 0
            &&& due matches Due::StartReceiver(ase_id) ==> g.plan.microphone is Some && ase_id
                == g.plan.microphone->0.ase_id
            &&& due matches Due::Watch(endpoints) ==> g.plan.microphone is None && endpoints.len()
                == g.plan.ase_ids.len()
        }),
{
}

/// The endpoints have three seconds to start: until then they are asked again, all that
/// the plan uses, and after that the stream is given up unless every one streams.
pub proof fn lemma_endpoints_have_three_seconds(
    g: Staging,
    s: Seq<(u8, Option<Seq<u8>>)>,
    diagnostics: bool,
    began: Duration,
    now: Duration,
)
    requires
        g.deadline == receiver_turn(g, began).0.deadline,
        began.nanos <= now.nanos,
        now.nanos + 3_080_000_000 <= u128::MAX,
    ensures
        ({
            let due = states_turn(g, s, diagnostics, now).2;
            let all = forall|i: int|
                0 <= i < s.len() ==> ((#[trigger] s[i]).1 matches Some(v) && v.len() >= 2 && v[1]
                    == 4);
            &&& !all && now.nanos - began.nanos < 2_920_000_000 ==> due == Due::WatchAgain(
                used(g.sinks, g.plan.ase_ids),
            )
            &&& !all && now.nanos - began.nanos >= 2_920_000_000 ==> due is Fail
            &&& all && g.plan.microphone is None ==> due == Due::RunAudio
            &&& all && g.plan.microphone is Some ==> (due matches Due::WatchMicrophone(handle)
                && handle_of(g.sources, g.plan.microphone->0.ase_id) == Some(handle)) || (
            handle_of(g.sources, g.plan.microphone->0.ase_id) is None && due is Fail)
        }),
{
    lemma_missing(s);
    if all_stream(s) {
        assert forall|i: int| 0 <= i < s.len() implies ((#[trigger] s[i]).1 matches Some(v)
            && v.len() >= 2 && v[1] == 4) by {
            assert(streams(s[i]));
        }
    }
    if forall|i: int|
        0 <= i < s.len() ==> ((#[trigger] s[i]).1 matches Some(v) && v.len() >= 2 && v[1] == 4) {
        assert forall|i: int| 0 <= i < s.len() implies streams(#[trigger] s[i]) by {
            assert(s[i].1 matches Some(v) && v.len() >= 2 && v[1] == 4);
        }
        assert(all_stream(s));
    }
}

/// A handle belongs to its endpoint.
pub proof fn lemma_handle_of(endpoints: Seq<(u8, u16)>, ase_id: u8)
    ensures
        handle_of(endpoints, ase_id) matches Some(handle) ==> endpoints.contains((ase_id, handle)),
        handle_of(endpoints, ase_id) is None ==> forall|i: int|
            0 <= i < endpoints.len() ==> (#[trigger] endpoints[i]).0 != ase_id,
    decreases endpoints.len(),
{
    if endpoints.len() > 0 {
        let rest = endpoints.skip(1);
        lemma_handle_of(rest, ase_id);
        if endpoints[0].0 == ase_id {
            assert(endpoints[0] == (ase_id, endpoints[0].1));
        } else {
            if let Some(handle) = handle_of(rest, ase_id) {
                let i = choose|i: int| 0 <= i < rest.len() && rest[i] == (ase_id, handle);
                assert(endpoints[i + 1] == (ase_id, handle));
            } else {
                assert forall|i: int| 0 <= i < endpoints.len() implies (#[trigger] endpoints[i]).0
                    != ase_id by {
                    if i > 0 {
                        assert(rest[i - 1] == endpoints[i]);
                    }
                }
            }
        }
    }
}

/// The microphone, too, has to stream before audio runs, and has its time to start.
pub proof fn lemma_microphone_has_to_stream(
    g: Staging,
    m: Microphone,
    handle: u16,
    value: Option<Seq<u8>>,
    now: Duration,
)
    requires
        now.nanos + 80_000_000 <= u128::MAX,
    ensures
        ({
            let due = microphone_state_turn(g, m, handle, value, now).1;
            let streaming = value is Some && (value->0).len() >= 2 && (value->0)[1] == 4;
            &&& streaming <==> due == Due::RunAudio
            &&& !streaming && now.nanos + 80_000_000 < g.deadline.nanos ==> due
                == Due::WatchMicrophoneAgain(handle)
            &&& !streaming && now.nanos + 80_000_000 >= g.deadline.nanos ==> due is Fail
        }),
{
}

/// Handing the headphones back is a real release, of every endpoint on record, and says
/// with what they are to be listened for; nothing is released otherwise.
pub proof fn lemma_handing_back_releases_everything(
    s: Standing,
    g: Staging,
    failure: Option<Trouble>,
    lost: Option<u8>,
    yielded: bool,
)
    ensures
        ({
            let (after, wake) = stopped_turn(s, g, failure, lost, yielded);
            &&& yielded ==> wake.release == s.configured_ases && after.configured_ases.len() == 0
                && after.yielded is Some && (after.yielded->0).1 == g.plan.qos.sdu_interval_us && (
            g.plan.codec.sampling_frequency.rate() is Some ==> (after.yielded->0).0
                == g.plan.codec.sampling_frequency.rate()->0)
            &&& !yielded ==> wake.release.len() == 0 && after.yielded == s.yielded
            &&& !yielded && lost is None && failure is None ==> after == s
            &&& wake.say.contains(Line::StreamingStopped)
        }),
{
    let (after, wake) = stopped_turn(s, g, failure, lost, yielded);
    if yielded {
        assert(wake.say[2] == Line::StreamingStopped);
    } else {
        assert(wake.say[0] == Line::StreamingStopped);
    }
}

/// Why playback ended is not mixed up: a link that is gone keeps its reason and needs no
/// hanging up; any other failure hangs up and counts as a time-out, so that it is tried
/// again; and a stop does neither. The application is told of a loss in any case.
pub proof fn lemma_end_of_playback_is_told_apart(
    s: Standing,
    g: Staging,
    failure: Option<Trouble>,
    lost: Option<u8>,
    yielded: bool,
)
    ensures
        ({
            let (after, wake) = stopped_turn(s, g, failure, lost, yielded);
            let told = wake.say.last();
            &&& lost is Some ==> after.lost_reason == lost && wake.hang_up is None && (told
                matches Line::Lost { address, reason } && reason == lost->0 && (s.connected is Some
                ==> address == (s.connected->0).0))
            &&& lost is None && failure is Some ==> after.lost_reason == Some(0x08u8)
                && wake.hang_up == Some(g.handle) && wake.result is Ok && after.link is None && (
            told matches Line::Lost { address, reason } && reason == 0x08 && (s.connected is Some
                ==> address == (s.connected->0).0))
            &&& lost is None && failure is None ==> wake.hang_up is None && wake.result is Ok
                && after.connected == s.connected
            &&& lost is Some ==> (wake.result is Err <==> failure is Some)
            &&& after.settings == s.settings && after.bonds == s.bonds && after.session
                == s.session
        }),
{
}

/// The link outlives playback for as long as there is a connection, and only a
/// deliberate hand-back that went well is followed by listening: over that connection,
/// at the rate and the pace of the stream.
pub proof fn lemma_link_outlives_playback(
    s: Standing,
    link: LinkState,
    result: Result<(), Seq<char>>,
)
    ensures
        ({
            let (after, sequel) = ended_turn(s, link, result);
            &&& s.connected is Some ==> after.link == Some(link)
            &&& s.connected is None ==> after.link == s.link
            &&& after.connected == s.connected
            &&& after.yielded is None
            &&& sequel is WaitForSound <==> s.yielded is Some && s.connected is Some && result
                is Ok
            &&& sequel matches Sequel::WaitForSound { handle, sample_rate, frame_us } ==> handle == (
            s.connected->0).1 && sample_rate == (s.yielded->0).0 && frame_us == (s.yielded->0).1
            &&& !(sequel is WaitForSound) ==> sequel == Sequel::Finished(result)
        }),
{
}

} // verus!
