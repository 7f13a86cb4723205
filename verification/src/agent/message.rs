//! What the application is told.

use vstd::prelude::*;

use crate::capabilities::{Envelope, Reach};
use crate::session::{Counted, RadioQuality, StreamCounters};
use crate::settings::Knob;
use crate::time::Duration;

verus! {

/// One value that a setting can take, with a name for it.
#[derive(Debug)]
pub struct Choice {
    pub value: String,
    pub label: String,
}

impl View for Choice {
    type V = (Seq<char>, Seq<char>);

    open spec fn view(&self) -> (Seq<char>, Seq<char>) {
        (self.value@, self.label@)
    }
}

/// What choices say.
pub open spec fn choices(s: Seq<Choice>) -> Seq<(Seq<char>, Seq<char>)> {
    Seq::new(s.len(), |i: int| s[i]@)
}

/// One setting as the application shows it.
#[derive(Debug)]
pub struct Control {
    pub knob: Knob,
    pub value: String,
    pub options: Option<Vec<Choice>>,
}

/// What a control shows, whatever holds it.
pub struct Shown {
    pub knob: Knob,
    pub value: Seq<char>,
    pub options: Option<Seq<(Seq<char>, Seq<char>)>>,
}

impl View for Control {
    type V = Shown;

    open spec fn view(&self) -> Shown {
        Shown {
            knob: self.knob,
            value: self.value@,
            options: match self.options {
                Some(list) => Some(choices(list@)),
                None => None,
            },
        }
    }
}

/// What controls show.
pub open spec fn controls(s: Seq<Control>) -> Seq<Shown> {
    Seq::new(s.len(), |i: int| s[i]@)
}

/// Something between here and working audio.
#[derive(Debug)]
pub struct Issue {
    pub id: String,
    pub severity: String,
    /// Whether nothing works until it is gone.
    pub blocking: bool,
    pub summary: String,
    pub remedy: String,
    pub setup_action: Option<String>,
}

/// A device that was paired with.
#[derive(Debug)]
pub struct Known {
    pub address: String,
    pub name: String,
    pub le_audio: bool,
}

impl View for Known {
    type V = (Seq<char>, Seq<char>, bool);

    open spec fn view(&self) -> (Seq<char>, Seq<char>, bool) {
        (self.address@, self.name@, self.le_audio)
    }
}

/// What is known of devices.
pub open spec fn known(s: Seq<Known>) -> Seq<(Seq<char>, Seq<char>, bool)> {
    Seq::new(s.len(), |i: int| s[i]@)
}

/// One message to the application.
#[allow(inconsistent_fields)]
#[derive(Debug)]
pub enum Message {
    /// A line for a person to read.
    Log(String),
    /// Something failed; with the command, so that the application can clear the
    /// matching spinner.
    Error { cmd: Option<String>, text: String },
    /// A command is finished with.
    Done { cmd: String },
    Ready { paired: usize },
    Applied { key: String, value: String, needs: Vec<Knob> },
    Settings { controls: Vec<Control> },
    Status { adapter_on: bool, paired: Vec<Known> },
    Adapter { on: bool, version: Option<String>, address: Option<String> },
    Device { address: String, name: String, rssi: i8, le_audio: bool, paired: bool },
    Reconnecting { address: String, attempt: u32 },
    ReconnectStarted { address: String, interval_ms: u64 },
    ReconnectStopped { address: String },
    /// The next attempt is made after this long.
    Waiting { pause: Duration },
    Paired { address: String, name: String, le_audio: bool },
    Capabilities { address: String, summary: String, sink: Envelope, source: Envelope },
    Availability { address: String, state: String, detail: String },
    Battery { address: Option<String>, levels: Vec<u8> },
    /// What was counted; the levels of the audio go with it.
    Streaming {
        counters: StreamCounters,
        backlog: usize,
        underruns: u64,
        quality: Vec<RadioQuality>,
    },
    Connected { address: String, handle: u16, name: String },
    Reclaiming,
    StreamingStarted { cis: Vec<u16>, latency_ms: u32 },
    StreamingStopped,
    Yielded,
    Disconnected,
    /// The link is gone, and nobody asked for that.
    Lost { address: String, reason: u8 },
}

/// What a message says, whatever holds it.
#[allow(inconsistent_fields)]
pub enum Line {
    Log(Seq<char>),
    Error { cmd: Option<Seq<char>>, text: Seq<char> },
    Done { cmd: Seq<char> },
    Ready { paired: int },
    Applied { key: Seq<char>, value: Seq<char>, needs: Seq<Knob> },
    Settings { controls: Seq<Shown> },
    Status { adapter_on: bool, paired: Seq<(Seq<char>, Seq<char>, bool)> },
    Adapter { on: bool, version: Option<Seq<char>>, address: Option<Seq<char>> },
    Device { address: Seq<char>, name: Seq<char>, rssi: i8, le_audio: bool, paired: bool },
    Reconnecting { address: Seq<char>, attempt: u32 },
    ReconnectStarted { address: Seq<char>, interval_ms: u64 },
    ReconnectStopped { address: Seq<char> },
    Waiting { pause: Duration },
    Paired { address: Seq<char>, name: Seq<char>, le_audio: bool },
    Capabilities { address: Seq<char>, summary: Seq<char>, sink: Reach, source: Reach },
    Availability { address: Seq<char>, state: Seq<char>, detail: Seq<char> },
    Battery { address: Option<Seq<char>>, levels: Seq<u8> },
    Streaming {
        counters: Counted,
        backlog: usize,
        underruns: u64,
        quality: Seq<RadioQuality>,
    },
    Connected { address: Seq<char>, handle: u16, name: Seq<char> },
    Reclaiming,
    StreamingStarted { cis: Seq<u16>, latency_ms: u32 },
    StreamingStopped,
    Yielded,
    Disconnected,
    Lost { address: Seq<char>, reason: u8 },
}

impl View for Message {
    type V = Line;

    open spec fn view(&self) -> Line {
        match self {
            Message::Log(t) => Line::Log(t@),
            Message::Error { cmd, text } => Line::Error {
                cmd: crate::device::text_of(*cmd),
                text: text@,
            },
            Message::Done { cmd } => Line::Done { cmd: cmd@ },
            Message::Ready { paired } => Line::Ready { paired: *paired as int },
            Message::Applied { key, value, needs } => Line::Applied {
                key: key@,
                value: value@,
                needs: needs@,
            },
            Message::Settings { controls: list } => Line::Settings { controls: controls(list@) },
            Message::Status { adapter_on, paired } => Line::Status {
                adapter_on: *adapter_on,
                paired: known(paired@),
            },
            Message::Adapter { on, version, address } => Line::Adapter {
                on: *on,
                version: crate::device::text_of(*version),
                address: crate::device::text_of(*address),
            },
            Message::Device { address, name, rssi, le_audio, paired } => Line::Device {
                address: address@,
                name: name@,
                rssi: *rssi,
                le_audio: *le_audio,
                paired: *paired,
            },
            Message::Reconnecting { address, attempt } => Line::Reconnecting {
                address: address@,
                attempt: *attempt,
            },
            Message::ReconnectStarted { address, interval_ms } => Line::ReconnectStarted {
                address: address@,
                interval_ms: *interval_ms,
            },
            Message::ReconnectStopped { address } => Line::ReconnectStopped { address: address@ },
            Message::Waiting { pause } => Line::Waiting { pause: *pause },
            Message::Paired { address, name, le_audio } => Line::Paired {
                address: address@,
                name: name@,
                le_audio: *le_audio,
            },
            Message::Capabilities { address, summary, sink, source } => Line::Capabilities {
                address: address@,
                summary: summary@,
                sink: sink@,
                source: source@,
            },
            Message::Availability { address, state, detail } => Line::Availability {
                address: address@,
                state: state@,
                detail: detail@,
            },
            Message::Battery { address, levels } => Line::Battery {
                address: crate::device::text_of(*address),
                levels: levels@,
            },
            Message::Streaming { counters, backlog, underruns, quality } => Line::Streaming {
                counters: counters@,
                backlog: *backlog,
                underruns: *underruns,
                quality: quality@,
            },
            Message::Connected { address, handle, name } => Line::Connected {
                address: address@,
                handle: *handle,
                name: name@,
            },
            Message::Reclaiming => Line::Reclaiming,
            Message::StreamingStarted { cis, latency_ms } => Line::StreamingStarted {
                cis: cis@,
                latency_ms: *latency_ms,
            },
            Message::StreamingStopped => Line::StreamingStopped,
            Message::Yielded => Line::Yielded,
            Message::Disconnected => Line::Disconnected,
            Message::Lost { address, reason } => Line::Lost { address: address@, reason: *reason },
        }
    }
}

/// What messages say, in order.
pub open spec fn lines(s: Seq<Message>) -> Seq<Line> {
    Seq::new(s.len(), |i: int| s[i]@)
}

/// One more message.
pub fn say(list: &mut Vec<Message>, message: Message)
    ensures
        lines(final(list)@) == lines(old(list)@).push(message@),
{
    list.push(message);
    assert(lines(list@) =~= lines(old(list)@).push(message@));
}

/// One more line for a person to read.
pub fn log(list: &mut Vec<Message>, text: &str)
    ensures
        lines(final(list)@) == lines(old(list)@).push(Line::Log(text@)),
{
    say(list, Message::Log(text.to_owned()));
}

/// No messages.
pub fn nothing() -> (r: Vec<Message>)
    ensures
        lines(r@) == Seq::<Line>::empty(),
{
    let r: Vec<Message> = Vec::new();
    assert(lines(r@) =~= Seq::<Line>::empty());
    r
}

} // verus!
