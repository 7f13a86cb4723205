//! Reading commands, and deciding what each one is about.

use vstd::prelude::*;

use crate::agent::message::{lines, nothing, say, Line, Message};
use crate::device::{copy_text, text_of};
use crate::settings::Knob;
use crate::text::{phrase, same, says_nothing, sentence, trim, trimmed};

verus! {

// ---------------------------------------------------------------------------
// JSON
// ---------------------------------------------------------------------------

/// What `serde_json::from_str` has to say against a text, if it is no JSON value.
pub uninterp spec fn json_fault(line: Seq<char>) -> Option<Seq<char>>;

/// Whether a text is a JSON object.
pub uninterp spec fn json_is_object(line: Seq<char>) -> bool;

/// Whether a character may stand around a JSON value.
pub open spec fn is_json_space(c: char) -> bool {
    c == ' ' || c == '\n' || c == '\t' || c == '\r'
}

/// Whether a text is the JSON null: the word, with nothing but space around it.
pub open spec fn json_is_null(line: Seq<char>) -> bool {
    exists|at: int|
        {
            &&& 0 <= at <= line.len() - 4
            &&& #[trigger] line.subrange(at, at + 4) == "null"@
            &&& forall|i: int|
                0 <= i < line.len() && !(at <= i < at + 4) ==> is_json_space(#[trigger] line[i])
        }
}

/// The text under a field of the object that a text is in JSON.
pub uninterp spec fn json_text(line: Seq<char>, field: Seq<char>) -> Option<Seq<char>>;

/// The switch under a field of the object that a text is in JSON.
pub uninterp spec fn json_flag(line: Seq<char>, field: Seq<char>) -> Option<bool>;

/// The whole number under a field of the object that a text is in JSON.
pub uninterp spec fn json_count(line: Seq<char>, field: Seq<char>) -> Option<u64>;

/// Calls `serde_json::from_str` for a `Value` and gives the error as text, if
/// there is one. The result depends on the text alone.
#[verifier::external_body]
fn find_fault(line: &str) -> (r: Option<String>)
    ensures
        text_of(r) == json_fault(line@),
{
    serde_json::from_str::<serde_json::Value>(line).err().map(|e| e.to_string())
}

/// Calls `serde_json::Value::is_object` on the value that `serde_json::from_str`
/// reads; a text that is no value is none. The result depends on the text alone.
#[verifier::external_body]
fn find_object(line: &str) -> (r: bool)
    ensures
        r == json_is_object(line@),
{
    match serde_json::from_str::<serde_json::Value>(line) {
        Ok(value) => value.is_object(),
        Err(_) => false,
    }
}

/// Calls `serde_json::Value::is_null` on the value that `serde_json::from_str`
/// reads: it is so for the word alone, with spaces, tabs and line ends around it, and
/// for no other text.
#[verifier::external_body]
fn find_null(line: &str) -> (r: bool)
    ensures
        r == json_is_null(line@),
{
    match serde_json::from_str::<serde_json::Value>(line) {
        Ok(value) => value.is_null(),
        Err(_) => false,
    }
}

/// Calls `serde_json::Value::get` and `serde_json::Value::as_str` on the value that
/// `serde_json::from_str` reads: the text under a field of an object, and nothing
/// for anything else. The result depends on the two texts alone.
#[verifier::external_body]
fn find_text(line: &str, field: &str) -> (r: Option<String>)
    ensures
        text_of(r) == json_text(line@, field@),
{
    match serde_json::from_str::<serde_json::Value>(line) {
        Ok(value) => value.get(field).and_then(|v| v.as_str()).map(|s| s.to_owned()),
        Err(_) => None,
    }
}

/// Calls `serde_json::Value::get` and `serde_json::Value::as_bool` on the value
/// that `serde_json::from_str` reads: the switch under a field of an object, and
/// nothing for anything else. The result depends on the two texts alone.
#[verifier::external_body]
fn find_flag(line: &str, field: &str) -> (r: Option<bool>)
    ensures
        r == json_flag(line@, field@),
{
    match serde_json::from_str::<serde_json::Value>(line) {
        Ok(value) => value.get(field).and_then(|v| v.as_bool()),
        Err(_) => None,
    }
}

/// Calls `serde_json::Value::get` and `serde_json::Value::as_u64` on the value that
/// `serde_json::from_str` reads: the whole number from zero on under a field of an
/// object, and nothing for anything else. The result depends on the two texts
/// alone.
#[verifier::external_body]
fn find_count(line: &str, field: &str) -> (r: Option<u64>)
    ensures
        r == json_count(line@, field@),
{
    match serde_json::from_str::<serde_json::Value>(line) {
        Ok(value) => value.get(field).and_then(|v| v.as_u64()),
        Err(_) => None,
    }
}

// ---------------------------------------------------------------------------
// Commands
// ---------------------------------------------------------------------------

/// A command of the application.
#[derive(Debug)]
pub struct Command {
    /// What is to be done; nothing where the command does not say.
    pub name: String,
    pub key: Option<String>,
    pub value: Option<String>,
    pub address: Option<String>,
    pub on: Option<bool>,
    pub seconds: Option<u64>,
    /// Whether the change it asks for was stored already.
    pub pre_persisted: Option<bool>,
    /// How many cancelling commands had been accepted when it was.
    pub epoch: u64,
}

/// What a command asks for, whatever holds it.
pub struct Order {
    pub name: Seq<char>,
    pub key: Option<Seq<char>>,
    pub value: Option<Seq<char>>,
    pub address: Option<Seq<char>>,
    pub on: Option<bool>,
    pub seconds: Option<u64>,
    pub pre_persisted: Option<bool>,
    pub epoch: u64,
}

impl View for Command {
    type V = Order;

    open spec fn view(&self) -> Order {
        Order {
            name: self.name@,
            key: text_of(self.key),
            value: text_of(self.value),
            address: text_of(self.address),
            on: self.on,
            seconds: self.seconds,
            pre_persisted: self.pre_persisted,
            epoch: self.epoch,
        }
    }
}

/// A text, or no characters where there is none.
pub open spec fn or_empty(t: Option<Seq<char>>) -> Seq<char> {
    match t {
        Some(t) => t,
        None => ""@,
    }
}

impl Command {
    /// The setting and the value that a command names; empty where it names none.
    pub fn change(&self) -> (r: (String, String))
        ensures
            (r.0)@ == or_empty(self@.key),
            (r.1)@ == or_empty(self@.value),
    {
        let key: String = match &self.key {
            Some(key) => key.as_str().to_owned(),
            None => "".to_owned(),
        };
        let value: String = match &self.value {
            Some(value) => value.as_str().to_owned(),
            None => "".to_owned(),
        };
        (key, value)
    }
}

/// What a line of input holds.
#[derive(Debug)]
pub enum Reading {
    Blank,
    /// The line is no JSON value.
    Unreadable(String),
    /// The line is a JSON value that no field can be added to.
    NoRoom,
    Command(Command),
}

/// What a line of input means.
pub enum Meant {
    Blank,
    Unreadable(Seq<char>),
    NoRoom,
    Command(Order),
}

impl View for Reading {
    type V = Meant;

    open spec fn view(&self) -> Meant {
        match self {
            Reading::Blank => Meant::Blank,
            Reading::Unreadable(t) => Meant::Unreadable(t@),
            Reading::NoRoom => Meant::NoRoom,
            Reading::Command(c) => Meant::Command(c@),
        }
    }
}

/// What a line means, given what was found in it.
pub open spec fn meaning(
    fault: Option<Seq<char>>,
    room: bool,
    name: Option<Seq<char>>,
    rest: Order,
) -> Meant {
    match fault {
        Some(text) => Meant::Unreadable("unreadable command: "@ + text),
        None => if room {
            Meant::Command(
                Order {
                    name: match name {
                        Some(name) => name,
                        None => ""@,
                    },
                    ..rest
                },
            )
        } else {
            Meant::NoRoom
        },
    }
}

/// The fields of a line other than the name.
pub open spec fn fields_of(line: Seq<char>) -> Order {
    Order {
        name: ""@,
        key: json_text(line, "key"@),
        value: json_text(line, "value"@),
        address: json_text(line, "address"@),
        on: json_flag(line, "on"@),
        seconds: json_count(line, "seconds"@),
        pre_persisted: json_flag(line, "prePersisted"@),
        epoch: 0,
    }
}

/// Whether fields can be added to a line: to an object, and to null, which then
/// becomes one.
pub open spec fn has_room(line: Seq<char>) -> bool {
    json_is_object(line) || json_is_null(line)
}

/// What a line of input means. White space around it does not count.
pub open spec fn read_as(line: Seq<char>) -> Meant {
    let body = trim(line);
    if body.len() == 0 {
        Meant::Blank
    } else {
        meaning(
            json_fault(body),
            has_room(body),
            json_text(body, "cmd"@),
            fields_of(body),
        )
    }
}

/// What a line holds, given what was found in it; `rest` holds every field but the
/// name.
pub fn command_from(fault: Option<String>, room: bool, name: Option<String>, rest: Command) -> (r:
    Reading)
    ensures
        r@ == meaning(text_of(fault), room, text_of(name), rest@),
{
    if let Some(text) = fault {
        return Reading::Unreadable(phrase("unreadable command: ", text.as_str()));
    }
    if !room {
        return Reading::NoRoom;
    }
    let name: String = match name {
        Some(name) => name,
        None => "".to_owned(),
    };
    Reading::Command(
        Command {
            name,
            key: rest.key,
            value: rest.value,
            address: rest.address,
            on: rest.on,
            seconds: rest.seconds,
            pre_persisted: rest.pre_persisted,
            epoch: rest.epoch,
        },
    )
}

/// Reads one line of input.
pub fn read_command(line: &str) -> (r: Reading)
    ensures
        r@ == read_as(line@),
{
    let body: String = trimmed(line);
    let line: &str = body.as_str();
    if says_nothing(line) {
        return Reading::Blank;
    }
    let rest = Command {
        name: "".to_owned(),
        key: find_text(line, "key"),
        value: find_text(line, "value"),
        address: find_text(line, "address"),
        on: find_flag(line, "on"),
        seconds: find_count(line, "seconds"),
        pre_persisted: find_flag(line, "prePersisted"),
        epoch: 0,
    };
    let room: bool = find_object(line) || find_null(line);
    command_from(find_fault(line), room, find_text(line, "cmd"), rest)
}

// ---------------------------------------------------------------------------
// The reader
// ---------------------------------------------------------------------------

/// What is done at once when a command is read.
///
/// Playback blocks the worker for as long as it runs, so anything that has to
/// interrupt it is noticed by the reader, which is always listening.
#[derive(Debug, Clone, Copy, PartialEq, Eq, Structural)]
pub struct Signals {
    pub refresh_battery: bool,
    /// Whether tracing is switched, and to what.
    pub trace: Option<bool>,
    pub stop_playing: bool,
    /// Whether a wait before the next attempt is cut short.
    pub interrupt: bool,
    /// Whether what was asked for before is stale from now on.
    pub cancel: bool,
}

/// Whether a name is one of those that end playback.
pub open spec fn ends_playback(name: Seq<char>, on: Option<bool>) -> bool {
    name == "stop"@ || name == "quit"@ || name == "disconnect"@ || (name == "adapter"@ && on
        == Some(false))
}

/// Whether a command means that the user has chosen something else to do.
pub open spec fn moves_on(name: Seq<char>) -> bool {
    name == "stop"@ || name == "quit"@ || name == "disconnect"@ || name == "connect"@ || name
        == "forget"@ || name == "scan"@ || name == "adapter"@
}

/// Whether a command takes back what was asked for before.
pub open spec fn takes_back(name: Seq<char>) -> bool {
    name == "disconnect"@ || name == "stop"@ || name == "quit"@ || name == "forget"@ || name
        == "adapter"@
}

/// What is done at once when a command is read.
pub open spec fn signals_of(name: Seq<char>, on: Option<bool>) -> Signals {
    Signals {
        refresh_battery: name == "battery"@,
        trace: if name == "debug"@ {
            Some(on == Some(true))
        } else {
            None
        },
        stop_playing: ends_playback(name, on),
        interrupt: moves_on(name),
        cancel: takes_back(name),
    }
}

pub fn signals(name: &str, on: Option<bool>) -> (r: Signals)
    ensures
        r == signals_of(name@, on),
{
    let is_on: bool = match on {
        Some(on) => on,
        None => false,
    };
    let is_off: bool = match on {
        Some(on) => !on,
        None => false,
    };
    let adapter: bool = same(name, "adapter");
    let ends: bool = same(name, "stop") || same(name, "quit") || same(name, "disconnect");
    let forget: bool = same(name, "forget");
    Signals {
        refresh_battery: same(name, "battery"),
        trace: if same(name, "debug") {
            Some(is_on)
        } else {
            None
        },
        stop_playing: ends || (adapter && is_off),
        interrupt: ends || same(name, "connect") || forget || same(name, "scan") || adapter,
        cancel: ends || forget || adapter,
    }
}

/// Who deals with a command first.
#[derive(Debug, Clone, Copy, PartialEq, Eq, Structural)]
pub enum Desk {
    /// The reader stores and acknowledges the change: it must not sit behind
    /// playback that goes on for hours.
    ReaderSets,
    /// The reader shows the settings, and that is all.
    ReaderShows,
    Worker,
}

pub open spec fn desk_of(name: Seq<char>) -> Desk {
    if name == "set"@ {
        Desk::ReaderSets
    } else if name == "settings"@ {
        Desk::ReaderShows
    } else {
        Desk::Worker
    }
}

pub fn desk(name: &str) -> (r: Desk)
    ensures
        r == desk_of(name@),
{
    if same(name, "set") {
        Desk::ReaderSets
    } else if same(name, "settings") {
        Desk::ReaderShows
    } else {
        Desk::Worker
    }
}

/// What a change came to: what was applied and stored, or why not.
pub open spec fn set_lines(
    key: Seq<char>,
    value: Seq<char>,
    applied: Result<Seq<Knob>, Seq<char>>,
    unsaved: Option<Seq<char>>,
) -> Seq<Line> {
    match (applied, unsaved) {
        (Ok(needs), None) => seq![Line::Applied { key, value, needs }],
        (Ok(needs), Some(why)) => seq![
            Line::Error { cmd: Some("set"@), text: "save failed: "@ + why },
            Line::Done { cmd: "set"@ },
        ],
        (Err(text), _) => seq![
            Line::Error { cmd: Some("set"@), text },
            Line::Done { cmd: "set"@ },
        ],
    }
}

/// What the application is told of a change, and whether the worker has to take
/// it over. `unsaved` says why the settings could not be stored.
pub fn answer_set(
    key: &str,
    value: &str,
    applied: Result<Vec<Knob>, String>,
    unsaved: Option<String>,
) -> (r: (Vec<Message>, bool))
    ensures
        lines((r.0)@) == set_lines(
            key@,
            value@,
            match applied {
                Ok(needs) => Ok(needs@),
                Err(text) => Err(text@),
            },
            text_of(unsaved),
        ),
        r.1 == (applied is Ok && unsaved is None),
{
    let mut out = nothing();
    let text: String = match applied {
        Ok(needs) => match unsaved {
            None => {
                say(
                    &mut out,
                    Message::Applied { key: key.to_owned(), value: value.to_owned(), needs },
                );
                return (out, true);
            },
            Some(why) => phrase("save failed: ", why.as_str()),
        },
        Err(text) => text,
    };
    say(&mut out, Message::Error { cmd: Some("set".to_owned()), text });
    say(&mut out, Message::Done { cmd: "set".to_owned() });
    (out, false)
}

/// The reader: it counts what has been taken back.
#[derive(Debug)]
pub struct Reader {
    pub epoch: u64,
}

/// One count further; the last is followed by the first.
pub open spec fn next_epoch(epoch: u64) -> u64 {
    if epoch < u64::MAX {
        (epoch + 1) as u64
    } else {
        0
    }
}

/// A command as the worker gets it.
pub open spec fn stamped(order: Order, epoch: u64) -> Order {
    let now = if takes_back(order.name) {
        next_epoch(epoch)
    } else {
        epoch
    };
    Order {
        epoch: now,
        pre_persisted: if order.name == "set"@ {
            Some(true)
        } else {
            order.pre_persisted
        },
        ..order
    }
}

impl Reader {
    /// Accepts a command for the worker. Every command carries the epoch it was
    /// accepted in. A change was stored by the reader before it gets here.
    pub fn accept(&mut self, command: Command) -> (r: Command)
        ensures
            r@ == stamped(command@, old(self).epoch),
            final(self).epoch == r@.epoch,
    {
        let signals = signals(command.name.as_str(), command.on);
        if signals.cancel {
            self.epoch = if self.epoch < u64::MAX {
                self.epoch + 1
            } else {
                0
            };
        }
        let mut command = command;
        if same(command.name.as_str(), "set") {
            command.pre_persisted = Some(true);
        }
        command.epoch = self.epoch;
        command
    }
}

// ---------------------------------------------------------------------------
// The worker
// ---------------------------------------------------------------------------

/// What the worker does for a command.
#[derive(Debug)]
pub enum Errand {
    /// The user has since asked for something else.
    Dropped,
    Status,
    Check,
    Adapter(bool),
    Scan(u64),
    Connect(Option<String>),
    Forget(Option<String>),
    ReportSettings,
    Change { key: Option<String>, value: Option<String>, pre_persisted: bool },
    ResetSettings,
    Play,
    Disconnect,
    Nothing,
    Quit,
    Unknown(String),
}

/// What the worker does, whatever holds it.
pub enum Duty {
    Dropped,
    Status,
    Check,
    Adapter(bool),
    Scan(u64),
    Connect(Option<Seq<char>>),
    Forget(Option<Seq<char>>),
    ReportSettings,
    Change { key: Option<Seq<char>>, value: Option<Seq<char>>, pre_persisted: bool },
    ResetSettings,
    Play,
    Disconnect,
    Nothing,
    Quit,
    Unknown(Seq<char>),
}

impl View for Errand {
    type V = Duty;

    open spec fn view(&self) -> Duty {
        match self {
            Errand::Dropped => Duty::Dropped,
            Errand::Status => Duty::Status,
            Errand::Check => Duty::Check,
            Errand::Adapter(on) => Duty::Adapter(*on),
            Errand::Scan(seconds) => Duty::Scan(*seconds),
            Errand::Connect(address) => Duty::Connect(text_of(*address)),
            Errand::Forget(address) => Duty::Forget(text_of(*address)),
            Errand::ReportSettings => Duty::ReportSettings,
            Errand::Change { key, value, pre_persisted } => Duty::Change {
                key: text_of(*key),
                value: text_of(*value),
                pre_persisted: *pre_persisted,
            },
            Errand::ResetSettings => Duty::ResetSettings,
            Errand::Play => Duty::Play,
            Errand::Disconnect => Duty::Disconnect,
            Errand::Nothing => Duty::Nothing,
            Errand::Quit => Duty::Quit,
            Errand::Unknown(text) => Duty::Unknown(text@),
        }
    }
}

/// What the worker does for a command, when so much has been taken back.
pub open spec fn duty_of(order: Order, epoch: u64) -> Duty {
    let name = order.name;
    if name == "connect"@ && order.epoch < epoch {
        Duty::Dropped
    } else if name == "status"@ {
        Duty::Status
    } else if name == "check"@ {
        Duty::Check
    } else if name == "adapter"@ {
        Duty::Adapter(order.on != Some(false))
    } else if name == "scan"@ {
        Duty::Scan(
            match order.seconds {
                Some(seconds) => seconds,
                None => 8,
            },
        )
    } else if name == "connect"@ {
        Duty::Connect(order.address)
    } else if name == "forget"@ {
        Duty::Forget(order.address)
    } else if name == "settings"@ {
        Duty::ReportSettings
    } else if name == "set"@ {
        Duty::Change {
            key: order.key,
            value: order.value,
            pre_persisted: order.pre_persisted == Some(true),
        }
    } else if name == "reset-settings"@ {
        Duty::ResetSettings
    } else if name == "play"@ {
        Duty::Play
    } else if name == "disconnect"@ {
        Duty::Disconnect
    } else if name == "debug"@ || name == "battery"@ || name == "stop"@ {
        Duty::Nothing
    } else if name == "quit"@ {
        Duty::Quit
    } else {
        Duty::Unknown("unknown command '"@ + name + "'"@)
    }
}

/// Decides what a command is about. `epoch` counts what has been taken back by now.
pub fn errand(command: &Command, epoch: u64) -> (r: Errand)
    ensures
        r@ == duty_of(command@, epoch),
{
    let name: &str = command.name.as_str();
    if same(name, "connect") {
        if command.epoch < epoch {
            Errand::Dropped
        } else {
            proof {
                lemma_connect_is_connect();
            }
            Errand::Connect(copy_text(&command.address))
        }
    } else if same(name, "status") {
        Errand::Status
    } else if same(name, "check") {
        Errand::Check
    } else if same(name, "adapter") {
        Errand::Adapter(
            match command.on {
                Some(on) => on,
                None => true,
            },
        )
    } else if same(name, "scan") {
        Errand::Scan(
            match command.seconds {
                Some(seconds) => seconds,
                None => 8,
            },
        )
    } else if same(name, "forget") {
        Errand::Forget(copy_text(&command.address))
    } else if same(name, "settings") {
        Errand::ReportSettings
    } else if same(name, "set") {
        Errand::Change {
            key: copy_text(&command.key),
            value: copy_text(&command.value),
            pre_persisted: match command.pre_persisted {
                Some(stored) => stored,
                None => false,
            },
        }
    } else if same(name, "reset-settings") {
        Errand::ResetSettings
    } else if same(name, "play") {
        Errand::Play
    } else if same(name, "disconnect") {
        Errand::Disconnect
    } else if same(name, "debug") || same(name, "battery") || same(name, "stop") {
        Errand::Nothing
    } else if same(name, "quit") {
        Errand::Quit
    } else {
        Errand::Unknown(sentence("unknown command '", name, "'"))
    }
}

/// The name of the command that connects is none of those that are told apart
/// before it.
proof fn lemma_connect_is_connect()
    ensures
        "connect"@ != "status"@,
        "connect"@ != "check"@,
        "connect"@ != "adapter"@,
        "connect"@ != "scan"@,
{
    reveal_strlit("connect");
    reveal_strlit("status");
    reveal_strlit("check");
    reveal_strlit("adapter");
    reveal_strlit("scan");
    assert("connect"@.len() == 7);
    assert("status"@.len() == 6);
    assert("check"@.len() == 5);
    assert("scan"@.len() == 4);
    assert("connect"@[0] == 'c');
    assert("adapter"@[0] == 'a');
}

/// What the application is told once a command is finished with.
pub open spec fn outcome_lines(name: Seq<char>, dropped: bool, failure: Option<Seq<char>>) -> Seq<
    Line,
> {
    let done = Line::Done { cmd: name };
    if dropped {
        seq![
            Line::Log(
                "connect request dropped: something else was asked for in the meantime"@,
            ),
            done,
        ]
    } else {
        match failure {
            Some(text) => seq![Line::Error { cmd: Some(name), text }, done],
            None => seq![done],
        }
    }
}

/// What the application is told once a command is finished with. A command that
/// was dropped is acknowledged rather than silently dropped, so the application
/// clears its spinner.
pub fn conclude(name: &str, dropped: bool, failure: Option<String>) -> (r: Vec<Message>)
    ensures
        lines(r@) == outcome_lines(name@, dropped, text_of(failure)),
{
    let mut out = nothing();
    if dropped {
        crate::agent::message::log(
            &mut out,
            "connect request dropped: something else was asked for in the meantime",
        );
    } else if let Some(text) = failure {
        say(&mut out, Message::Error { cmd: Some(name.to_owned()), text });
    }
    say(&mut out, Message::Done { cmd: name.to_owned() });
    out
}

// ---------------------------------------------------------------------------
// Laws
// ---------------------------------------------------------------------------

/// A connection that was asked for before the user took it back is not made: once
/// a cancelling command was accepted, every connect command from before is
/// dropped.
pub proof fn lemma_stale_connect_is_dropped(connect: Order, cancel: Order, epoch: u64)
    requires
        connect.name == "connect"@,
        takes_back(cancel.name),
        epoch < u64::MAX,
    ensures
        ({
            let accepted = stamped(connect, epoch);
            let after = stamped(cancel, accepted.epoch);
            duty_of(accepted, after.epoch) == Duty::Dropped
        }),
{
    lemma_connect_takes_nothing_back();
}

/// A connection that nothing took back is made: whatever other commands were
/// accepted since, the connect command is run.
pub proof fn lemma_fresh_connect_is_run(connect: Order, other: Order, epoch: u64)
    requires
        connect.name == "connect"@,
        !takes_back(other.name),
    ensures
        ({
            let accepted = stamped(connect, epoch);
            let after = stamped(other, accepted.epoch);
            duty_of(accepted, after.epoch) == Duty::Connect(connect.address)
        }),
{
    lemma_connect_takes_nothing_back();
    lemma_connect_is_connect();
}

proof fn lemma_connect_takes_nothing_back()
    ensures
        !takes_back("connect"@),
{
    reveal_strlit("connect");
    reveal_strlit("disconnect");
    reveal_strlit("stop");
    reveal_strlit("quit");
    reveal_strlit("forget");
    reveal_strlit("adapter");
    assert("connect"@.len() == 7);
    assert("disconnect"@.len() == 10);
    assert("stop"@.len() == 4);
    assert("quit"@.len() == 4);
    assert("forget"@.len() == 6);
    assert("connect"@[0] == 'c');
    assert("adapter"@[0] == 'a');
}

/// Whatever ends playback also cuts a wait short, and takes back what was asked for
/// before.
pub proof fn lemma_what_ends_playback_interrupts(name: Seq<char>, on: Option<bool>)
    requires
        ends_playback(name, on),
    ensures
        signals_of(name, on).interrupt,
        signals_of(name, on).cancel,
{
}

/// Every command that the worker runs is answered with its name, last.
pub proof fn lemma_every_command_is_answered(
    name: Seq<char>,
    dropped: bool,
    failure: Option<Seq<char>>,
)
    ensures
        outcome_lines(name, dropped, failure).last() == (Line::Done { cmd: name }),
{
}

proof fn lemma_command_names()
    ensures
        "status"@.len() == 6 && "status"@[0] == 's',
        "forget"@.len() == 6 && "forget"@[0] == 'f',
        "check"@.len() == 5 && "check"@[0] == 'c',
        "debug"@.len() == 5 && "debug"@[0] == 'd',
        "adapter"@.len() == 7 && "adapter"@[0] == 'a',
        "connect"@.len() == 7 && "connect"@[0] == 'c',
        "battery"@.len() == 7 && "battery"@[0] == 'b',
        "scan"@.len() == 4 && "scan"@[1] == 'c',
        "play"@.len() == 4 && "play"@[1] == 'l',
        "stop"@.len() == 4 && "stop"@[1] == 't',
        "quit"@.len() == 4 && "quit"@[1] == 'u',
        "settings"@.len() == 8,
        "set"@.len() == 3,
        "reset-settings"@.len() == 14,
        "disconnect"@.len() == 10,
{
    reveal_strlit("status");
    reveal_strlit("forget");
    reveal_strlit("check");
    reveal_strlit("debug");
    reveal_strlit("adapter");
    reveal_strlit("connect");
    reveal_strlit("battery");
    reveal_strlit("scan");
    reveal_strlit("play");
    reveal_strlit("stop");
    reveal_strlit("quit");
    reveal_strlit("settings");
    reveal_strlit("set");
    reveal_strlit("reset-settings");
    reveal_strlit("disconnect");
}

/// What the user takes back: Disconnect, stopping, quitting, unpairing and the switch of
/// the adapter, each of them, make every connection from before stale; nothing else
/// does.
pub proof fn lemma_only_a_change_of_mind_takes_back(connect: Order, later: Order, epoch: u64)
    requires
        connect.name == "connect"@,
        epoch < u64::MAX,
    ensures
        ({
            let accepted = stamped(connect, epoch);
            let after = stamped(later, accepted.epoch);
            let minded = later.name == "disconnect"@ || later.name == "stop"@ || later.name
                == "quit"@ || later.name == "forget"@ || later.name == "adapter"@;
            &&& minded ==> duty_of(accepted, after.epoch) == Duty::Dropped && after.epoch > epoch
            &&& !minded ==> duty_of(accepted, after.epoch) == Duty::Connect(connect.address)
                && after.epoch == epoch
            &&& signals_of(later.name, later.on).cancel == minded
        }),
{
    lemma_command_names();
}

/// Whatever takes something back, or asks for a connection or a scan, cuts a wait short;
/// and nothing else does.
pub proof fn lemma_what_cuts_a_wait_short(name: Seq<char>, on: Option<bool>)
    ensures
        signals_of(name, on).cancel ==> signals_of(name, on).interrupt,
        signals_of(name, on).stop_playing ==> signals_of(name, on).cancel,
        signals_of(name, on).interrupt && !signals_of(name, on).cancel <==> name == "connect"@
            || name == "scan"@,
        signals_of(name, on).cancel && !signals_of(name, on).stop_playing <==> name == "forget"@
            || (name == "adapter"@ && on != Some(false)),
        signals_of(name, on).refresh_battery <==> name == "battery"@,
        signals_of(name, on).trace is Some <==> name == "debug"@,
        name == "debug"@ ==> signals_of(name, on).trace == Some(on == Some(true)),
        name == "battery"@ || name == "debug"@ ==> !signals_of(name, on).interrupt,
{
    lemma_command_names();
}

/// Every command does what it is called, with what it came with, and no two do the same
/// thing; a name that nobody knows does nothing.
pub proof fn lemma_commands_do_what_they_are_called(order: Order, epoch: u64)
    requires
        order.epoch == epoch,
    ensures
        ({
            let duty = duty_of(order, epoch);
            &&& order.name == "connect"@ <==> duty is Connect
            &&& order.name == "status"@ <==> duty is Status
            &&& order.name == "check"@ <==> duty is Check
            &&& order.name == "adapter"@ <==> duty is Adapter
            &&& order.name == "scan"@ <==> duty is Scan
            &&& order.name == "forget"@ <==> duty is Forget
            &&& order.name == "settings"@ <==> duty is ReportSettings
            &&& order.name == "set"@ <==> duty is Change
            &&& order.name == "reset-settings"@ <==> duty is ResetSettings
            &&& order.name == "play"@ <==> duty is Play
            &&& order.name == "disconnect"@ <==> duty is Disconnect
            &&& order.name == "quit"@ <==> duty is Quit
            &&& order.name == "debug"@ || order.name == "battery"@ || order.name == "stop"@ <==> duty
                is Nothing
            &&& !(duty is Dropped)
            &&& duty is Unknown ==> duty == Duty::Unknown("unknown command '"@ + order.name + "'"@)
            &&& duty matches Duty::Connect(address) ==> address == order.address
            &&& duty matches Duty::Forget(address) ==> address == order.address
            &&& duty matches Duty::Adapter(on) ==> on == (order.on is None || order.on->0)
            &&& duty matches Duty::Scan(seconds) ==> seconds == (if order.seconds is Some {
                order.seconds->0
            } else {
                8
            })
            &&& duty matches Duty::Change { key, value, pre_persisted } ==> key == order.key
                && value == order.value && pre_persisted == (order.pre_persisted == Some(true))
        }),
{
    lemma_command_names();
}

/// A change that the reader has stored is not made a second time, and it is the reader
/// that deals with it; every other command reaches the worker as it was read.
pub proof fn lemma_change_is_made_once(order: Order, epoch: u64)
    ensures
        desk_of(order.name) == Desk::ReaderSets <==> order.name == "set"@,
        desk_of(order.name) == Desk::ReaderShows <==> order.name == "settings"@,
        order.name == "set"@ ==> duty_of(stamped(order, epoch), epoch) == (Duty::Change {
            key: order.key,
            value: order.value,
            pre_persisted: true,
        }),
        order.name != "set"@ ==> stamped(order, epoch) == (Order {
            epoch: stamped(order, epoch).epoch,
            ..order
        }),
{
    lemma_command_names();
}

/// A line is read field by field, each from the field of its own name, whatever space
/// stands around it; what is no JSON is said to be unreadable, and what has no place for
/// fields is no command.
pub proof fn lemma_fields_come_from_their_names(line: Seq<char>)
    ensures
        ({
            let body = trim(line);
            &&& body.len() == 0 ==> read_as(line) == Meant::Blank
            &&& body.len() > 0 && json_fault(body) is Some ==> read_as(line) == Meant::Unreadable(
                "unreadable command: "@ + json_fault(body)->0,
            )
            &&& body.len() > 0 && json_fault(body) is None && !json_is_object(body)
                && !json_is_null(body) ==> read_as(line) == Meant::NoRoom
            &&& body.len() > 0 && json_fault(body) is None && (json_is_object(body)
                || json_is_null(body)) ==> (read_as(line) matches Meant::Command(order) && {
                &&& order.name == or_empty(json_text(body, "cmd"@))
                &&& order.key == json_text(body, "key"@)
                &&& order.value == json_text(body, "value"@)
                &&& order.address == json_text(body, "address"@)
                &&& order.on == json_flag(body, "on"@)
                &&& order.seconds == json_count(body, "seconds"@)
                &&& order.pre_persisted == json_flag(body, "prePersisted"@)
            })
        }),
{
}

/// A change is answered with what it costs, or with why it was not made and that it is
/// over; what could not be stored counts as not made.
pub proof fn lemma_change_is_answered(
    key: Seq<char>,
    value: Seq<char>,
    applied: Result<Seq<Knob>, Seq<char>>,
    unsaved: Option<Seq<char>>,
)
    ensures
        ({
            let said = set_lines(key, value, applied, unsaved);
            let made = applied is Ok && unsaved is None;
            &&& made ==> said == seq![Line::Applied { key, value, needs: applied->Ok_0 }]
            &&& !made ==> said.len() == 2 && said[1] == (Line::Done { cmd: "set"@ }) && (said[0]
                matches Line::Error { cmd, text } && cmd == Some("set"@) && text == (
            if applied is Err {
                applied->Err_0
            } else {
                "save failed: "@ + unsaved->0
            }))
        }),
{
}

} // verus!
