//! What the worker remembers between commands, and the commands that are done in
//! one go.

use vstd::prelude::*;

use crate::agent::bonds::{
    bond_at, bond_of, lemma_bond_at, told_of, without_bond, BondStore, Tie,
};
use crate::agent::change::{apply_setting_change, changed};
use crate::agent::message::{lines, log, nothing, say, Issue, Line, Message};
use crate::agent::tuning::{can_be_held, refresh_connection_config, refreshed, session_config, Values};
use crate::bytes::copied;
use crate::device::{heard, text_of, DiscoveredDevice, Heard};
use crate::hci::{address_bytes, address_text, is_address, BdAddr};
use crate::link::procedure::Published;
use crate::link::{AudioCapabilities, Link, LinkState};
use crate::session::{
    adapter_news, answers_of, scanned, Adapter, News, Progress, Session, SessionState, Wishes,
};
use crate::settings::{by_key, default_values, touched, value_in, Knob, Settings};
use crate::text::{lower, phrase, same_ignoring_case, says_nothing, sentence, trim, trimmed};
use crate::time::Duration;

verus! {

/// Everything the worker remembers between commands.
#[derive(Debug)]
pub struct Agent {
    pub session: Option<Session>,
    pub bonds: BondStore,
    pub settings: Settings,
    pub found: Vec<DiscoveredDevice>,
    /// Kept after connecting: the GATT link is what configures the stream, and
    /// dropping it would tear down everything the audio needs.
    pub link: Option<Link>,
    pub connected: Option<(String, u16)>,
    /// The ASEs this connection configured, so they can be released again.
    pub configured_ases: Vec<u8>,
    /// Read once per connection. Rediscovering the same services before every
    /// stream costs a second of round trips for no new information.
    pub capabilities: Option<AudioCapabilities>,
    pub control_point: Option<u16>,
    /// Set only when the controller reports that the peer link ended itself. A
    /// user stop deliberately leaves this empty and must never trigger a retry.
    pub lost_reason: Option<u8>,
    /// Set when playback ended because the headphones were handed back to whatever
    /// else wants them: the sample rate and the frame duration to listen with.
    pub yielded: Option<(u32, u32)>,
    /// Whether the last attempt got as far as an open ACL connection.
    pub reached_link: bool,
}

/// What the worker knows.
pub struct Standing {
    pub session: Option<SessionState>,
    pub bonds: Seq<Tie>,
    pub settings: Values,
    pub found: Seq<Heard>,
    pub link: Option<LinkState>,
    pub connected: Option<(Seq<char>, u16)>,
    pub configured_ases: Seq<u8>,
    pub capabilities: Option<Published>,
    pub control_point: Option<u16>,
    pub lost_reason: Option<u8>,
    pub yielded: Option<(u32, u32)>,
    pub reached_link: bool,
}

impl View for Agent {
    type V = Standing;

    open spec fn view(&self) -> Standing {
        Standing {
            session: match self.session {
                Some(s) => Some(s@),
                None => None,
            },
            bonds: self.bonds@,
            settings: self.settings@,
            found: heard(self.found@),
            link: match self.link {
                Some(l) => Some(l@),
                None => None,
            },
            connected: match self.connected {
                Some((address, handle)) => Some((address@, handle)),
                None => None,
            },
            configured_ases: self.configured_ases@,
            capabilities: match self.capabilities {
                Some(c) => Some(c@),
                None => None,
            },
            control_point: self.control_point,
            lost_reason: self.lost_reason,
            yielded: self.yielded,
            reached_link: self.reached_link,
        }
    }
}

impl Agent {
    /// Whether the settings are in order, and no address has two bonds.
    pub open spec fn wf(self) -> bool {
        self.settings.wf() && self.bonds.wf()
    }

    /// A worker that has done nothing yet, and what the application is told of it.
    pub fn new(bonds: BondStore, settings: Settings) -> (r: (Self, Message))
        requires
            bonds.wf(),
            settings.wf(),
        ensures
            (r.0).wf(),
            (r.0)@ == (Standing {
                session: None,
                bonds: bonds@,
                settings: settings@,
                found: Seq::empty(),
                link: None,
                connected: None,
                configured_ases: Seq::empty(),
                capabilities: None,
                control_point: None,
                lost_reason: None,
                yielded: None,
                reached_link: false,
            }),
            (r.1)@ == (Line::Ready { paired: bonds@.len() as int }),
    {
        let paired: usize = bonds.len();
        let agent = Agent {
            session: None,
            bonds,
            settings,
            found: Vec::new(),
            link: None,
            connected: None,
            configured_ases: Vec::new(),
            capabilities: None,
            control_point: None,
            lost_reason: None,
            yielded: None,
            reached_link: false,
        };
        proof {
            assert(agent@.found =~= Seq::empty());
            assert(agent@.configured_ases =~= Seq::empty());
        }
        (agent, Message::Ready { paired })
    }

    /// Whether the radio is on, and whom we know.
    pub fn status(&self) -> (r: Message)
        ensures
            r@ == (Line::Status {
                adapter_on: self@.session is Some,
                paired: told_of(self@.bonds),
            }),
    {
        Message::Status { adapter_on: self.session.is_some(), paired: self.bonds.all() }
    }
}

// ---------------------------------------------------------------------------
// Letting go
// ---------------------------------------------------------------------------

/// What has to be handed back, in this order: the streams, over the link, and then
/// the connection.
#[derive(Debug)]
pub struct Teardown {
    pub link: Option<Link>,
    /// Where to write, and what to release.
    pub streams: Option<(u16, Vec<u8>)>,
    pub handle: Option<u16>,
}

/// What has to be handed back, whatever holds it.
pub struct Remains {
    pub link: Option<LinkState>,
    pub streams: Option<(u16, Seq<u8>)>,
    pub handle: Option<u16>,
}

impl View for Teardown {
    type V = Remains;

    open spec fn view(&self) -> Remains {
        Remains {
            link: match self.link {
                Some(l) => Some(l@),
                None => None,
            },
            streams: match self.streams {
                Some((control_point, ases)) => Some((control_point, ases@)),
                None => None,
            },
            handle: self.handle,
        }
    }
}

/// Whether streams can be handed back: there has to be someone to write to.
pub open spec fn can_release(s: Standing) -> bool {
    s.session is Some && s.link is Some && s.control_point is Some
}

/// What has to be handed back.
pub open spec fn remains_of(s: Standing) -> Remains {
    Remains {
        link: s.link,
        streams: if can_release(s) && s.configured_ases.len() > 0 {
            Some((s.control_point->0, s.configured_ases))
        } else {
            None
        },
        handle: match (s.session, s.connected) {
            (Some(_), Some((_, handle))) => Some(handle),
            _ => None,
        },
    }
}

/// The worker after it has let go of the connection. Streams that nobody could be
/// told of stay on record.
pub open spec fn let_go(s: Standing) -> Standing {
    Standing {
        link: None,
        connected: None,
        configured_ases: if can_release(s) {
            Seq::empty()
        } else {
            s.configured_ases
        },
        capabilities: None,
        control_point: None,
        ..s
    }
}

impl Agent {
    fn tear_down(&mut self) -> (r: Teardown)
        ensures
            r@ == remains_of(old(self)@),
            final(self)@ == let_go(old(self)@),
            final(self).settings == old(self).settings,
    {
        let ghost was = self@;
        let handle: Option<u16> = match &self.connected {
            Some((_, handle)) => if self.session.is_some() {
                Some(*handle)
            } else {
                None
            },
            None => None,
        };
        self.connected = None;
        let mut streams: Option<(u16, Vec<u8>)> = None;
        if self.session.is_some() && self.link.is_some() {
            if let Some(control_point) = self.control_point {
                if self.configured_ases.len() > 0 {
                    streams = Some((control_point, copied(self.configured_ases.as_slice())));
                }
                self.configured_ases = Vec::new();
                assert(self.configured_ases@ =~= Seq::empty());
            }
        }
        let link: Option<Link> = self.link.take();
        self.capabilities = None;
        self.control_point = None;
        Teardown { link, streams, handle }
    }

    /// Ends the connection. Playback has to be told to stop, too.
    ///
    /// Our side is dropped first, and then the controller is told. Dropping the link
    /// alone leaves the connection standing as far as the controller is concerned,
    /// and every later attempt to reach the same headphones is refused because one
    /// already exists. Streams are handed back before the link goes: an ASE left in
    /// Enabling makes the next connection's configuration an illegal transition.
    pub fn disconnect(&mut self) -> (r: (Teardown, Message))
        ensures
            (r.0)@ == remains_of(old(self)@),
            (r.1)@ == Line::Disconnected,
            final(self)@ == let_go(old(self)@),
            final(self).settings == old(self).settings,
    {
        (self.tear_down(), Message::Disconnected)
    }

    /// Puts our side back to nothing after a failed attempt.
    ///
    /// What matters is that the next attempt starts from the same state a fresh
    /// launch would.
    pub fn reset_after_failure(&mut self) -> (r: Teardown)
        ensures
            r@ == remains_of(old(self)@),
            final(self)@ == (Standing {
                configured_ases: Seq::empty(),
                ..let_go(old(self)@)
            }),
            final(self).settings == old(self).settings,
    {
        let teardown = self.tear_down();
        self.configured_ases = Vec::new();
        assert(self.configured_ases@ =~= Seq::empty());
        teardown
    }
}

// ---------------------------------------------------------------------------
// The adapter
// ---------------------------------------------------------------------------

/// What turning the radio on comes to.
#[derive(Debug)]
pub enum Switch {
    /// It is on already.
    On(Message),
    /// Something has to be put right first: the environment is reported again, then
    /// this.
    Refused { say: Message, text: String },
    /// The adapter has to be opened for a fresh session.
    Open(Session),
}

/// The first issue that nothing works with.
pub open spec fn first_blocking(issues: Seq<Issue>) -> Option<Issue>
    decreases issues.len(),
{
    if issues.len() == 0 {
        None
    } else if issues[0].blocking {
        Some(issues[0])
    } else {
        first_blocking(issues.skip(1))
    }
}

/// A session that was not opened yet.
pub open spec fn unopened(config: Wishes) -> SessionState {
    SessionState {
        config,
        is_open: false,
        local_version: None,
        local_address: None,
        approved: crate::safety::Approved::nothing(),
        volume: None,
    }
}

/// The configuration of a fresh session.
pub open spec fn fresh_wishes(values: Values, style_known: bool) -> Wishes {
    refreshed(
        Wishes {
            prefer_single_cis: false,
            command_style: if style_known {
                value_in(values, "command_style"@)
            } else {
                None
            },
            ..Wishes::usual()
        },
        values,
    )
}

impl Agent {
    /// Turns the radio off, which for this stack means to own the adapter no more:
    /// it then belongs to nobody, which is the state the system can take it back
    /// from.
    ///
    /// Everything that holds the adapter has to go, in order: the audio loop, then
    /// the link, then the session.
    pub fn adapter_off(&mut self) -> (r: (Teardown, Option<Session>, Vec<Message>))
        ensures
            (r.0)@ == remains_of(old(self)@),
            match r.1 {
                Some(session) => old(self)@.session == Some(session@),
                None => old(self)@.session is None,
            },
            lines((r.2)@) == seq![
                Line::Disconnected,
                Line::Adapter { on: false, version: None, address: None },
            ],
            final(self)@ == (Standing {
                session: None,
                found: Seq::empty(),
                ..let_go(old(self)@)
            }),
            final(self).settings == old(self).settings,
    {
        let (teardown, ended): (Teardown, Message) = self.disconnect();
        let mut out = nothing();
        say(&mut out, ended);
        let session: Option<Session> = self.session.take();
        self.found = Vec::new();
        assert(self@.found =~= Seq::empty());
        say(&mut out, Message::Adapter { on: false, version: None, address: None });
        (teardown, session, out)
    }

    /// Turns the radio on. Opening an adapter that still belongs to someone else
    /// fails in a way that reads as a missing or broken adapter; what is actually
    /// true is said instead, and nothing is half started.
    pub fn adapter_on(&mut self, stored: Settings, issues: &[Issue], style_known: bool) -> (r:
        Switch)
        requires
            old(self).wf(),
            stored.wf(),
            old(self)@.session is None && first_blocking(issues@) is None ==> can_be_held(stored@),
        ensures
            final(self).wf(),
            match r {
                Switch::On(message) => old(self)@.session is Some && message@ == (Line::Status {
                    adapter_on: true,
                    paired: told_of(old(self)@.bonds),
                }) && final(self)@ == old(self)@,
                Switch::Refused { say, text } => {
                    &&& old(self)@.session is None
                    &&& first_blocking(issues@) is Some
                    &&& say@ == (Line::Adapter { on: false, version: None, address: None })
                    &&& text@ == first_blocking(issues@)->0.summary@ + " "@ + first_blocking(
                        issues@,
                    )->0.remedy@
                    &&& final(self)@ == (Standing { settings: stored@, ..old(self)@ })
                },
                Switch::Open(session) => {
                    &&& old(self)@.session is None
                    &&& first_blocking(issues@) is None
                    &&& session@ == unopened(fresh_wishes(stored@, style_known))
                    &&& final(self)@ == (Standing { settings: stored@, ..old(self)@ })
                },
            },
    {
        if self.session.is_some() {
            return Switch::On(self.status());
        }
        self.settings = stored;
        let mut i: usize = 0;
        assert(issues@.skip(0) =~= issues@);
        while i < issues.len()
            invariant
                i <= issues@.len(),
                first_blocking(issues@) == first_blocking(issues@.skip(i as int)),
                self.wf(),
                first_blocking(issues@) is None ==> can_be_held(stored@),
                old(self)@.session is None,
                self@ == (Standing { settings: stored@, ..old(self)@ }),
            decreases issues@.len() - i,
        {
            assert(issues@.skip(i as int)[0] == issues@[i as int]);
            assert(issues@.skip(i as int).skip(1) =~= issues@.skip(i + 1));
            if issues[i].blocking {
                let text = sentence(issues[i].summary.as_str(), " ", issues[i].remedy.as_str());
                return Switch::Refused {
                    say: Message::Adapter { on: false, version: None, address: None },
                    text,
                };
            }
            i += 1;
        }
        Switch::Open(Session::new(session_config(&self.settings, style_known)))
    }

    /// Takes over a session once its adapter was opened, or says why it was not.
    pub fn adapter_opened(&mut self, session: Session, opened: Result<Adapter, String>) -> (r:
        Result<Message, String>)
        requires
            old(self).wf(),
        ensures
            final(self).wf(),
            match opened {
                Ok(adapter) => {
                    let address = match adapter.address {
                        Some(a) => Some(a.0@),
                        None => None,
                    };
                    &&& r is Ok
                    &&& match adapter_news(text_of(adapter.version), address) {
                        News::AdapterReady { version, address } => r->Ok_0@ == (Line::Adapter {
                            on: true,
                            version: Some(version),
                            address: Some(address),
                        }),
                        _ => false,
                    }
                    &&& final(self)@ == (Standing {
                        session: Some(
                            SessionState {
                                is_open: true,
                                local_version: text_of(adapter.version),
                                local_address: address,
                                ..session@
                            },
                        ),
                        ..old(self)@
                    })
                },
                Err(t) => r is Err && r->Err_0@ == "adapter could not be enabled: "@ + t@
                    && final(self)@ == old(self)@,
            },
    {
        let mut session = session;
        match session.open_adapter(opened) {
            Ok(Progress::AdapterReady { version, address }) => {
                self.session = Some(session);
                Ok(Message::Adapter { on: true, version: Some(version), address: Some(address) })
            },
            Ok(_) => {
                self.session = Some(session);
                Ok(Message::Adapter { on: true, version: None, address: None })
            },
            Err(e) => Err(phrase("adapter could not be enabled: ", e.text().as_str())),
        }
    }
}

// ---------------------------------------------------------------------------
// Scanning
// ---------------------------------------------------------------------------

/// How long a scan may last.
pub open spec fn scan_seconds(seconds: u64) -> u64 {
    if seconds < 1 {
        1
    } else if seconds > 60 {
        60
    } else {
        seconds
    }
}

/// What the application is told of a device that was found.
pub open spec fn device_line(d: Heard, bonds: Seq<Tie>) -> Line {
    Line::Device {
        address: address_text(d.address),
        name: match d.name {
            Some(name) => name,
            None => "(bez jmena)"@,
        },
        rssi: d.rssi,
        le_audio: d.announces_le_audio(),
        paired: bond_of(bonds, address_text(d.address)) is Some,
    }
}

impl Agent {
    /// Gets a scan ready: how long to listen.
    pub fn begin_scan(&mut self, seconds: u64) -> (r: Result<Duration, String>)
        requires
            old(self).wf(),
        ensures
            final(self).wf(),
            match old(self)@.session {
                None => r is Err && r->Err_0@ == "adapter is off"@ && final(self)@ == old(self)@,
                Some(session) => {
                    let duration = Duration {
                        nanos: (scan_seconds(seconds) * 1_000_000_000) as u128,
                    };
                    &&& r == Ok::<Duration, String>(duration)
                    &&& final(self)@ == (Standing {
                        session: Some(
                            SessionState {
                                config: Wishes { scan_duration: duration, ..session.config },
                                ..session
                            },
                        ),
                        ..old(self)@
                    })
                },
            },
    {
        let held: u64 = if seconds < 1 {
            1
        } else if seconds > 60 {
            60
        } else {
            seconds
        };
        let duration = Duration::from_secs(held);
        match self.session.take() {
            None => Err("adapter is off".to_owned()),
            Some(session) => {
                let mut session = session;
                let config = session.config_mut();
                config.scan_duration = duration;
                self.session = Some(session);
                Ok(duration)
            },
        }
    }

    /// Takes over everything that answered a scan, each answer as it came, with a message
    /// for each device; or the controller's error.
    pub fn end_scan(&mut self, answered: Result<Vec<DiscoveredDevice>, String>) -> (r: Result<
        Vec<Message>,
        String,
    >)
        requires
            old(self).wf(),
        ensures
            final(self).wf(),
            match old(self)@.session {
                None => r is Err && r->Err_0@ == "adapter is off"@ && final(self)@ == old(self)@,
                Some(session) => match scanned(session.is_open, answers_of(answered)) {
                    Ok(found) => {
                        &&& r is Ok
                        &&& lines(r->Ok_0@) == found.map_values(
                            |d: Heard| device_line(d, old(self)@.bonds),
                        )
                        &&& final(self)@ == (Standing { found, ..old(self)@ })
                    },
                    Err(e) => {
                        &&& r is Err
                        &&& r->Err_0@ == "scan failed: "@ + e.message()
                        &&& final(self)@ == old(self)@
                    },
                },
            },
    {
        let session: &Session = match &self.session {
            None => {
                return Err("adapter is off".to_owned());
            },
            Some(session) => session,
        };
        let (devices, _): (Vec<DiscoveredDevice>, Vec<Progress>) = match session.scan(answered) {
            Err(e) => {
                return Err(phrase("scan failed: ", e.text().as_str()));
            },
            Ok(pair) => pair,
        };
        let ghost bonds = self@.bonds;
        let ghost wanted = heard(devices@).map_values(|d: Heard| device_line(d, bonds));
        let mut out = nothing();
        let mut i: usize = 0;
        assert(wanted.take(0) =~= Seq::empty());
        while i < devices.len()
            invariant
                i <= devices@.len(),
                bonds == self.bonds@,
                wanted == heard(devices@).map_values(|d: Heard| device_line(d, bonds)),
                lines(out@) == wanted.take(i as int),
            decreases devices@.len() - i,
        {
            let device: &DiscoveredDevice = &devices[i];
            let name: String = match &device.name {
                Some(name) => name.as_str().to_owned(),
                None => "(bez jmena)".to_owned(),
            };
            let address: String = device.address.to_text();
            let paired: bool = self.bonds.contains(address.as_str());
            let message = Message::Device {
                address,
                name,
                rssi: device.rssi,
                le_audio: device.is_le_audio(),
                paired,
            };
            assert(message@ == wanted[i as int]);
            say(&mut out, message);
            assert(wanted.take(i + 1) =~= wanted.take(i as int).push(wanted[i as int]));
            i += 1;
        }
        assert(wanted.take(wanted.len() as int) =~= wanted);
        self.found = devices;
        Ok(out)
    }
}

// ---------------------------------------------------------------------------
// Whom to connect to
// ---------------------------------------------------------------------------

/// Whether a name says more of a device than its address.
pub open spec fn is_useful(name: Seq<char>, address: Seq<char>) -> bool {
    let said = trim(name);
    said.len() > 0 && lower(said) != lower(address) && lower(said) != lower("(unnamed)"@) && lower(
        said,
    ) != lower("(bez jmena)"@)
}

pub fn useful_device_name(name: &str, address: &str) -> (r: bool)
    ensures
        r == is_useful(name@, address@),
{
    let said: String = trimmed(name);
    !says_nothing(said.as_str()) && !same_ignoring_case(said.as_str(), address)
        && !same_ignoring_case(said.as_str(), "(unnamed)") && !same_ignoring_case(
        said.as_str(),
        "(bez jmena)",
    )
}

/// The first device of an address, in either case.
pub open spec fn found_at(found: Seq<Heard>, address: Seq<char>) -> Option<Heard>
    decreases found.len(),
{
    if found.len() == 0 {
        None
    } else if lower(address_text(found[0].address)) == lower(address) {
        Some(found[0])
    } else {
        found_at(found.skip(1), address)
    }
}

/// Whom a command to connect means: what the last scan found, or a device that we
/// know.
pub open spec fn target_of(s: Standing, address: Seq<char>) -> Result<Heard, Seq<char>> {
    match found_at(s.found, address) {
        Some(device) => Ok(device),
        None => match bond_of(s.bonds, address) {
            None => Err("device is not in the scan results; start a scan first"@),
            Some(bond) => if is_address(address) {
                Ok(
                    Heard {
                        address: address_bytes(address),
                        address_type: bond.address_type,
                        rssi: 0,
                        name: Some(bond.name),
                        appearance: None,
                        service_uuids: Seq::empty(),
                    },
                )
            } else {
                Err("address could not be read"@)
            },
        },
    }
}

impl Agent {
    /// The device to aim at, from this session's scan or from what we already know.
    ///
    /// A reconnect must not depend on a scan having happened. The bond stores the
    /// address, and a bonded peer can be connected to directly.
    pub fn target_device(&self, address: &str) -> (r: Result<DiscoveredDevice, String>)
        ensures
            match target_of(self@, address@) {
                Ok(device) => r is Ok && r->Ok_0@ == device,
                Err(text) => r is Err && r->Err_0@ == text,
            },
    {
        let ghost all = heard(self.found@);
        let mut i: usize = 0;
        assert(all.skip(0) =~= all);
        while i < self.found.len()
            invariant
                i <= self.found@.len(),
                all == heard(self.found@),
                found_at(all, address@) == found_at(all.skip(i as int), address@),
            decreases self.found@.len() - i,
        {
            let device: &DiscoveredDevice = &self.found[i];
            assert(all.skip(i as int)[0] == device@);
            assert(all.skip(i as int).skip(1) =~= all.skip(i + 1));
            if same_ignoring_case(device.address.to_text().as_str(), address) {
                return Ok(device.clone());
            }
            i += 1;
        }
        match self.bonds.get(address) {
            None => Err("device is not in the scan results; start a scan first".to_owned()),
            Some(bond) => match BdAddr::parse(address) {
                None => Err("address could not be read".to_owned()),
                Some(parsed) => {
                    let device = DiscoveredDevice {
                        address: parsed,
                        address_type: bond.address_type,
                        rssi: 0,
                        name: Some(bond.name.as_str().to_owned()),
                        appearance: None,
                        service_uuids: Vec::new(),
                    };
                    assert(device@.service_uuids =~= Seq::empty());
                    Ok(device)
                },
            },
        }
    }

    /// Takes over the stored settings and applies those whose documented scope is
    /// the next connection.
    pub fn refresh(&mut self, stored: Settings) -> (r: Result<(), String>)
        requires
            old(self).wf(),
            stored.wf(),
            old(self)@.session is Some ==> can_be_held(stored@),
        ensures
            final(self).wf(),
            match old(self)@.session {
                None => r is Err && r->Err_0@ == "adapter is off"@ && final(self)@ == (Standing {
                    settings: stored@,
                    ..old(self)@
                }),
                Some(session) => r is Ok && final(self)@ == (Standing {
                    settings: stored@,
                    session: Some(
                        SessionState { config: refreshed(session.config, stored@), ..session },
                    ),
                    ..old(self)@
                }),
            },
    {
        self.settings = stored;
        match self.session.take() {
            None => Err("adapter is off".to_owned()),
            Some(session) => {
                let mut session = session;
                let config = session.config_mut();
                refresh_connection_config(config, &self.settings);
                self.session = Some(session);
                Ok(())
            },
        }
    }
}

// ---------------------------------------------------------------------------
// Forgetting, and settings
// ---------------------------------------------------------------------------

impl Agent {
    /// Forgets a device. True where there was one, and the bonds have to be stored.
    pub fn forget(&mut self, address: Option<&str>) -> (r: Result<bool, String>)
        requires
            old(self).wf(),
        ensures
            final(self).wf(),
            match address {
                None => r is Err && r->Err_0@ == "address is missing"@ && final(self)@ == old(
                    self,
                )@,
                Some(address) => r is Ok && r->Ok_0 == (bond_of(old(self)@.bonds, address@) is Some)
                    && final(self)@ == (Standing {
                    bonds: without_bond(old(self)@.bonds, address@),
                    ..old(self)@
                }),
            },
    {
        match address {
            None => Err("address is missing".to_owned()),
            Some(address) => Ok(self.bonds.remove(address)),
        }
    }

    /// What the application is told once a device was forgotten. `unsaved` says why
    /// the bonds could not be stored.
    pub fn forgotten(&self, address: &str, removed: bool, unsaved: Option<String>) -> (r: Result<
        Vec<Message>,
        String,
    >)
        ensures
            ({
                let status = Line::Status {
                    adapter_on: self@.session is Some,
                    paired: told_of(self@.bonds),
                };
                match (removed, unsaved) {
                    (false, _) => r is Ok && lines(r->Ok_0@) == seq![status],
                    (true, None) => r is Ok && lines(r->Ok_0@) == seq![
                        Line::Log(address@ + " removed"@),
                        status,
                    ],
                    (true, Some(why)) => r is Err && r->Err_0@ == "save failed: "@ + why@,
                }
            }),
    {
        let mut out = nothing();
        if removed {
            if let Some(why) = unsaved {
                return Err(phrase("save failed: ", why.as_str()));
            }
            log(&mut out, phrase(address, " removed").as_str());
        }
        say(&mut out, self.status());
        Ok(out)
    }

    /// Changes a setting, unless the reader has stored the change already: then the
    /// stored settings are taken over. What needs more than a moment comes back
    /// where the settings have to be stored.
    pub fn set(
        &mut self,
        key: Option<&str>,
        value: Option<&str>,
        pre_persisted: bool,
        stored: Settings,
        recognised: bool,
    ) -> (r: Result<Option<Vec<Knob>>, String>)
        requires
            old(self).wf(),
            stored.wf(),
        ensures
            final(self).wf(),
            match (key, value) {
                (None, _) => r is Err && r->Err_0@ == "key is missing"@ && final(self)@ == old(
                    self,
                )@,
                (Some(_), None) => r is Err && r->Err_0@ == "value is missing"@ && final(self)@
                    == old(self)@,
                (Some(key), Some(value)) => if pre_persisted {
                    &&& r is Ok
                    &&& r->Ok_0 is None
                    &&& final(self)@ == (Standing { settings: stored@, ..old(self)@ })
                } else {
                    let (now, failure) = changed(old(self)@.settings, key@, value@, recognised);
                    &&& final(self)@ == (Standing { settings: now, ..old(self)@ })
                    &&& match failure {
                        Some(text) => r is Err && r->Err_0@ == text,
                        None => r is Ok && r->Ok_0 is Some && by_key((r->Ok_0->0)@)
                            && (r->Ok_0->0)@.to_multiset() == touched(
                            now,
                            old(self)@.settings,
                        ).to_multiset(),
                    }
                },
            },
    {
        let key: &str = match key {
            None => {
                return Err("key is missing".to_owned());
            },
            Some(key) => key,
        };
        let value: &str = match value {
            None => {
                return Err("value is missing".to_owned());
            },
            Some(value) => value,
        };
        if pre_persisted {
            self.settings = stored;
            return Ok(None);
        }
        match apply_setting_change(&mut self.settings, key, value, recognised) {
            Ok(needs) => Ok(Some(needs)),
            Err(text) => Err(text),
        }
    }

    /// Puts every setting back; the settings have to be stored, and shown.
    pub fn reset_settings(&mut self)
        requires
            old(self).wf(),
        ensures
            final(self).wf(),
            final(self)@ == (Standing { settings: default_values(), ..old(self)@ }),
    {
        self.settings = Settings::defaults();
    }
}

// ---------------------------------------------------------------------------
// Laws
// ---------------------------------------------------------------------------

/// Letting go is final: nothing is left to hand back a second time.
pub proof fn lemma_nothing_is_handed_back_twice(s: Standing)
    ensures
        remains_of(let_go(s)).link is None,
        remains_of(let_go(s)).streams is None,
        remains_of(let_go(s)).handle is None,
{
}

/// A retry starts from nothing, and what a failed attempt hands back is what a
/// disconnection would have: afterwards there is no link, no connection, no endpoint
/// on record and nothing known of the device.
pub proof fn lemma_failure_leaves_nothing(s: Standing)
    ensures
        ({
            let after = Standing { configured_ases: Seq::empty(), ..let_go(s) };
            &&& after.link is None
            &&& after.connected is None
            &&& after.capabilities is None
            &&& after.control_point is None
            &&& after.configured_ases.len() == 0
            &&& after.bonds == s.bonds
            &&& after.session == s.session
            &&& can_release(s) ==> after == let_go(s)
        }),
{
}

/// What stands in the way is the first thing that blocks; what does not block stands in
/// nobody's way.
pub proof fn lemma_first_blocking(issues: Seq<Issue>) -> (i: int)
    ensures
        first_blocking(issues) is None <==> forall|k: int|
            0 <= k < issues.len() ==> !(#[trigger] issues[k]).blocking,
        first_blocking(issues) is Some ==> {
            &&& 0 <= i < issues.len()
            &&& first_blocking(issues) == Some(issues[i])
            &&& issues[i].blocking
            &&& forall|k: int| 0 <= k < i ==> !(#[trigger] issues[k]).blocking
        },
    decreases issues.len(),
{
    if issues.len() == 0 || issues[0].blocking {
        0
    } else {
        let rest = issues.skip(1);
        let i = lemma_first_blocking(rest);
        assert forall|k: int| 0 < k < issues.len() implies (#[trigger] issues[k]) == rest[k - 1] by {}
        if first_blocking(rest) is None {
            assert forall|k: int| 0 <= k < issues.len() implies !(#[trigger] issues[k]).blocking by {
                if k > 0 {
                    assert(!rest[k - 1].blocking);
                }
            }
        } else {
            assert(issues[i + 1] == rest[i]);
            assert forall|k: int| 0 <= k < i + 1 implies !(#[trigger] issues[k]).blocking by {
                if k > 0 {
                    assert(!rest[k - 1].blocking);
                }
            }
        }
        i + 1
    }
}

/// Whoever lets go hands everything back: the endpoints on record, all of them, where
/// there is someone to tell, and the connection; and forgets nothing that outlives it.
pub proof fn lemma_everything_is_handed_back(s: Standing)
    ensures
        ({
            let r = remains_of(s);
            let after = let_go(s);
            &&& r.link == s.link
            &&& s.session is Some && s.connected is Some ==> r.handle == Some((s.connected->0).1)
            &&& s.session is None || s.connected is None ==> r.handle is None
            &&& s.session is Some && s.link is Some && s.control_point is Some
                && s.configured_ases.len() > 0 ==> r.streams == Some(
                (s.control_point->0, s.configured_ases),
            )
            &&& r.streams is Some ==> s.configured_ases.len() > 0 && s.link is Some
            &&& after.bonds == s.bonds
            &&& after.settings == s.settings
            &&& after.session == s.session
            &&& after.found == s.found
            &&& after.lost_reason == s.lost_reason
            &&& after.connected is None && after.link is None && after.control_point is None
            &&& after.capabilities is None
        }),
{
}

/// A scan lasts as long as it was asked to, between a second and a minute.
pub proof fn lemma_scan_lasts_as_asked(seconds: u64)
    ensures
        1 <= seconds <= 60 ==> scan_seconds(seconds) == seconds,
        seconds < 1 ==> scan_seconds(seconds) == 1,
        seconds > 60 ==> scan_seconds(seconds) == 60,
{
}

/// Whom a command means: the first device of the scan with that address, in either case
/// of its letters; and without one, the device of the bond, where there is one.
pub proof fn lemma_scan_comes_before_the_bond(s: Standing, address: Seq<char>) -> (i: int)
    ensures
        (exists|k: int|
            0 <= k < s.found.len() && lower(address_text((#[trigger] s.found[k]).address)) == lower(
                address,
            )) ==> {
            &&& 0 <= i < s.found.len()
            &&& target_of(s, address) == Ok::<Heard, Seq<char>>(s.found[i])
            &&& lower(address_text(s.found[i].address)) == lower(address)
        },
        (forall|k: int|
            0 <= k < s.found.len() ==> lower(address_text((#[trigger] s.found[k]).address)) != lower(
                address,
            )) ==> {
            &&& target_of(s, address) is Ok <==> bond_of(s.bonds, address) is Some && is_address(
                address,
            )
            &&& target_of(s, address) matches Ok(d) ==> d.address == address_bytes(address)
                && d.address_type == (bond_of(s.bonds, address)->0).address_type && d.name == Some(
                (bond_of(s.bonds, address)->0).name,
            )
        },
{
    lemma_found_at(s.found, address)
}

proof fn lemma_found_at(found: Seq<Heard>, address: Seq<char>) -> (i: int)
    ensures
        (exists|k: int|
            0 <= k < found.len() && lower(address_text((#[trigger] found[k]).address)) == lower(
                address,
            )) ==> {
            &&& 0 <= i < found.len()
            &&& found_at(found, address) == Some(found[i])
            &&& lower(address_text(found[i].address)) == lower(address)
        },
        (forall|k: int|
            0 <= k < found.len() ==> lower(address_text((#[trigger] found[k]).address)) != lower(
                address,
            )) ==> found_at(found, address) is None,
    decreases found.len(),
{
    if found.len() == 0 {
        0
    } else if lower(address_text(found[0].address)) == lower(address) {
        0
    } else {
        let rest = found.skip(1);
        let i = lemma_found_at(rest, address);
        assert forall|k: int| 0 < k < found.len() implies (#[trigger] found[k]) == rest[k - 1] by {}
        if exists|k: int|
            0 <= k < found.len() && lower(address_text((#[trigger] found[k]).address)) == lower(
                address,
            ) {
            let k = choose|k: int|
                0 <= k < found.len() && lower(address_text((#[trigger] found[k]).address)) == lower(
                    address,
                );
            assert(rest[k - 1] == found[k]);
        } else {
            assert forall|k: int| 0 <= k < rest.len() implies lower(
                address_text((#[trigger] rest[k]).address),
            ) != lower(address) by {
                assert(found[k + 1] == rest[k]);
            }
        }
        i + 1
    }
}

/// A device that was found is shown as it is, and as paired exactly where there is a bond
/// for its address.
pub proof fn lemma_found_device_is_shown(d: Heard, bonds: Seq<Tie>)
    ensures
        device_line(d, bonds) matches Line::Device { address, name, rssi, le_audio, paired } && {
            &&& address == address_text(d.address)
            &&& d.name is Some ==> name == d.name->0
            &&& rssi == d.rssi
            &&& le_audio == d.announces_le_audio()
            &&& paired <==> exists|i: int|
                0 <= i < bonds.len() && (#[trigger] bonds[i]).address == address_text(d.address)
        },
{
    let address = address_text(d.address);
    lemma_bond_at(bonds, address);
    if exists|i: int| 0 <= i < bonds.len() && (#[trigger] bonds[i]).address == address {
        let i = choose|i: int| 0 <= i < bonds.len() && (#[trigger] bonds[i]).address == address;
        assert(bond_at(bonds, address) <= i);
    } else if bond_at(bonds, address) < bonds.len() {
        assert(bonds[bond_at(bonds, address)].address == address);
    }
}

/// A fresh session is what the settings say, on two streams, over the command style that
/// was stored where that is a known one.
pub proof fn lemma_fresh_session_follows_the_settings(values: Values, style_known: bool)
    ensures
        !fresh_wishes(values, style_known).prefer_single_cis,
        fresh_wishes(values, true).command_style == value_in(values, "command_style"@),
        fresh_wishes(values, false).command_style is None,
        fresh_wishes(values, style_known).scan_duration.nanos == 10_000_000_000,
        fresh_wishes(values, style_known).audio_device == value_in(values, "playback_source"@),
        !unopened(fresh_wishes(values, style_known)).is_open,
        forall|handle: u16| !(#[trigger] unopened(
            fresh_wishes(values, style_known),
        ).approved.permits(handle)),
{
}

} // verus!
