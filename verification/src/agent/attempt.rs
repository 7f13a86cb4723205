//! One attempt to connect to a device: from the radio to the music.
//!
//! Each step of the attempt that the radio, the link or the disk has to take is
//! asked for, and its outcome is handed to the method that is named after it.

use vstd::prelude::*;

use crate::agent::bonds::{
    bond_of, lemma_forgotten_bond_is_gone, lemma_other_bond_is_not_forgotten,
    lemma_remembered_bond_is_found, one_each, with_bond, without_bond, Bond, Tie,
};
use crate::agent::message::{lines, log, nothing, say, Line, Message};
use crate::agent::report::{report, told};
use crate::agent::state::{
    found_at, is_useful, let_go, remains_of, target_of, useful_device_name, Agent, Standing,
    Teardown,
};
use crate::bap::{PacRecord, Record};
use crate::capabilities::{
    capabilities_text, codec_envelope, describe_capabilities, listed, push_listed, reach_of,
};
use crate::device::{text_of, DiscoveredDevice, Heard};
use crate::hci::{address_text, lemma_address_text, push_upper_pair, upper_pair};
use crate::link::procedure::Published;
use crate::link::{AudioCapabilities, Link, LinkState};
use crate::session::{News, Progress, Session, SessionError, SessionState, Trouble};
use crate::text::{decimal, join, joined, phrase, push_decimal, sentence, texts};

verus! {

/// An attempt in progress.
#[derive(Debug)]
pub struct Attempt {
    pub address: String,
    pub device: DiscoveredDevice,
    /// What the device is called.
    pub name: String,
    pub le_audio: bool,
    pub handle: u16,
    pub link: Option<Link>,
    pub capabilities: Option<AudioCapabilities>,
}

/// What an attempt knows.
pub struct Trial {
    pub address: Seq<char>,
    pub device: Heard,
    pub name: Seq<char>,
    pub le_audio: bool,
    pub handle: u16,
    pub link: Option<LinkState>,
    pub capabilities: Option<Published>,
}

impl View for Attempt {
    type V = Trial;

    open spec fn view(&self) -> Trial {
        Trial {
            address: self.address@,
            device: self.device@,
            name: self.name@,
            le_audio: self.le_audio,
            handle: self.handle,
            link: match self.link {
                Some(l) => Some(l@),
                None => None,
            },
            capabilities: match self.capabilities {
                Some(c) => Some(c@),
                None => None,
            },
        }
    }
}

/// What an attempt needs next.
#[derive(Debug)]
pub enum Need {
    /// Turn encryption on with the key of the bond.
    Resume([u8; 16]),
    /// Exchange keys: from scratch where the one that was stored is dead.
    Pair { again: bool },
    /// Store the bonds, whatever comes of it, and read what the device can do.
    ReadCapabilities,
    /// Judge whether anyone else has the headphones right now.
    Judge,
    FindControlPoint,
    AttachVolume,
    AttachBatteries,
    Play,
    /// Hang up, if there is a connection, and give up. Where a key turned out to
    /// be dead the bonds have to be stored.
    Fail { hang_up: Option<u16>, text: String },
}

/// What an attempt needs, whatever holds it.
pub enum Want {
    Resume(Seq<u8>),
    Pair { again: bool },
    ReadCapabilities,
    Judge,
    FindControlPoint,
    AttachVolume,
    AttachBatteries,
    Play,
    Fail { hang_up: Option<u16>, text: Seq<char> },
}

impl View for Need {
    type V = Want;

    open spec fn view(&self) -> Want {
        match self {
            Need::Resume(key) => Want::Resume(key@),
            Need::Pair { again } => Want::Pair { again: *again },
            Need::ReadCapabilities => Want::ReadCapabilities,
            Need::Judge => Want::Judge,
            Need::FindControlPoint => Want::FindControlPoint,
            Need::AttachVolume => Want::AttachVolume,
            Need::AttachBatteries => Want::AttachBatteries,
            Need::Play => Want::Play,
            Need::Fail { hang_up, text } => Want::Fail { hang_up: *hang_up, text: text@ },
        }
    }
}

// ---------------------------------------------------------------------------
// Reaching the device
// ---------------------------------------------------------------------------

/// What a device is called: what it says, what it said when it was paired, or its
/// address. Advertising names are optional and may disappear between scans.
pub open spec fn friendly_name(device: Heard, bond: Option<Tie>, address: Seq<char>) -> Seq<char> {
    if is_useful(device.shown_name(), address) {
        device.shown_name()
    } else {
        match bond {
            Some(bond) => if is_useful(bond.name, address) {
                bond.name
            } else {
                address
            },
            None => address,
        }
    }
}

/// The attempt at its beginning.
pub open spec fn first_trial(s: Standing, address: Seq<char>, device: Heard) -> Trial {
    let bond = bond_of(s.bonds, address);
    Trial {
        address,
        device,
        name: friendly_name(device, bond, address),
        le_audio: device.announces_le_audio() || (bond is Some && bond->0.le_audio),
        handle: 0,
        link: None,
        capabilities: None,
    }
}

/// The worker when an attempt begins.
pub open spec fn trying(s: Standing) -> Standing {
    Standing { lost_reason: None, reached_link: false, ..s }
}

/// Whether bytes are a key: zeros are none.
pub open spec fn says_a_key(key: Seq<u8>) -> bool {
    exists|i: int| 0 <= i < key.len() && key[i] != 0
}

/// The key of a bond, unless it is no key.
pub open spec fn usable_key(bond: Option<Tie>) -> Option<Seq<u8>> {
    match bond {
        Some(bond) => if says_a_key(bond.long_term_key) {
            Some(bond.long_term_key)
        } else {
            None
        },
        None => None,
    }
}

/// What follows the news of whether the device answered. Past this point a failure
/// is about configuring a peer we can talk to, not about a peer that is not there.
pub open spec fn reached_want(
    s: Standing,
    t: Trial,
    reached: Result<u16, Trouble>,
) -> (Standing, Seq<Line>, Want) {
    match reached {
        Err(e) => (
            s,
            Seq::empty(),
            Want::Fail { hang_up: None, text: "connection failed: "@ + e.message() },
        ),
        Ok(handle) => (
            Standing { reached_link: true, ..s },
            told(News::Connected { handle }),
            match usable_key(bond_of(s.bonds, t.address)) {
                Some(key) => Want::Resume(key),
                None => Want::Pair { again: false },
            },
        ),
    }
}

/// What an attempt to connect came to.
pub open spec fn reach_of_radio(
    session: SessionState,
    attempt: Result<Option<u16>, Seq<char>>,
) -> Result<u16, Trouble> {
    match (session.is_open, attempt) {
        (false, _) => Err(Trouble::NoDeviceFound),
        (true, Err(t)) => Err(Trouble::Controller(t)),
        (true, Ok(None)) => Err(Trouble::ConnectFailed),
        (true, Ok(Some(handle))) => Ok(handle),
    }
}

fn copy_key(key: &[u8; 16]) -> (r: [u8; 16])
    ensures
        r@ == key@,
{
    let r: [u8; 16] = *key;
    r
}

fn is_key(key: &[u8; 16]) -> (r: bool)
    ensures
        r == says_a_key(key@),
{
    let mut i: usize = 0;
    while i < 16
        invariant
            i <= 16,
            forall|j: int| 0 <= j < i ==> key@[j] == 0,
        decreases 16 - i,
    {
        if key[i] != 0 {
            assert(key@[i as int] != 0);
            return true;
        }
        i += 1;
    }
    false
}

impl Agent {
    /// Begins an attempt; the radio is asked to connect next.
    pub fn begin_attempt(
        &mut self,
        address: &str,
        device: &DiscoveredDevice,
        already_paired: bool,
    ) -> (r: Result<(Attempt, Vec<Message>), String>)
        requires
            old(self).wf(),
        ensures
            final(self).wf(),
            final(self)@ == trying(old(self)@),
            match old(self)@.session {
                None => r is Err && r->Err_0@ == "adapter is off"@,
                Some(_) => {
                    let trial = first_trial(old(self)@, address@, device@);
                    let (attempt, said) = r->Ok_0;
                    &&& r is Ok
                    &&& attempt@ == trial
                    &&& lines(said@) == seq![
                        Line::Log(
                            if already_paired {
                                "connecting "@ + trial.name + " (already paired)"@
                            } else {
                                "pairing "@ + trial.name
                            },
                        ),
                    ]
                },
            },
    {
        self.lost_reason = None;
        self.reached_link = false;
        let advertised: String = device.display_name();
        let bond: Option<&Bond> = self.bonds.get(address);
        let name: String = if useful_device_name(advertised.as_str(), address) {
            advertised
        } else {
            match bond {
                Some(bond) => if useful_device_name(bond.name.as_str(), address) {
                    bond.name.as_str().to_owned()
                } else {
                    address.to_owned()
                },
                None => address.to_owned(),
            }
        };
        let known: bool = match bond {
            Some(bond) => bond.le_audio,
            None => false,
        };
        let le_audio: bool = device.is_le_audio() || known;
        if self.session.is_none() {
            return Err("adapter is off".to_owned());
        }
        let mut out = nothing();
        if already_paired {
            log(&mut out, sentence("connecting ", name.as_str(), " (already paired)").as_str());
        } else {
            log(&mut out, phrase("pairing ", name.as_str()).as_str());
        }
        let attempt = Attempt {
            address: address.to_owned(),
            device: device.clone(),
            name,
            le_audio,
            handle: 0,
            link: None,
            capabilities: None,
        };
        Ok((attempt, out))
    }

    /// Takes the outcome of asking the radio to connect: the controller's error, or
    /// the handle if the attempt completed.
    pub fn reached(&mut self, attempt: &mut Attempt, outcome: Result<Option<u16>, String>) -> (r: (
        Vec<Message>,
        Need,
    ))
        requires
            old(self).wf(),
        ensures
            final(self).wf(),
            match old(self)@.session {
                None => (r.1)@ == (Want::Fail { hang_up: None, text: "adapter is off"@ }) && lines(
                    (r.0)@,
                ).len() == 0 && final(self)@ == old(self)@ && final(attempt)@ == old(attempt)@,
                Some(session) => {
                    let came = reach_of_radio(
                        session,
                        match outcome {
                            Ok(handle) => Ok(handle),
                            Err(t) => Err(t@),
                        },
                    );
                    &&& (final(self)@, lines((r.0)@), (r.1)@) == reached_want(
                        old(self)@,
                        old(attempt)@,
                        came,
                    )
                    &&& match came {
                        Ok(handle) => final(attempt)@ == (Trial {
                            handle,
                            link: Some(LinkState::fresh(handle)),
                            ..old(attempt)@
                        }),
                        Err(_) => final(attempt)@ == old(attempt)@,
                    }
                },
            },
    {
        let session: &Session = match &self.session {
            None => {
                return (
                    nothing(),
                    Need::Fail { hang_up: None, text: "adapter is off".to_owned() },
                );
            },
            Some(session) => session,
        };
        let handle: u16 = match session.connect(outcome) {
            Err(e) => {
                return (
                    nothing(),
                    Need::Fail {
                        hang_up: None,
                        text: phrase("connection failed: ", e.text().as_str()),
                    },
                );
            },
            Ok(handle) => handle,
        };
        let link: Link = match session.open_link(handle) {
            Ok(link) => link,
            Err(e) => {
                return (
                    nothing(),
                    Need::Fail {
                        hang_up: Some(handle),
                        text: phrase("connection could not be opened: ", e.text().as_str()),
                    },
                );
            },
        };
        self.reached_link = true;
        attempt.handle = handle;
        attempt.link = Some(link);
        let out = report(Progress::Connected { handle });
        let next: Need = match self.bonds.get(attempt.address.as_str()) {
            Some(bond) => if is_key(&bond.long_term_key) {
                Need::Resume(copy_key(&bond.long_term_key))
            } else {
                Need::Pair { again: false }
            },
            None => Need::Pair { again: false },
        };
        proof {
            let came = reached_want(old(self)@, old(attempt)@, Ok(handle));
            assert(self@ == came.0);
            assert(lines(out@) == came.1);
            assert(next@ == came.2);
        }
        (out, next)
    }
}

// ---------------------------------------------------------------------------
// Keys
// ---------------------------------------------------------------------------

/// The bond that an attempt leaves.
pub open spec fn bond_left(t: Trial, key: Seq<u8>) -> Tie {
    Tie {
        address: address_text(t.device.address),
        address_type: t.device.address_type,
        name: t.name,
        long_term_key: key,
        le_audio: t.le_audio,
    }
}

/// The worker once there is a key. It is remembered only now, so a failed attempt
/// never leaves a bond that cannot be used.
pub open spec fn bonded(s: Standing, t: Trial, key: Seq<u8>) -> Standing {
    Standing { bonds: with_bond(s.bonds, bond_left(t, key)), ..s }
}

/// The worker after an exchange of keys, which gave a key or failed. Where it was
/// made because a stored key was refused, that key is forgotten either way.
pub open spec fn after_exchange(
    s: Standing,
    t: Trial,
    again: bool,
    key: Option<Seq<u8>>,
) -> Standing {
    let before = if again {
        Standing { bonds: without_bond(s.bonds, t.address), ..s }
    } else {
        s
    };
    match key {
        Some(key) => bonded(before, t, key),
        None => before,
    }
}

/// What the application is told of a bond, before the slower discovery starts.
pub open spec fn paired_line(t: Trial) -> Line {
    Line::Paired { address: t.address, name: t.name, le_audio: t.le_audio }
}

impl Agent {
    fn remember(&mut self, attempt: &Attempt, key: [u8; 16])
        requires
            old(self).wf(),
        ensures
            final(self).wf(),
            final(self)@ == bonded(old(self)@, attempt@, key@),
    {
        self.bonds.insert(
            Bond {
                address: attempt.device.address.to_text(),
                address_type: attempt.device.address_type,
                name: attempt.name.as_str().to_owned(),
                long_term_key: key,
                le_audio: attempt.le_audio,
            },
        );
    }

    /// Takes the outcome of turning encryption on with the stored key.
    ///
    /// A key that is refused is no longer the one the headphones hold. That happens
    /// whenever they are paired to something else in the meantime, or reset, and the
    /// only way out of it is a fresh key exchange.
    pub fn resumed(
        &mut self,
        attempt: &Attempt,
        key: [u8; 16],
        outcome: Result<(), SessionError>,
    ) -> (r: (Vec<Message>, Need))
        requires
            old(self).wf(),
        ensures
            final(self).wf(),
            match outcome {
                Ok(()) => final(self)@ == bonded(old(self)@, attempt@, key@) && (r.1)@
                    == Want::ReadCapabilities && lines((r.0)@) == seq![
                    Line::Log("restored an encrypted connection from the saved bond"@),
                    paired_line(attempt@),
                ],
                Err(e) => final(self)@ == old(self)@ && (r.1)@ == (Want::Pair { again: true })
                    && lines((r.0)@) == seq![
                    Line::Log(
                        "the saved key was refused ("@ + e@.message()
                            + "); pairing again from scratch"@,
                    ),
                ],
            },
    {
        let mut out = nothing();
        match outcome {
            Ok(()) => {
                log(&mut out, "restored an encrypted connection from the saved bond");
                self.remember(attempt, key);
                say(
                    &mut out,
                    Message::Paired {
                        address: attempt.address.as_str().to_owned(),
                        name: attempt.name.as_str().to_owned(),
                        le_audio: attempt.le_audio,
                    },
                );
                (out, Need::ReadCapabilities)
            },
            Err(e) => {
                log(
                    &mut out,
                    sentence(
                        "the saved key was refused (",
                        e.text().as_str(),
                        "); pairing again from scratch",
                    ).as_str(),
                );
                (out, Need::Pair { again: true })
            },
        }
    }

    /// Takes the outcome of exchanging keys. A stored key that turned out to be dead
    /// is forgotten either way.
    pub fn paired(
        &mut self,
        attempt: &Attempt,
        again: bool,
        outcome: Result<[u8; 16], SessionError>,
    ) -> (r: (Vec<Message>, Need))
        requires
            old(self).wf(),
        ensures
            final(self).wf(),
            final(self)@ == after_exchange(
                old(self)@,
                attempt@,
                again,
                match outcome {
                    Ok(key) => Some(key@),
                    Err(_) => None,
                },
            ),
            match outcome {
                Ok(key) => (r.1)@ == Want::ReadCapabilities && lines((r.0)@) == seq![
                    paired_line(attempt@),
                ],
                Err(e) => lines((r.0)@).len() == 0 && (r.1)@ == (Want::Fail {
                    hang_up: Some(attempt@.handle),
                    text: (if again {
                        "pairing again failed: "@
                    } else {
                        "pairing failed: "@
                    }) + e@.message(),
                }),
            },
            again && outcome is Err ==> bond_of(final(self)@.bonds, attempt@.address) is None,
    {
        if again {
            self.bonds.remove(attempt.address.as_str());
        }
        let mut out = nothing();
        match outcome {
            Ok(key) => {
                self.remember(attempt, key);
                say(
                    &mut out,
                    Message::Paired {
                        address: attempt.address.as_str().to_owned(),
                        name: attempt.name.as_str().to_owned(),
                        le_audio: attempt.le_audio,
                    },
                );
                (out, Need::ReadCapabilities)
            },
            Err(e) => {
                let text: String = if again {
                    phrase("pairing again failed: ", e.text().as_str())
                } else {
                    phrase("pairing failed: ", e.text().as_str())
                };
                (out, Need::Fail { hang_up: Some(attempt.handle), text })
            },
        }
    }
}

// ---------------------------------------------------------------------------
// What the device can do, and whether it is free
// ---------------------------------------------------------------------------

/// Whether anyone else has the headphones right now.
#[derive(Debug)]
pub struct Availability {
    pub state: String,
    pub detail: String,
    pub worth_attempting: bool,
    /// What is available now, in words, where the device says so, and what it
    /// supports at all, where it says that.
    pub contexts: Option<(String, Option<String>)>,
}

/// What is said of the contexts.
pub open spec fn contexts_text(now: Seq<char>, supported: Option<Seq<char>>) -> Seq<char> {
    "  available now: "@ + now + " (supported: "@ + (match supported {
        Some(t) => t,
        None => "not published"@,
    }) + ")"@
}

/// What the application is told of the availability.
pub open spec fn availability_lines(address: Seq<char>, a: Availability) -> Seq<Line> {
    let first = seq![Line::Log("multipoint: "@ + a.detail@)];
    let all = match a.contexts {
        Some((now, supported)) => first.push(Line::Log(contexts_text(now@, text_of(supported)))),
        None => first,
    };
    all.push(Line::Availability { address, state: a.state@, detail: a.detail@ })
}

/// Bytes as pairs of digits with spaces between.
pub open spec fn dump(raw: Seq<u8>) -> Seq<char> {
    joined(raw.map_values(|b: u8| upper_pair(b)), " "@)
}

/// What is said of one record, byte for byte.
pub open spec fn record_text(number: nat, record: Record) -> Seq<char> {
    "  PAC "@ + decimal(number) + ": channels "@ + listed(record.capabilities.channel_counts)
        + ", maximum frames per SDU "@ + decimal(record.capabilities.max_frames_per_sdu as nat)
        + " | "@ + dump(record.raw)
}

/// What is said of the records.
pub open spec fn record_lines(s: Seq<Record>) -> Seq<Line> {
    Seq::new(s.len(), |i: int| Line::Log(record_text((i + 1) as nat, s[i])))
}

fn dumped(raw: &[u8]) -> (r: String)
    ensures
        r@ == dump(raw@),
{
    let ghost wanted = raw@.map_values(|b: u8| upper_pair(b));
    let mut parts: Vec<String> = Vec::new();
    let mut i: usize = 0;
    while i < raw.len()
        invariant
            i <= raw@.len(),
            wanted == raw@.map_values(|b: u8| upper_pair(b)),
            texts(parts@) == wanted.take(i as int),
        decreases raw@.len() - i,
    {
        let ghost before = parts@;
        let mut text = String::new();
        push_upper_pair(&mut text, raw[i]);
        assert(text@ =~= upper_pair(raw@[i as int]));
        parts.push(text);
        assert(texts(parts@) =~= texts(before).push(text@));
        assert(texts(parts@) =~= wanted.take(i + 1));
        i += 1;
    }
    assert(wanted.take(wanted.len() as int) =~= wanted);
    join(parts.as_slice(), " ")
}

fn describe_record(number: u64, record: &PacRecord) -> (r: String)
    ensures
        r@ == record_text(number as nat, record@),
{
    let mut out = String::new();
    out.append("  PAC ");
    push_decimal(&mut out, number);
    out.append(": channels ");
    push_listed(&mut out, record.capabilities.channel_counts.as_slice());
    out.append(", maximum frames per SDU ");
    push_decimal(&mut out, record.capabilities.max_frames_per_sdu as u64);
    out.append(" | ");
    out.append(dumped(record.raw.as_slice()).as_str());
    assert(out@ =~= record_text(number as nat, record@));
    out
}

impl Agent {
    /// Takes what the device can do, or why it could not be read.
    pub fn capabilities_read(
        &self,
        attempt: &mut Attempt,
        outcome: Result<AudioCapabilities, SessionError>,
    ) -> (r: (Vec<Message>, Need))
        ensures
            match outcome {
                Ok(caps) => final(attempt)@ == (Trial {
                    capabilities: Some(caps@),
                    ..old(attempt)@
                }) && (r.1)@ == Want::Judge && lines((r.0)@) == seq![
                    Line::Capabilities {
                        address: old(attempt)@.address,
                        summary: capabilities_text(caps@),
                        sink: reach_of(caps@.sink_records),
                        source: reach_of(caps@.source_records),
                    },
                ],
                Err(e) => final(attempt)@ == old(attempt)@ && lines((r.0)@).len() == 0 && (r.1)@
                    == (Want::Fail {
                    hang_up: Some(old(attempt)@.handle),
                    text: "capability discovery failed: "@ + e@.message(),
                }),
            },
    {
        let mut out = nothing();
        match outcome {
            Err(e) => (
                out,
                Need::Fail {
                    hang_up: Some(attempt.handle),
                    text: phrase("capability discovery failed: ", e.text().as_str()),
                },
            ),
            Ok(caps) => {
                say(
                    &mut out,
                    Message::Capabilities {
                        address: attempt.address.as_str().to_owned(),
                        summary: describe_capabilities(&caps),
                        sink: codec_envelope(caps.sink_records.as_slice()),
                        source: codec_envelope(caps.source_records.as_slice()),
                    },
                );
                attempt.capabilities = Some(caps);
                (out, Need::Judge)
            },
        }
    }

    /// Takes the verdict on whether the headphones are free. A headset that is busy
    /// with a phone otherwise fails somewhere in stream setup, which reads as broken
    /// hardware rather than as the entirely normal situation it is. While tracing,
    /// the records are said byte for byte.
    pub fn judged(&self, attempt: &Attempt, verdict: Availability, tracing: bool) -> (r: (
        Vec<Message>,
        Need,
    ))
        ensures
            ({
                let told = availability_lines(attempt@.address, verdict);
                if !verdict.worth_attempting {
                    &&& lines((r.0)@) == told
                    &&& (r.1)@ == (Want::Fail {
                        hang_up: Some(attempt@.handle),
                        text: verdict.detail@,
                    })
                } else {
                    &&& lines((r.0)@) == (match attempt@.capabilities {
                        Some(caps) => if tracing {
                            told + record_lines(caps.sink_records)
                        } else {
                            told
                        },
                        None => told,
                    })
                    &&& (r.1)@ == Want::FindControlPoint
                }
            }),
    {
        let mut out = nothing();
        log(&mut out, phrase("multipoint: ", verdict.detail.as_str()).as_str());
        if let Some((now, supported)) = &verdict.contexts {
            let mut text = String::new();
            text.append("  available now: ");
            text.append(now.as_str());
            text.append(" (supported: ");
            match supported {
                Some(t) => text.append(t.as_str()),
                None => text.append("not published"),
            }
            text.append(")");
            assert(text@ =~= contexts_text(now@, text_of(*supported)));
            log(&mut out, text.as_str());
        }
        say(
            &mut out,
            Message::Availability {
                address: attempt.address.as_str().to_owned(),
                state: verdict.state.as_str().to_owned(),
                detail: verdict.detail.as_str().to_owned(),
            },
        );
        let ghost told = lines(out@);
        assert(told =~= availability_lines(attempt@.address, verdict));
        if !verdict.worth_attempting {
            return (out, Need::Fail { hang_up: Some(attempt.handle), text: verdict.detail });
        }
        if tracing {
            if let Some(caps) = &attempt.capabilities {
                let ghost all = caps@.sink_records;
                let mut i: usize = 0;
                assert(told + record_lines(all).take(0) =~= told);
                while i < caps.sink_records.len()
                    invariant
                        i <= caps.sink_records@.len(),
                        all == caps@.sink_records,
                        all.len() == caps.sink_records@.len(),
                        lines(out@) == told + record_lines(all).take(i as int),
                    decreases caps.sink_records@.len() - i,
                {
                    assert(all[i as int] == caps.sink_records@[i as int]@);
                    let text = describe_record(i as u64 + 1, &caps.sink_records[i]);
                    log(&mut out, text.as_str());
                    assert(lines(out@) =~= told + record_lines(all).take(i + 1));
                    i += 1;
                }
                assert(record_lines(all).take(all.len() as int) =~= record_lines(all));
            }
        }
        (out, Need::FindControlPoint)
    }
}

// ---------------------------------------------------------------------------
// Getting ready to play
// ---------------------------------------------------------------------------

impl Agent {
    /// Takes the control point, or why there is none.
    pub fn control_point_found(
        &mut self,
        attempt: &mut Attempt,
        outcome: Result<u16, String>,
    ) -> (r: Need)
        requires
            old(self).wf(),
        ensures
            final(self).wf(),
            match outcome {
                Ok(control_point) => r@ == Want::AttachVolume && final(self)@ == (Standing {
                    capabilities: old(attempt)@.capabilities,
                    control_point: Some(control_point),
                    ..old(self)@
                }) && final(attempt)@ == (Trial { capabilities: None, ..old(attempt)@ }),
                Err(t) => r@ == (Want::Fail {
                    hang_up: Some(old(attempt)@.handle),
                    text: t@,
                }) && final(self)@ == old(self)@ && final(attempt)@ == old(attempt)@,
            },
    {
        match outcome {
            Err(text) => Need::Fail { hang_up: Some(attempt.handle), text },
            Ok(control_point) => {
                self.capabilities = attempt.capabilities.take();
                self.control_point = Some(control_point);
                Need::AttachVolume
            },
        }
    }

    /// Takes what came of attaching to the volume control: a summary, nothing where
    /// the device has none, or an error that costs no more than that.
    pub fn volume_attached(&self, outcome: Result<Option<String>, SessionError>) -> (r: (
        Vec<Message>,
        Need,
    ))
        ensures
            (r.1)@ == Want::AttachBatteries,
            lines((r.0)@) == seq![
                Line::Log(
                    match outcome {
                        Ok(Some(summary)) => summary@,
                        Ok(None) => "device does not expose volume control"@,
                        Err(e) => "volume control could not be attached: "@ + e@.message(),
                    },
                ),
            ],
    {
        let mut out = nothing();
        match outcome {
            Ok(Some(summary)) => log(&mut out, summary.as_str()),
            Ok(None) => log(&mut out, "device does not expose volume control"),
            Err(e) => log(
                &mut out,
                phrase("volume control could not be attached: ", e.text().as_str()).as_str(),
            ),
        }
        (out, Need::AttachBatteries)
    }

    /// Takes the levels of the batteries, and keeps the link: everything that
    /// follows happens over this same connection.
    pub fn batteries_attached(
        &mut self,
        attempt: Attempt,
        outcome: Result<Vec<u8>, SessionError>,
    ) -> (r: (Vec<Message>, Need))
        requires
            old(self).wf(),
        ensures
            final(self).wf(),
            (r.1)@ == Want::Play,
            lines((r.0)@) == seq![
                match outcome {
                    Ok(levels) => if levels@.len() == 0 {
                        Line::Log("device does not report its battery over GATT"@)
                    } else {
                        Line::Battery { address: Some(attempt@.address), levels: levels@ }
                    },
                    Err(e) => Line::Log("battery level could not be read: "@ + e@.message()),
                },
                Line::Connected {
                    address: attempt@.address,
                    handle: attempt@.handle,
                    name: attempt@.name,
                },
            ],
            final(self)@ == (Standing {
                link: attempt@.link,
                connected: Some((attempt@.address, attempt@.handle)),
                ..old(self)@
            }),
    {
        let mut out = nothing();
        match outcome {
            Ok(levels) => {
                if levels.len() == 0 {
                    log(&mut out, "device does not report its battery over GATT");
                } else {
                    say(
                        &mut out,
                        Message::Battery {
                            address: Some(attempt.address.as_str().to_owned()),
                            levels,
                        },
                    );
                }
            },
            Err(e) => log(
                &mut out,
                phrase("battery level could not be read: ", e.text().as_str()).as_str(),
            ),
        }
        self.link = attempt.link;
        self.connected = Some((attempt.address.as_str().to_owned(), attempt.handle));
        say(
            &mut out,
            Message::Connected {
                address: attempt.address,
                handle: attempt.handle,
                name: attempt.name,
            },
        );
        (out, Need::Play)
    }

    /// Takes the outcome of playing. If a step of setting the stream up failed, the
    /// live connection is closed before the attempt ends: the next one would race a
    /// ghost connection that the controller and the headphones still hold.
    pub fn played(&mut self, outcome: &Result<(), String>) -> (r: Option<(Teardown, Message)>)
        requires
            old(self).wf(),
        ensures
            final(self).wf(),
            match outcome {
                Ok(()) => r is None && final(self)@ == old(self)@,
                Err(_) => {
                    let (teardown, message) = r->0;
                    &&& r is Some
                    &&& teardown@ == remains_of(old(self)@)
                    &&& message@ == Line::Disconnected
                    &&& final(self)@ == let_go(old(self)@)
                },
            },
    {
        match outcome {
            Ok(()) => None,
            Err(_) => Some(self.disconnect()),
        }
    }
}

// ---------------------------------------------------------------------------
// Laws
// ---------------------------------------------------------------------------

/// A failed exchange never leaves a bond that cannot be used: after a key that was
/// refused and an exchange that failed, the address has no bond, and the next
/// attempt exchanges keys.
pub proof fn lemma_dead_key_is_forgotten(s: Standing, t: Trial, handle: u16)
    requires
        one_each(s.bonds),
    ensures
        ({
            let left = after_exchange(s, t, true, None);
            &&& bond_of(left.bonds, t.address) is None
            &&& reached_want(left, t, Ok(handle)).2 == (Want::Pair { again: false })
        }),
{
    lemma_forgotten_bond_is_gone(s.bonds, t.address);
}

/// A device that was paired is reached by its key the next time, where its address
/// is the one it was asked for by.
pub proof fn lemma_bond_is_used_again(s: Standing, t: Trial, key: Seq<u8>)
    requires
        t.address == address_text(t.device.address),
        says_a_key(key),
    ensures
        usable_key(bond_of(bonded(s, t, key).bonds, t.address)) == Some(key),
{
    lemma_remembered_bond_is_found(s.bonds, bond_left(t, key), t.address);
}

/// A useful name that a device was paired under is not lost to an advertisement
/// that says nothing.
pub proof fn lemma_useful_name_stays(device: Heard, bond: Tie, address: Seq<char>)
    requires
        is_useful(bond.name, address),
        !is_useful(device.shown_name(), address),
    ensures
        friendly_name(device, Some(bond), address) == bond.name,
{
}

/// A device that was paired is found again without a scan: connecting from the bond
/// alone aims at the very address, and the kind of address, that the key was exchanged
/// with, under the name that it had. A resumed bond is no different from a new one.
pub proof fn lemma_bond_aims_at_the_paired_device(
    s: Standing,
    t: Trial,
    key: Seq<u8>,
    again: bool,
    found: Seq<Heard>,
)
    requires
        t.device.address.len() == 6,
        found_at(found, address_text(t.device.address)) is None,
    ensures
        ({
            let address = address_text(t.device.address);
            let paired = Standing { found, ..after_exchange(s, t, again, Some(key)) };
            let resumed = Standing { found, ..bonded(s, t, key) };
            &&& target_of(paired, address) matches Ok(device) && {
                &&& device.address == t.device.address
                &&& device.address_type == t.device.address_type
                &&& device.name == Some(t.name)
            }
            &&& target_of(resumed, address) == target_of(paired, address)
        }),
{
    let address = address_text(t.device.address);
    lemma_address_text(t.device.address);
    let before = if again {
        without_bond(s.bonds, t.address)
    } else {
        s.bonds
    };
    lemma_remembered_bond_is_found(before, bond_left(t, key), address);
    lemma_remembered_bond_is_found(s.bonds, bond_left(t, key), address);
}

/// What was exchanged is kept as it is: the next attempt at a device that was paired
/// turns encryption on with that key and no other, takes it for what it announced
/// itself as, and calls it by its name where it says none.
pub proof fn lemma_bond_remembers_the_device(
    s: Standing,
    t: Trial,
    key: Seq<u8>,
    again: bool,
    nameless: Heard,
    handle: u16,
)
    requires
        says_a_key(key),
        t.address == address_text(t.device.address),
        is_useful(t.name, t.address),
        !is_useful(nameless.shown_name(), t.address),
    ensures
        ({
            let now = after_exchange(s, t, again, Some(key));
            let next = first_trial(now, t.address, nameless);
            &&& reached_want(now, next, Ok(handle)).2 == Want::Resume(key)
            &&& next.name == t.name
            &&& next.le_audio == (nameless.announces_le_audio() || t.le_audio)
            &&& next.device == nameless
            &&& now.connected == s.connected
            &&& now.settings == s.settings
        }),
{
    let before = if again {
        without_bond(s.bonds, t.address)
    } else {
        s.bonds
    };
    lemma_remembered_bond_is_found(before, bond_left(t, key), t.address);
}

/// Pairing one device costs no other its bond.
pub proof fn lemma_other_bonds_stay(
    s: Standing,
    t: Trial,
    again: bool,
    key: Option<Seq<u8>>,
    other: Seq<char>,
)
    requires
        other != t.address,
        other != address_text(t.device.address),
    ensures
        bond_of(after_exchange(s, t, again, key).bonds, other) == bond_of(s.bonds, other),
{
    let before = if again {
        without_bond(s.bonds, t.address)
    } else {
        s.bonds
    };
    lemma_other_bond_is_not_forgotten(s.bonds, t.address, other);
    if let Some(key) = key {
        lemma_remembered_bond_is_found(before, bond_left(t, key), other);
    }
}

/// A key is a key by any of its bytes; only zeros are none. Without a key there is an
/// exchange, and with one there is none.
pub proof fn lemma_stored_key_is_tried_first(s: Standing, t: Trial, handle: u16)
    ensures
        ({
            let want = reached_want(s, t, Ok(handle)).2;
            let bond = bond_of(s.bonds, t.address);
            let keyed = bond is Some && exists|i: int|
                0 <= i < (bond->0).long_term_key.len() && (bond->0).long_term_key[i] != 0;
            &&& keyed ==> want == Want::Resume((bond->0).long_term_key)
            &&& !keyed ==> want == (Want::Pair { again: false })
            &&& reached_want(s, t, Ok(handle)).0 == (Standing { reached_link: true, ..s })
        }),
        forall|e: Trouble| (#[trigger] reached_want(s, t, Err(e))).0 == s && (reached_want(
            s,
            t,
            Err(e),
        ).2 matches Want::Fail { hang_up, text } && hang_up is None),
{
}

} // verus!
