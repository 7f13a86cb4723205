//! Bringing the isochronous channels up.
//!
//! What has to be done next is a function of what came of everything done so
//! far, as it is for the procedures of a link.

use vstd::prelude::*;

use crate::bytes::{copied, copied_words, packets};
use crate::cis::{
    all_path_commands, data_path_commands, judge_group, lemma_every_channel_is_accounted_for,
    lemma_up_was_reported, offered, outcome_of, parse_offered, path_commands, reported_up, Channels,
    CisOutcome,
};
use crate::hci::{
    cis_established, command_bytes, iso_path_params, le_create_cis, le_remove_cig, pair_bytes,
    parse_cis_established, Event, EventView, ISO_PATH_INPUT, ISO_PATH_OUTPUT, LE_CREATE_CIS,
    LE_REMOVE_CIG, LE_SETUP_ISO_DATA_PATH,
};
use crate::link::events;
use crate::session::{Session, SessionError, Trouble};
use crate::stream::{Planned, StreamPlan};
use crate::text::{decimal, hex, join, joined, push_decimal, push_hex, texts};
use crate::time::Duration;

verus! {

/// What came of one thing that was done: an error, or what the controller
/// returned, or what it reported.
#[derive(Debug)]
pub struct Fact {
    pub error: Option<SessionError>,
    pub bytes: Vec<u8>,
    pub events: Vec<Event>,
}

/// What came of it, whatever holds it.
pub struct Happened {
    pub error: Option<Trouble>,
    pub bytes: Seq<u8>,
    pub events: Seq<EventView>,
}

impl View for Fact {
    type V = Happened;

    open spec fn view(&self) -> Happened {
        Happened {
            error: match self.error {
                Some(e) => Some(e@),
                None => None,
            },
            bytes: self.bytes@,
            events: events(self.events@),
        }
    }
}

/// What came of everything.
pub open spec fn happened(v: Seq<Fact>) -> Seq<Happened> {
    v.map_values(|f: Fact| f@)
}

/// Something to be done.
#[derive(Debug)]
pub enum Job {
    /// Send a command and wait for its completion.
    Command(Vec<u8>),
    /// Wait for one channel to report, for at most so long. What came of it holds
    /// that report, and no event where the controller stayed silent.
    AwaitChannel(Duration),
    /// End a connection, and wait a moment for the controller to confirm it.
    Disconnect(u16),
    Pause(Duration),
}

/// Something to be done, whatever holds it.
pub enum Task {
    Command(Seq<u8>),
    AwaitChannel(Duration),
    Disconnect(u16),
    Pause(Duration),
}

impl View for Job {
    type V = Task;

    open spec fn view(&self) -> Task {
        match self {
            Job::Command(c) => Task::Command(c@),
            Job::AwaitChannel(d) => Task::AwaitChannel(*d),
            Job::Disconnect(handle) => Task::Disconnect(*handle),
            Job::Pause(d) => Task::Pause(*d),
        }
    }
}

/// How far the work has come: something is to be done, or it is finished, with a
/// number of facts used up.
#[derive(Debug)]
pub enum Work {
    Do(Job),
    Done(Result<CisOutcome, SessionError>, usize),
}

/// How far the work has come, whatever holds it.
pub enum Effort {
    Do(Task),
    Done(Result<Channels, Trouble>, int),
}

/// A result, whatever holds it.
pub open spec fn result_of(r: Result<CisOutcome, SessionError>) -> Result<Channels, Trouble> {
    match r {
        Ok(outcome) => Ok(outcome@),
        Err(e) => Err(e@),
    }
}

impl View for Work {
    type V = Effort;

    open spec fn view(&self) -> Effort {
        match self {
            Work::Do(job) => Effort::Do(job@),
            Work::Done(r, used) => Effort::Done(result_of(*r), *used as int),
        }
    }
}

/// How many times the radio is asked before the answer is final.
pub const RADIO_ATTEMPTS: u32 = 3;

/// How long one channel may take to report. The controller's own attempt times out at
/// five seconds; waiting a little longer means the report says which channel failed
/// rather than that nobody waited for it.
pub const CIS_ESTABLISH_SECONDS: u64 = 8;

/// How long the radio rests between two attempts.
pub const REST_MILLIS: u64 = 200;

/// The most channels that one request can name.
pub const MOST_CHANNELS: usize = 63;

// ---------------------------------------------------------------------------
// One attempt
// ---------------------------------------------------------------------------

/// Handles in brackets, with commas between.
pub open spec fn handles_text(s: Seq<u16>) -> Seq<char> {
    "["@ + joined(s.map_values(|h: u16| decimal(h as nat)), ", "@) + "]"@
}

/// Why a request for channels was turned down.
pub open spec fn refused_text(e: Trouble, group: Seq<u16>, acl_handle: u16) -> Seq<char> {
    e.message() + "; offered channels "@ + handles_text(group) + ", ACL handle "@ + hex(
        acl_handle as nat,
        4,
    )
}

/// Each channel with the connection that it belongs to.
pub open spec fn paired(group: Seq<u16>, acl_handle: u16) -> Seq<(u16, u16)> {
    group.map_values(|h: u16| (h, acl_handle))
}

/// Commands sent one after the other, up to the first that fails.
pub open spec fn commands_effort(
    commands: Seq<Seq<u8>>,
    s: Seq<Happened>,
    at: int,
    outcome: Channels,
) -> Effort
    decreases commands.len(),
{
    if commands.len() == 0 {
        Effort::Done(Ok(outcome), at)
    } else if at >= s.len() {
        Effort::Do(Task::Command(commands[0]))
    } else {
        match s[at].error {
            Some(e) => Effort::Done(Err(e), at + 1),
            None => commands_effort(commands.skip(1), s, at + 1, outcome),
        }
    }
}

/// How the waiting for reports goes.
pub enum Hearing {
    /// Another report is to be waited for.
    Wait,
    Failed(Trouble, int),
    /// Nothing more is waited for: these reports came.
    Over(Seq<EventView>, int),
}

/// Whether a wait ended with the report of a channel.
pub open spec fn spoke_up(f: Happened) -> bool {
    f.events.len() > 0 && cis_established(f.events[0]) is Some
}

/// Reports are waited for one by one, up to `left` of them, after those that came.
/// The first silence ends the waiting, and so does an error.
pub open spec fn hearing(
    left: nat,
    heard: Seq<EventView>,
    s: Seq<Happened>,
    at: int,
) -> Hearing
    decreases left,
{
    if left == 0 {
        Hearing::Over(heard, at)
    } else if at >= s.len() {
        Hearing::Wait
    } else {
        match s[at].error {
            Some(e) => Hearing::Failed(e, at + 1),
            None => if spoke_up(s[at]) {
                hearing((left - 1) as nat, heard.push(s[at].events[0]), s, at + 1)
            } else {
                Hearing::Over(heard, at + 1)
            },
        }
    }
}

/// What is left to do once the channels have reported.
pub open spec fn reported_effort(
    plan: Planned,
    group: Seq<u16>,
    reports: Seq<EventView>,
    s: Seq<Happened>,
    at: int,
) -> Effort {
    let outcome = outcome_of(group, reports);
    if outcome.established.len() == 0 {
        Effort::Done(
            Err(
                if outcome.failed.len() > 0 {
                    Trouble::CisFailed { handle: outcome.failed[0].0, status: outcome.failed[0].1 }
                } else {
                    Trouble::NoCisEstablished
                },
            ),
            at,
        )
    } else {
        commands_effort(
            all_path_commands(
                outcome.established,
                outcome.established.len(),
                plan.playback_channels(),
                plan.microphone_channel(),
            ),
            s,
            at,
            outcome,
        )
    }
}

/// What is left to do once the controller has offered channels.
pub open spec fn offered_effort(
    plan: Planned,
    acl_handle: u16,
    group: Seq<u16>,
    s: Seq<Happened>,
    at: int,
) -> Effort {
    if group.len() == 0 {
        Effort::Done(Err(Trouble::NoCisEstablished), at)
    } else if group.len() > MOST_CHANNELS {
        Effort::Done(Err(Trouble::IsoPath("too many channels for one request"@)), at)
    } else if at >= s.len() {
        Effort::Do(
            Task::Command(
                command_bytes(
                    LE_CREATE_CIS,
                    seq![group.len() as u8] + pair_bytes(paired(group, acl_handle)),
                ),
            ),
        )
    } else {
        match s[at].error {
            Some(e) => Effort::Done(
                Err(Trouble::IsoPath(refused_text(e, group, acl_handle))),
                at + 1,
            ),
            None => match hearing(group.len(), Seq::empty(), s, at + 1) {
                Hearing::Wait => Effort::Do(
                    Task::AwaitChannel(Duration { nanos: 8_000_000_000 }),
                ),
                Hearing::Failed(e, n) => Effort::Done(Err(e), n),
                Hearing::Over(reports, n) => reported_effort(plan, group, reports, s, n),
            },
        }
    }
}

/// One attempt: what is left of an earlier group is removed, whatever comes of
/// it; the group is created; its channels are asked for, once; they report; and
/// the data paths of those that came up are opened.
pub open spec fn once_effort(
    plan: Planned,
    cig_command: Seq<u8>,
    acl_handle: u16,
    s: Seq<Happened>,
    at: int,
) -> Effort {
    if at >= s.len() {
        Effort::Do(Task::Command(command_bytes(LE_REMOVE_CIG, seq![plan.cig_id])))
    } else if at + 1 >= s.len() {
        Effort::Do(Task::Command(cig_command))
    } else {
        match s[at + 1].error {
            Some(e) => Effort::Done(Err(e), at + 2),
            None => offered_effort(plan, acl_handle, offered(s[at + 1].bytes), s, at + 2),
        }
    }
}

fn push_handles(out: &mut String, handles: &[u16])
    ensures
        final(out)@ == old(out)@ + handles_text(handles@),
{
    let ghost was = out@;
    let ghost wanted = handles@.map_values(|h: u16| decimal(h as nat));
    let mut parts: Vec<String> = Vec::new();
    let mut i: usize = 0;
    while i < handles.len()
        invariant
            i <= handles@.len(),
            wanted == handles@.map_values(|h: u16| decimal(h as nat)),
            texts(parts@) == wanted.take(i as int),
        decreases handles@.len() - i,
    {
        let ghost before = parts@;
        let mut text = String::new();
        push_decimal(&mut text, handles[i] as u64);
        assert(text@ =~= decimal(handles@[i as int] as nat));
        parts.push(text);
        assert(texts(parts@) =~= texts(before).push(text@));
        assert(texts(parts@) =~= wanted.take(i + 1));
        i += 1;
    }
    assert(wanted.take(wanted.len() as int) =~= wanted);
    let list = join(parts.as_slice(), ", ");
    out.append("[");
    out.append(list.as_str());
    out.append("]");
    assert(out@ =~= was + handles_text(handles@));
}

fn pair_up(group: &[u16], acl_handle: u16) -> (r: Vec<(u16, u16)>)
    ensures
        r@ == paired(group@, acl_handle),
{
    let mut out: Vec<(u16, u16)> = Vec::new();
    let mut i: usize = 0;
    while i < group.len()
        invariant
            i <= group@.len(),
            out@ == paired(group@, acl_handle).take(i as int),
        decreases group@.len() - i,
    {
        out.push((group[i], acl_handle));
        assert(out@ =~= paired(group@, acl_handle).take(i + 1));
        i += 1;
    }
    assert(out@ =~= paired(group@, acl_handle));
    out
}

/// Runs the commands that open data paths.
fn open_paths(commands: &[Vec<u8>], outcome: CisOutcome, facts: &[Fact], at: usize) -> (r: Work)
    requires
        at <= facts@.len(),
    ensures
        r@ == commands_effort(packets(commands@), happened(facts@), at as int, outcome@),
        r matches Work::Done(_, n) ==> n <= facts@.len(),
{
    let ghost s = happened(facts@);
    let ghost all = packets(commands@);
    let ghost goal = commands_effort(all, s, at as int, outcome@);
    let mut next: usize = at;
    let mut i: usize = 0;
    assert(all.skip(0) =~= all);
    while i < commands.len()
        invariant
            i <= commands@.len(),
            next <= facts@.len(),
            s == happened(facts@),
            all == packets(commands@),
            goal == commands_effort(all.skip(i as int), s, next as int, outcome@),
            goal == commands_effort(all, s, at as int, outcome@),
        decreases commands@.len() - i,
    {
        assert(all.skip(i as int)[0] == commands@[i as int]@);
        assert(all.skip(i as int).skip(1) =~= all.skip(i + 1));
        if next >= facts.len() {
            return Work::Do(Job::Command(copied(commands[i].as_slice())));
        }
        assert(s[next as int] == facts@[next as int]@);
        if let Some(e) = &facts[next].error {
            return Work::Done(Err(e.clone()), next + 1);
        }
        next += 1;
        i += 1;
    }
    Work::Done(Ok(outcome), next)
}

/// How the waiting for reports went, as far as it got.
pub enum Heard {
    Wait,
    Failed(SessionError, usize),
    Over(Vec<Event>, usize),
}

impl View for Heard {
    type V = Hearing;

    open spec fn view(&self) -> Hearing {
        match self {
            Heard::Wait => Hearing::Wait,
            Heard::Failed(e, n) => Hearing::Failed(e@, *n as int),
            Heard::Over(reports, n) => Hearing::Over(events(reports@), *n as int),
        }
    }
}

/// Takes the reports of so many channels, up to the first silence.
fn hear(count: usize, facts: &[Fact], at: usize) -> (r: Heard)
    requires
        at <= facts@.len(),
    ensures
        r@ == hearing(count as nat, Seq::empty(), happened(facts@), at as int),
        r matches Heard::Over(_, n) ==> n <= facts@.len(),
        r matches Heard::Failed(_, n) ==> n <= facts@.len(),
{
    let ghost s = happened(facts@);
    let mut heard: Vec<Event> = Vec::new();
    let mut next: usize = at;
    let mut left: usize = count;
    assert(events(heard@) =~= Seq::empty());
    while left > 0
        invariant
            next <= facts@.len(),
            s == happened(facts@),
            hearing(count as nat, Seq::empty(), s, at as int) == hearing(
                left as nat,
                events(heard@),
                s,
                next as int,
            ),
        decreases left,
    {
        if next >= facts.len() {
            return Heard::Wait;
        }
        assert(s[next as int] == facts@[next as int]@);
        if let Some(e) = &facts[next].error {
            return Heard::Failed(e.clone(), next + 1);
        }
        if facts[next].events.len() == 0 {
            return Heard::Over(heard, next + 1);
        }
        let event = &facts[next].events[0];
        assert(s[next as int].events[0] == event@);
        if parse_cis_established(event).is_none() {
            return Heard::Over(heard, next + 1);
        }
        let ghost before = heard@;
        heard.push(event.clone());
        assert(events(heard@) =~= events(before).push(event@));
        next += 1;
        left -= 1;
    }
    Heard::Over(heard, next)
}

/// Makes one attempt to bring the channels up.
///
/// The channels are asked for once, deliberately. A channel that reports a
/// failure has had its handle released by the controller, so asking again with
/// the same handle is answered with "unknown connection identifier". Recovering a
/// failed channel means rebuilding the whole group, which would drop the working
/// one too; keeping what works is worth more.
fn establish_once(
    plan: &StreamPlan,
    cig_command: &[u8],
    acl_handle: u16,
    facts: &[Fact],
    at: usize,
) -> (r: Work)
    requires
        at <= facts@.len(),
    ensures
        r@ == once_effort(plan@, cig_command@, acl_handle, happened(facts@), at as int),
        r matches Work::Done(_, n) ==> n <= facts@.len(),
{
    let ghost s = happened(facts@);
    if at >= facts.len() {
        return Work::Do(Job::Command(le_remove_cig(plan.cig_id)));
    }
    if facts.len() - at == 1 {
        return Work::Do(Job::Command(copied(cig_command)));
    }
    assert(s[at + 1] == facts@[at + 1]@);
    if let Some(e) = &facts[at + 1].error {
        return Work::Done(Err(e.clone()), at + 2);
    }
    let group = parse_offered(facts[at + 1].bytes.as_slice());
    if group.len() == 0 {
        return Work::Done(Err(SessionError::NoCisEstablished), at + 2);
    }
    if group.len() > MOST_CHANNELS {
        return Work::Done(
            Err(SessionError::IsoPath("too many channels for one request".to_owned())),
            at + 2,
        );
    }
    if facts.len() - at == 2 {
        let pairs = pair_up(group.as_slice(), acl_handle);
        return Work::Do(Job::Command(le_create_cis(pairs.as_slice())));
    }
    assert(s[at + 2] == facts@[at + 2]@);
    if let Some(e) = &facts[at + 2].error {
        let mut text = e.text();
        text.append("; offered channels ");
        push_handles(&mut text, group.as_slice());
        text.append(", ACL handle ");
        push_hex(&mut text, acl_handle as u32, 4);
        assert(text@ =~= refused_text(e@, group@, acl_handle));
        return Work::Done(Err(SessionError::IsoPath(text)), at + 3);
    }
    let (reports, next): (Vec<Event>, usize) = match hear(group.len(), facts, at + 3) {
        Heard::Wait => {
            return Work::Do(Job::AwaitChannel(Duration::from_secs(CIS_ESTABLISH_SECONDS)));
        },
        Heard::Failed(e, n) => {
            return Work::Done(Err(e), n);
        },
        Heard::Over(reports, n) => (reports, n),
    };
    let outcome = judge_group(group.as_slice(), reports.as_slice());
    if outcome.established.len() == 0 {
        if outcome.failed.len() > 0 {
            let (handle, status): (u16, u8) = outcome.failed[0];
            return Work::Done(Err(SessionError::CisFailed { handle, status }), next);
        }
        return Work::Done(Err(SessionError::NoCisEstablished), next);
    }
    let commands = data_path_commands(
        outcome.established.as_slice(),
        plan.playback_channels(),
        plan.microphone_channel(),
    );
    open_paths(commands.as_slice(), outcome, facts, next)
}

// ---------------------------------------------------------------------------
// Attempts
// ---------------------------------------------------------------------------

/// Channels that came up are taken down, one after the other.
pub open spec fn take_down(handles: Seq<u16>, s: Seq<Happened>, at: int) -> Result<int, Task>
    decreases handles.len(),
{
    if handles.len() == 0 {
        Ok(at)
    } else if at >= s.len() {
        Err(Task::Disconnect(handles[0]))
    } else {
        take_down(handles.skip(1), s, at + 1)
    }
}

/// The attempts from number `attempt` on. A complete outcome ends them, and so does
/// the last attempt: what came up in it stays up. Before another attempt whatever
/// came up is taken down, the group is removed, and the radio rests.
pub open spec fn attempts_effort(
    plan: Planned,
    cig_command: Seq<u8>,
    acl_handle: u16,
    s: Seq<Happened>,
    at: int,
    attempt: nat,
) -> Effort
    decreases RADIO_ATTEMPTS - attempt,
{
    match once_effort(plan, cig_command, acl_handle, s, at) {
        Effort::Do(task) => Effort::Do(task),
        Effort::Done(result, n) => {
            let survivors = match result {
                Ok(outcome) => outcome.established,
                Err(_) => Seq::empty(),
            };
            if result is Ok && result->Ok_0.failed.len() == 0 {
                Effort::Done(result, n)
            } else if attempt >= RADIO_ATTEMPTS {
                Effort::Done(result, n)
            } else {
                match take_down(survivors, s, n) {
                    Err(task) => Effort::Do(task),
                    Ok(m) => if m >= s.len() {
                        Effort::Do(
                            Task::Command(command_bytes(LE_REMOVE_CIG, seq![plan.cig_id])),
                        )
                    } else if m + 1 >= s.len() {
                        Effort::Do(Task::Pause(Duration { nanos: 200_000_000 }))
                    } else {
                        attempts_effort(
                            plan,
                            cig_command,
                            acl_handle,
                            s,
                            m + 2,
                            attempt + 1,
                        )
                    },
                }
            }
        },
    }
}

fn establish_attempts(
    plan: &StreamPlan,
    cig_command: &[u8],
    acl_handle: u16,
    facts: &[Fact],
) -> (r: Work)
    ensures
        r@ == attempts_effort(plan@, cig_command@, acl_handle, happened(facts@), 0, 1),
{
    let ghost s = happened(facts@);
    let ghost goal = attempts_effort(plan@, cig_command@, acl_handle, s, 0, 1);
    let mut at: usize = 0;
    let mut attempt: u32 = 1;
    loop
        invariant
            at <= facts@.len(),
            1 <= attempt <= RADIO_ATTEMPTS,
            s == happened(facts@),
            goal == attempts_effort(
                plan@,
                cig_command@,
                acl_handle,
                s,
                at as int,
                attempt as nat,
            ),
            goal == attempts_effort(plan@, cig_command@, acl_handle, happened(facts@), 0, 1),
        decreases RADIO_ATTEMPTS - attempt,
    {
        let (result, used): (Result<CisOutcome, SessionError>, usize) = match establish_once(
            plan,
            cig_command,
            acl_handle,
            facts,
            at,
        ) {
            Work::Do(job) => {
                return Work::Do(job);
            },
            Work::Done(result, used) => (result, used),
        };
        let complete = match &result {
            Ok(outcome) => outcome.complete(),
            Err(_) => false,
        };
        // What came up in the last attempt is the answer, and stays up.
        if complete || attempt >= RADIO_ATTEMPTS {
            return Work::Done(result, used);
        }
        let mut next: usize = used;
        if let Ok(outcome) = &result {
            // The group cannot be rebuilt around a live channel.
            let survivors = copied_words(outcome.established.as_slice());
            let ghost after = take_down(survivors@, s, used as int);
            let mut i: usize = 0;
            assert(survivors@.skip(0) =~= survivors@);
            while i < survivors.len()
                invariant
                    i <= survivors@.len(),
                    next <= facts@.len(),
                    s == happened(facts@),
                    after == take_down(survivors@.skip(i as int), s, next as int),
                    after is Err ==> goal == Effort::Do(after->Err_0),
                    goal == attempts_effort(
                        plan@,
                        cig_command@,
                        acl_handle,
                        happened(facts@),
                        0,
                        1,
                    ),
                decreases survivors@.len() - i,
            {
                assert(survivors@.skip(i as int)[0] == survivors@[i as int]);
                assert(survivors@.skip(i as int).skip(1) =~= survivors@.skip(i + 1));
                if next >= facts.len() {
                    return Work::Do(Job::Disconnect(survivors[i]));
                }
                next += 1;
                i += 1;
            }
            assert(after == Ok::<int, Task>(next as int));
        }
        if next >= facts.len() {
            return Work::Do(Job::Command(le_remove_cig(plan.cig_id)));
        }
        if facts.len() - next == 1 {
            return Work::Do(Job::Pause(Duration::from_millis(REST_MILLIS)));
        }
        at = next + 2;
        attempt += 1;
    }
}

impl Session {
    /// Builds the group and brings the channels up, retrying on the radio alone.
    ///
    /// A failed channel is very often just timing: the same request a moment
    /// later succeeds. Retrying here costs nothing but a round trip, and it
    /// touches only the controller - no GATT, no reconfiguration, nothing the
    /// headphones have to answer. That matters because after a failed channel
    /// this device stops answering ATT for a while, so any recovery that needs to
    /// talk to it times out and turns one bad attempt into a dead session.
    pub fn establish_isochronous(
        &self,
        plan: &StreamPlan,
        cig_command: &[u8],
        acl_handle: u16,
        facts: &[Fact],
    ) -> (r: Work)
        ensures
            r@ == (if self@.is_open {
                attempts_effort(plan@, cig_command@, acl_handle, happened(facts@), 0, 1)
            } else {
                Effort::Done(Err(Trouble::NoDeviceFound), 0)
            }),
    {
        if !self.is_open() {
            return Work::Done(Err(SessionError::NoDeviceFound), 0);
        }
        establish_attempts(plan, cig_command, acl_handle, facts)
    }
}

// ---------------------------------------------------------------------------
// What holds of the attempts
// ---------------------------------------------------------------------------

/// An attempt that left anything down is not the end where another is allowed: if
/// the work ends at all, it ends as the next attempt does.
pub proof fn lemma_partial_outcomes_are_retried(
    plan: Planned,
    cig_command: Seq<u8>,
    acl_handle: u16,
    s: Seq<Happened>,
    at: int,
    attempt: nat,
)
    requires
        0 <= at <= s.len(),
        attempt < RADIO_ATTEMPTS,
        once_effort(plan, cig_command, acl_handle, s, at) matches Effort::Done(result, _) && !(
        result matches Ok(outcome) && outcome.failed.len() == 0),
    ensures
        attempts_effort(plan, cig_command, acl_handle, s, at, attempt) matches Effort::Done(_, m)
            ==> exists|k: int|
            k > at && attempts_effort(plan, cig_command, acl_handle, s, at, attempt)
                == #[trigger] attempts_effort(plan, cig_command, acl_handle, s, k, attempt + 1),
{
    if let Effort::Done(result, n) = once_effort(plan, cig_command, acl_handle, s, at) {
        let survivors = match result {
            Ok(outcome) => outcome.established,
            Err(_) => Seq::empty(),
        };
        lemma_once(plan, cig_command, acl_handle, s, at, at);
        lemma_take_down(survivors, s, n, n);
        if let Ok(m) = take_down(survivors, s, n) {
            if m + 1 < s.len() {
                assert(attempts_effort(plan, cig_command, acl_handle, s, at, attempt)
                    == attempts_effort(plan, cig_command, acl_handle, s, m + 2, attempt + 1));
            }
        }
    }
}

proof fn lemma_commands(
    commands: Seq<Seq<u8>>,
    s: Seq<Happened>,
    at: int,
    outcome: Channels,
    j: int,
)
    requires
        0 <= at <= j <= s.len(),
    ensures
        !(commands_effort(commands, s, at, outcome) matches Effort::Do(Task::Disconnect(_))),
        commands_effort(commands, s, at, outcome) matches Effort::Done(r, n) ==> {
            &&& at <= n <= s.len()
            &&& n <= j ==> commands_effort(commands, s.take(j), at, outcome) == Effort::Done(r, n)
            &&& j < n ==> commands_effort(commands, s.take(j), at, outcome) is Do
        },
    decreases commands.len(),
{
    if commands.len() > 0 && at < s.len() && s[at].error is None {
        if at < j {
            lemma_commands(commands.skip(1), s, at + 1, outcome, j);
        } else {
            lemma_commands(commands.skip(1), s, at + 1, outcome, at + 1);
        }
    }
}

proof fn lemma_hearing(left: nat, heard: Seq<EventView>, s: Seq<Happened>, at: int, j: int)
    requires
        0 <= at <= j <= s.len(),
    ensures
        hearing(left, heard, s, at) matches Hearing::Failed(e, n) ==> {
            &&& at <= n <= s.len()
            &&& n <= j ==> hearing(left, heard, s.take(j), at) == Hearing::Failed(e, n)
            &&& j < n ==> hearing(left, heard, s.take(j), at) is Wait
        },
        hearing(left, heard, s, at) matches Hearing::Over(r, n) ==> {
            &&& at <= n <= s.len()
            &&& n <= j ==> hearing(left, heard, s.take(j), at) == Hearing::Over(r, n)
            &&& j < n ==> hearing(left, heard, s.take(j), at) is Wait
        },
    decreases left,
{
    if left > 0 && at < s.len() && s[at].error is None && spoke_up(s[at]) {
        let longer = heard.push(s[at].events[0]);
        if at < j {
            lemma_hearing((left - 1) as nat, longer, s, at + 1, j);
        } else {
            lemma_hearing((left - 1) as nat, longer, s, at + 1, at + 1);
        }
    }
}

/// An attempt disconnects nothing, and ends as soon as what it needs has happened.
proof fn lemma_once(
    plan: Planned,
    cig_command: Seq<u8>,
    acl_handle: u16,
    s: Seq<Happened>,
    at: int,
    j: int,
)
    requires
        0 <= at <= j <= s.len(),
    ensures
        !(once_effort(plan, cig_command, acl_handle, s, at) matches Effort::Do(
            Task::Disconnect(_),
        )),
        once_effort(plan, cig_command, acl_handle, s, at) matches Effort::Done(r, n) ==> {
            &&& at + 2 <= n <= s.len()
            &&& n <= j ==> once_effort(plan, cig_command, acl_handle, s.take(j), at)
                == Effort::Done(r, n)
            &&& j < n ==> once_effort(plan, cig_command, acl_handle, s.take(j), at) is Do
        },
{
    if at + 3 <= s.len() {
        let group = offered(s[at + 1].bytes);
        let k = if at + 3 <= j {
            j
        } else {
            at + 3
        };
        lemma_hearing(group.len(), Seq::empty(), s, at + 3, k);
        if let Hearing::Over(reports, n) = hearing(group.len(), Seq::empty(), s, at + 3) {
            let outcome = outcome_of(group, reports);
            lemma_commands(
                all_path_commands(
                    outcome.established,
                    outcome.established.len(),
                    plan.playback_channels(),
                    plan.microphone_channel(),
                ),
                s,
                n,
                outcome,
                if n <= j {
                    j
                } else {
                    n
                },
            );
        }
    }
}

proof fn lemma_take_down(handles: Seq<u16>, s: Seq<Happened>, at: int, j: int)
    requires
        0 <= at <= j <= s.len(),
    ensures
        take_down(handles, s, at) matches Ok(n) ==> {
            &&& at <= n <= s.len()
            &&& n <= j ==> take_down(handles, s.take(j), at) == Ok::<int, Task>(n)
        },
    decreases handles.len(),
{
    if handles.len() > 0 && at < s.len() {
        if at < j {
            lemma_take_down(handles.skip(1), s, at + 1, j);
        } else {
            lemma_take_down(handles.skip(1), s, at + 1, at + 1);
        }
    }
}

/// Whether the work, once so many things had happened, was to end a connection.
pub open spec fn disconnects_after(
    plan: Planned,
    cig_command: Seq<u8>,
    acl_handle: u16,
    s: Seq<Happened>,
    at: int,
    attempt: nat,
    j: int,
) -> bool {
    attempts_effort(plan, cig_command, acl_handle, s.take(j), at, attempt) matches Effort::Do(
        Task::Disconnect(_),
    )
}

/// Whatever the answer is, it is what the last attempt came to, and nothing was
/// disconnected since that attempt began: channels in the answer are up.
pub proof fn lemma_channels_in_the_answer_are_up(
    plan: Planned,
    cig_command: Seq<u8>,
    acl_handle: u16,
    s: Seq<Happened>,
    at: int,
    attempt: nat,
)
    requires
        0 <= at <= s.len(),
    ensures
        attempts_effort(plan, cig_command, acl_handle, s, at, attempt) matches Effort::Done(
            result,
            n,
        ) ==> exists|k: int|
            {
                &&& at <= k <= n <= s.len()
                &&& #[trigger] once_effort(plan, cig_command, acl_handle, s, k) == Effort::Done(
                    result,
                    n,
                )
                &&& forall|j: int|
                    k <= j <= n ==> !#[trigger] disconnects_after(
                        plan,
                        cig_command,
                        acl_handle,
                        s,
                        at,
                        attempt,
                        j,
                    )
            },
    decreases RADIO_ATTEMPTS - attempt,
{
    lemma_once(plan, cig_command, acl_handle, s, at, at);
    if let Effort::Done(result, n) = once_effort(plan, cig_command, acl_handle, s, at) {
        let complete = result is Ok && result->Ok_0.failed.len() == 0;
        if complete || attempt >= RADIO_ATTEMPTS {
            assert forall|j: int| at <= j <= n implies !#[trigger] disconnects_after(
                plan,
                cig_command,
                acl_handle,
                s,
                at,
                attempt,
                j,
            ) by {
                lemma_once(plan, cig_command, acl_handle, s, at, j);
                lemma_once(plan, cig_command, acl_handle, s.take(j), at, j);
            }
        } else {
            let survivors = match result {
                Ok(outcome) => outcome.established,
                Err(_) => Seq::empty(),
            };
            lemma_take_down(survivors, s, n, n);
            if let Ok(m) = take_down(survivors, s, n) {
                if m + 1 < s.len() {
                    lemma_channels_in_the_answer_are_up(
                        plan,
                        cig_command,
                        acl_handle,
                        s,
                        m + 2,
                        attempt + 1,
                    );
                    let rest = attempts_effort(
                        plan,
                        cig_command,
                        acl_handle,
                        s,
                        m + 2,
                        attempt + 1,
                    );
                    if let Effort::Done(last, used) = rest {
                        let k = choose|k: int|
                            {
                                &&& m + 2 <= k <= used <= s.len()
                                &&& #[trigger] once_effort(plan, cig_command, acl_handle, s, k)
                                    == Effort::Done(last, used)
                                &&& forall|j: int|
                                    k <= j <= used ==> !#[trigger] disconnects_after(
                                        plan,
                                        cig_command,
                                        acl_handle,
                                        s,
                                        m + 2,
                                        attempt + 1,
                                        j,
                                    )
                            };
                        assert forall|j: int|
                            k <= j <= used implies !#[trigger] disconnects_after(
                            plan,
                            cig_command,
                            acl_handle,
                            s,
                            at,
                            attempt,
                            j,
                        ) by {
                            lemma_once(plan, cig_command, acl_handle, s, at, j);
                            lemma_take_down(survivors, s, n, j);
                            assert(!disconnects_after(
                                plan,
                                cig_command,
                                acl_handle,
                                s,
                                m + 2,
                                attempt + 1,
                                j,
                            ));
                        }
                    }
                }
            }
        }
    }
}

// ---------------------------------------------------------------------------
// What was done when channels came up
// ---------------------------------------------------------------------------

/// Whether a command was done as the step after so many others, and succeeded.
pub open spec fn did(
    plan: Planned,
    cig_command: Seq<u8>,
    acl_handle: u16,
    s: Seq<Happened>,
    at: int,
    attempt: nat,
    j: int,
    command: Seq<u8>,
) -> bool {
    &&& 0 <= j < s.len()
    &&& s[j].error is None
    &&& attempts_effort(plan, cig_command, acl_handle, s.take(j), at, attempt) == Effort::Do(
        Task::Command(command),
    )
}

/// LE Setup ISO Data Path for a channel, byte by byte: towards the headphones in
/// direction 0, from them in direction 1, over HCI, with the codec left alone.
pub open spec fn opens_path(command: Seq<u8>, handle: u16, direction: u8) -> bool {
    &&& command.len() == 16
    &&& command[0] == 0x6E && command[1] == 0x20 && command[2] == 13
    &&& command[3] as int + 256 * (command[4] as int) == handle
    &&& command[5] == direction
    &&& command[6] == 0
    &&& command[7] == 0x03
    &&& forall|i: int| 8 <= i < 16 ==> #[trigger] command[i] == 0
}

proof fn lemma_path_is_opened(handle: u16, direction: u8)
    ensures
        opens_path(
            command_bytes(LE_SETUP_ISO_DATA_PATH, iso_path_params(handle, direction, 0)),
            handle,
            direction,
        ),
{
    let params = iso_path_params(handle, direction, 0);
    assert(params.len() == 13);
    let c = command_bytes(LE_SETUP_ISO_DATA_PATH, params);
    assert(c[0] == 0x6E && c[1] == 0x20);
    assert(c[3] == params[0] && c[4] == params[1] && c[5] == params[2] && c[6] == params[3]);
    assert(c[7] == params[4]);
    assert forall|i: int| 8 <= i < 16 implies #[trigger] c[i] == 0 by {
        assert(c[i] == params[i - 3]);
    }
}

proof fn lemma_commands_were_done(
    commands: Seq<Seq<u8>>,
    s: Seq<Happened>,
    at: int,
    outcome: Channels,
    p: int,
)
    requires
        0 <= at <= s.len(),
        0 <= p < commands.len(),
        commands_effort(commands, s, at, outcome) matches Effort::Done(Ok(_), _),
    ensures
        commands_effort(commands, s, at, outcome) == Effort::Done(
            Ok(outcome),
            at + commands.len(),
        ),
        at + commands.len() <= s.len(),
        s[at + p].error is None,
        commands_effort(commands, s.take(at + p), at, outcome) == Effort::Do(
            Task::Command(commands[p]),
        ),
    decreases commands.len(),
{
    let rest = commands.skip(1);
    assert(at < s.len() && s[at].error is None);
    if commands.len() > 1 {
        if p > 0 {
            lemma_commands_were_done(rest, s, at + 1, outcome, p - 1);
            assert(at + 1 + (p - 1) == at + p);
            assert(s.take(at + p)[at] == s[at]);
            assert(rest[p - 1] == commands[p]);
        } else {
            lemma_commands_were_done(rest, s, at + 1, outcome, 0);
        }
    } else {
        assert(commands_effort(rest, s, at + 1, outcome) == Effort::Done(Ok(outcome), at + 1));
    }
}

proof fn lemma_path_is_listed(
    established: Seq<u16>,
    n: nat,
    playback_channels: int,
    microphone: Option<int>,
    i: int,
)
    requires
        0 <= i < n <= established.len(),
    ensures
        i < playback_channels ==> all_path_commands(
            established,
            n,
            playback_channels,
            microphone,
        ).contains(
            command_bytes(
                LE_SETUP_ISO_DATA_PATH,
                iso_path_params(established[i], ISO_PATH_INPUT, 0),
            ),
        ),
        microphone == Some(i) ==> all_path_commands(
            established,
            n,
            playback_channels,
            microphone,
        ).contains(
            command_bytes(
                LE_SETUP_ISO_DATA_PATH,
                iso_path_params(established[i], ISO_PATH_OUTPUT, 0),
            ),
        ),
    decreases n,
{
    let all = all_path_commands(established, n, playback_channels, microphone);
    let front = all_path_commands(established, (n - 1) as nat, playback_channels, microphone);
    let own = path_commands(established[n - 1], n - 1, playback_channels, microphone);
    let toward = command_bytes(
        LE_SETUP_ISO_DATA_PATH,
        iso_path_params(established[i], ISO_PATH_INPUT, 0),
    );
    let back = command_bytes(
        LE_SETUP_ISO_DATA_PATH,
        iso_path_params(established[i], ISO_PATH_OUTPUT, 0),
    );
    if i < n - 1 {
        lemma_path_is_listed(established, (n - 1) as nat, playback_channels, microphone, i);
        if i < playback_channels {
            let k = choose|k: int| 0 <= k < front.len() && front[k] == toward;
            assert(all[k] == toward);
        }
        if microphone == Some(i) {
            let k = choose|k: int| 0 <= k < front.len() && front[k] == back;
            assert(all[k] == back);
        }
    } else {
        if i < playback_channels {
            assert(own[0] == toward);
            assert(all[front.len() as int] == toward);
        }
        if microphone == Some(i) {
            assert(own.last() == back);
            assert(all[front.len() + own.len() - 1] == back);
        }
    }
}

proof fn lemma_listed_is_path(
    established: Seq<u16>,
    n: nat,
    playback_channels: int,
    microphone: Option<int>,
    p: int,
)
    requires
        n <= established.len(),
        0 <= p < all_path_commands(established, n, playback_channels, microphone).len(),
    ensures
        exists|i: int|
            0 <= i < n && {
                ||| i < playback_channels && opens_path(
                    all_path_commands(established, n, playback_channels, microphone)[p],
                    #[trigger] established[i],
                    0,
                )
                ||| microphone == Some(i) && opens_path(
                    all_path_commands(established, n, playback_channels, microphone)[p],
                    established[i],
                    1,
                )
            },
    decreases n,
{
    let all = all_path_commands(established, n, playback_channels, microphone);
    let front = all_path_commands(established, (n - 1) as nat, playback_channels, microphone);
    let own = path_commands(established[n - 1], n - 1, playback_channels, microphone);
    if p < front.len() {
        lemma_listed_is_path(established, (n - 1) as nat, playback_channels, microphone, p);
        assert(all[p] == front[p]);
    } else {
        assert(all[p] == own[p - front.len()]);
        lemma_path_is_opened(established[n - 1], 0);
        lemma_path_is_opened(established[n - 1], 1);
        assert(established[n - 1] == established[n - 1]);
    }
}

/// Where the path commands of a successful attempt begin, and what the channels are.
proof fn lemma_success_in_parts(
    plan: Planned,
    cig_command: Seq<u8>,
    acl_handle: u16,
    s: Seq<Happened>,
    at: int,
) -> (r: (Seq<EventView>, int))
    requires
        0 <= at <= s.len(),
        once_effort(plan, cig_command, acl_handle, s, at) matches Effort::Done(Ok(_), _),
    ensures
        at + 3 <= r.1 <= s.len(),
        s[at + 1].error is None,
        s[at + 2].error is None,
        0 < offered(s[at + 1].bytes).len() <= MOST_CHANNELS,
        hearing(offered(s[at + 1].bytes).len(), Seq::empty(), s, at + 3) == Hearing::Over(r.0, r.1),
        ({
            let outcome = outcome_of(offered(s[at + 1].bytes), r.0);
            let commands = all_path_commands(
                outcome.established,
                outcome.established.len(),
                plan.playback_channels(),
                plan.microphone_channel(),
            );
            &&& outcome.established.len() > 0
            &&& once_effort(plan, cig_command, acl_handle, s, at) == Effort::Done(
                Ok(outcome),
                r.1 + commands.len(),
            )
            &&& r.1 + commands.len() <= s.len()
            &&& forall|p: int|
                0 <= p < commands.len() ==> {
                    &&& (#[trigger] s[r.1 + p]).error is None
                    &&& once_effort(plan, cig_command, acl_handle, s.take(r.1 + p), at)
                        == Effort::Do(Task::Command(commands[p]))
                }
        }),
{
    let group = offered(s[at + 1].bytes);
    lemma_once(plan, cig_command, acl_handle, s, at, at);
    lemma_hearing(group.len(), Seq::empty(), s, at + 3, at + 3);
    let (reports, n) = match hearing(group.len(), Seq::empty(), s, at + 3) {
        Hearing::Over(reports, n) => (reports, n),
        _ => (Seq::empty(), at),
    };
    let outcome = outcome_of(group, reports);
    let commands = all_path_commands(
        outcome.established,
        outcome.established.len(),
        plan.playback_channels(),
        plan.microphone_channel(),
    );
    assert forall|p: int| 0 <= p < commands.len() implies {
        &&& (#[trigger] s[n + p]).error is None
        &&& once_effort(plan, cig_command, acl_handle, s.take(n + p), at) == Effort::Do(
            Task::Command(commands[p]),
        )
    } by {
        lemma_commands_were_done(commands, s, n, outcome, p);
        lemma_hearing(group.len(), Seq::empty(), s, at + 3, n + p);
        let t = s.take(n + p);
        assert(t[at] == s[at] && t[at + 1] == s[at + 1] && t[at + 2] == s[at + 2]);
    }
    if commands.len() > 0 {
        lemma_commands_were_done(commands, s, n, outcome, 0);
    }
    (reports, n)
}

/// What an attempt does, the whole work does while that attempt is under way.
proof fn lemma_attempt_is_the_work(
    plan: Planned,
    cig_command: Seq<u8>,
    acl_handle: u16,
    s: Seq<Happened>,
    at: int,
    attempt: nat,
) -> (k: int)
    requires
        0 <= at <= s.len(),
        attempts_effort(plan, cig_command, acl_handle, s, at, attempt) is Done,
    ensures
        at <= k <= s.len(),
        once_effort(plan, cig_command, acl_handle, s, k) == attempts_effort(
            plan,
            cig_command,
            acl_handle,
            s,
            at,
            attempt,
        ),
        forall|j: int|
            k <= j <= s.len() && once_effort(plan, cig_command, acl_handle, s.take(j), k) is Do
                ==> #[trigger] attempts_effort(
                plan,
                cig_command,
                acl_handle,
                s.take(j),
                at,
                attempt,
            ) == once_effort(plan, cig_command, acl_handle, s.take(j), k),
    decreases RADIO_ATTEMPTS - attempt,
{
    lemma_once(plan, cig_command, acl_handle, s, at, at);
    if let Effort::Done(result, n) = once_effort(plan, cig_command, acl_handle, s, at) {
        let complete = result is Ok && result->Ok_0.failed.len() == 0;
        if complete || attempt >= RADIO_ATTEMPTS {
            at
        } else {
            let survivors = match result {
                Ok(outcome) => outcome.established,
                Err(_) => Seq::empty(),
            };
            lemma_take_down(survivors, s, n, n);
            let m = match take_down(survivors, s, n) {
                Ok(m) => m,
                Err(_) => n,
            };
            let k = lemma_attempt_is_the_work(
                plan,
                cig_command,
                acl_handle,
                s,
                m + 2,
                attempt + 1,
            );
            assert forall|j: int|
                k <= j <= s.len() && once_effort(
                    plan,
                    cig_command,
                    acl_handle,
                    s.take(j),
                    k,
                ) is Do implies #[trigger] attempts_effort(
                plan,
                cig_command,
                acl_handle,
                s.take(j),
                at,
                attempt,
            ) == once_effort(plan, cig_command, acl_handle, s.take(j), k) by {
                lemma_once(plan, cig_command, acl_handle, s, at, j);
                lemma_take_down(survivors, s, n, j);
                assert(attempts_effort(
                    plan,
                    cig_command,
                    acl_handle,
                    s.take(j),
                    m + 2,
                    attempt + 1,
                ) == once_effort(plan, cig_command, acl_handle, s.take(j), k));
            }
            k
        }
    } else {
        at
    }
}

/// No ear is left without sound: when bringing channels up ends in success, the path
/// towards the headphones was opened for every channel that carries playback, and the
/// path from them for the channel of the microphone.
pub proof fn lemma_every_channel_has_its_data_path(
    plan: Planned,
    cig_command: Seq<u8>,
    acl_handle: u16,
    s: Seq<Happened>,
    at: int,
    attempt: nat,
    i: int,
)
    requires
        0 <= at <= s.len(),
        attempts_effort(plan, cig_command, acl_handle, s, at, attempt) matches Effort::Done(
            Ok(outcome),
            _,
        ) && 0 <= i < outcome.established.len(),
    ensures
        attempts_effort(plan, cig_command, acl_handle, s, at, attempt) matches Effort::Done(
            Ok(outcome),
            n,
        ) && {
            &&& plan.playback_enabled && i < plan.ase_ids.len() ==> exists|j: int, c: Seq<u8>|
                {
                    &&& at <= j < n
                    &&& #[trigger] did(plan, cig_command, acl_handle, s, at, attempt, j, c)
                    &&& opens_path(c, outcome.established[i], 0)
                }
            &&& plan.microphone is Some && plan.microphone->0.cis_id == i ==> exists|
                j: int,
                c: Seq<u8>,
            |
                {
                    &&& at <= j < n
                    &&& #[trigger] did(plan, cig_command, acl_handle, s, at, attempt, j, c)
                    &&& opens_path(c, outcome.established[i], 1)
                }
        },
{
    let k = lemma_attempt_is_the_work(plan, cig_command, acl_handle, s, at, attempt);
    let (reports, n) = lemma_success_in_parts(plan, cig_command, acl_handle, s, k);
    let outcome = outcome_of(offered(s[k + 1].bytes), reports);
    let established = outcome.established;
    let commands = all_path_commands(
        established,
        established.len(),
        plan.playback_channels(),
        plan.microphone_channel(),
    );
    lemma_path_is_listed(
        established,
        established.len(),
        plan.playback_channels(),
        plan.microphone_channel(),
        i,
    );
    lemma_path_is_opened(established[i], 0);
    lemma_path_is_opened(established[i], 1);
    if plan.playback_enabled && i < plan.ase_ids.len() {
        let c = command_bytes(
            LE_SETUP_ISO_DATA_PATH,
            iso_path_params(established[i], ISO_PATH_INPUT, 0),
        );
        let p = choose|p: int| 0 <= p < commands.len() && commands[p] == c;
        assert(s[n + p].error is None);
        assert(did(plan, cig_command, acl_handle, s, at, attempt, n + p, c));
    }
    if plan.microphone is Some && plan.microphone->0.cis_id == i {
        let c = command_bytes(
            LE_SETUP_ISO_DATA_PATH,
            iso_path_params(established[i], ISO_PATH_OUTPUT, 0),
        );
        let p = choose|p: int| 0 <= p < commands.len() && commands[p] == c;
        assert(s[n + p].error is None);
        assert(did(plan, cig_command, acl_handle, s, at, attempt, n + p, c));
    }
}

/// Whether a command opens a path that a stream uses.
pub open spec fn is_wanted_path(plan: Planned, established: Seq<u16>, c: Seq<u8>) -> bool {
    exists|i: int|
        0 <= i < established.len() && {
            ||| plan.playback_enabled && i < plan.ase_ids.len() && opens_path(
                c,
                #[trigger] established[i],
                0,
            )
            ||| plan.microphone is Some && plan.microphone->0.cis_id == i && opens_path(
                c,
                established[i],
                1,
            )
        }
}

/// No path is opened that nothing uses: once the channels have reported, all that a
/// successful attempt still does is open paths, towards the headphones for channels
/// that carry playback and from them for that of the microphone.
pub proof fn lemma_no_other_path_is_opened(
    plan: Planned,
    cig_command: Seq<u8>,
    acl_handle: u16,
    s: Seq<Happened>,
    at: int,
    j: int,
    c: Seq<u8>,
)
    requires
        0 <= at <= s.len(),
        once_effort(plan, cig_command, acl_handle, s, at) matches Effort::Done(Ok(_), n) && at + 3
            <= j < n,
        once_effort(plan, cig_command, acl_handle, s.take(j), at) == Effort::Do(Task::Command(c)),
    ensures
        is_wanted_path(
            plan,
            (once_effort(plan, cig_command, acl_handle, s, at)->Done_0)->Ok_0.established,
            c,
        ),
{
    let (reports, m) = lemma_success_in_parts(plan, cig_command, acl_handle, s, at);
    let group = offered(s[at + 1].bytes);
    let established = outcome_of(group, reports).established;
    lemma_hearing(group.len(), Seq::empty(), s, at + 3, j);
    let t = s.take(j);
    assert(t[at] == s[at] && t[at + 1] == s[at + 1] && t[at + 2] == s[at + 2]);
    assert(j >= m);
    let p = j - m;
    assert(s[m + p] == s[j]);
    let commands = all_path_commands(
        established,
        established.len(),
        plan.playback_channels(),
        plan.microphone_channel(),
    );
    assert(0 <= p < commands.len());
    assert(s[m + p].error is None);
    assert(c == commands[p]);
    lemma_listed_is_path(
        established,
        established.len(),
        plan.playback_channels(),
        plan.microphone_channel(),
        p,
    );
    let i = choose|i: int|
        0 <= i < established.len() && {
            ||| i < plan.playback_channels() && opens_path(c, #[trigger] established[i], 0)
            ||| plan.microphone_channel() == Some(i) && opens_path(c, established[i], 1)
        };
    assert(established[i] == established[i]);
}

/// LE Create CIS for a group, byte by byte: each channel with the connection that it
/// belongs to.
pub open spec fn asks_for(command: Seq<u8>, group: Seq<u16>, acl_handle: u16) -> bool {
    &&& command.len() == 4 + 4 * group.len()
    &&& command[0] == 0x64 && command[1] == 0x20
    &&& command[2] == 1 + 4 * group.len()
    &&& command[3] == group.len()
    &&& forall|i: int|
        0 <= i < group.len() ==> {
            &&& command[4 + 4 * i] as int + 256 * (command[5 + 4 * i] as int)
                == #[trigger] group[i]
            &&& command[6 + 4 * i] as int + 256 * (command[7 + 4 * i] as int) == acl_handle
        }
}

proof fn lemma_pair_bytes(group: Seq<u16>, acl_handle: u16)
    ensures
        pair_bytes(paired(group, acl_handle)).len() == 4 * group.len(),
        forall|i: int|
            0 <= i < group.len() ==> {
                let b = pair_bytes(paired(group, acl_handle));
                &&& b[4 * i] as int + 256 * (b[4 * i + 1] as int) == #[trigger] group[i]
                &&& b[4 * i + 2] as int + 256 * (b[4 * i + 3] as int) == acl_handle
            },
    decreases group.len(),
{
    if group.len() > 0 {
        let front = group.drop_last();
        lemma_pair_bytes(front, acl_handle);
        assert(paired(group, acl_handle).drop_last() =~= paired(front, acl_handle));
        let b = pair_bytes(paired(group, acl_handle));
        let f = pair_bytes(paired(front, acl_handle));
        assert forall|i: int| 0 <= i < group.len() implies {
            &&& b[4 * i] as int + 256 * (b[4 * i + 1] as int) == #[trigger] group[i]
            &&& b[4 * i + 2] as int + 256 * (b[4 * i + 3] as int) == acl_handle
        } by {
            if i < front.len() {
                assert(front[i] == group[i]);
                assert(b[4 * i] == f[4 * i] && b[4 * i + 1] == f[4 * i + 1]);
                assert(b[4 * i + 2] == f[4 * i + 2] && b[4 * i + 3] == f[4 * i + 3]);
            }
        }
    }
}

proof fn lemma_asks_for(group: Seq<u16>, acl_handle: u16)
    requires
        group.len() <= MOST_CHANNELS,
    ensures
        asks_for(
            command_bytes(
                LE_CREATE_CIS,
                seq![group.len() as u8] + pair_bytes(paired(group, acl_handle)),
            ),
            group,
            acl_handle,
        ),
{
    lemma_pair_bytes(group, acl_handle);
    let b = pair_bytes(paired(group, acl_handle));
    let tail = seq![group.len() as u8] + b;
    let c = command_bytes(LE_CREATE_CIS, tail);
    assert(tail.len() == 1 + 4 * group.len());
    assert(c[0] == 0x64 && c[1] == 0x20);
    assert(c[3] == tail[0]);
    assert forall|i: int| 0 <= i < group.len() implies {
        &&& c[4 + 4 * i] as int + 256 * (c[5 + 4 * i] as int) == #[trigger] group[i]
        &&& c[6 + 4 * i] as int + 256 * (c[7 + 4 * i] as int) == acl_handle
    } by {
        assert(c[4 + 4 * i] == b[4 * i] && c[5 + 4 * i] == b[4 * i + 1]);
        assert(c[6 + 4 * i] == b[4 * i + 2] && c[7 + 4 * i] == b[4 * i + 3]);
    }
}

proof fn lemma_names(answer: Seq<u8>)
    requires
        offered(answer).len() > 0,
    ensures
        names(answer, offered(answer)),
{
}

/// The channel handles in an answer of the controller, byte by byte.
pub open spec fn names(answer: Seq<u8>, group: Seq<u16>) -> bool {
    &&& answer.len() >= 3
    &&& group.len() <= answer[2]
    &&& answer.len() >= 3 + 2 * group.len()
    &&& group.len() == answer[2] || answer.len() < 3 + 2 * (group.len() + 1)
    &&& forall|i: int|
        0 <= i < group.len() ==> answer[3 + 2 * i] as int + 256 * (answer[4 + 2 * i] as int)
            == #[trigger] group[i]
}

/// Success is earned: the leftover group was removed first and the new one created, all
/// the channels that the controller then named were asked for in one request over the
/// connection, and every channel that is said to be up was reported to be up, in one
/// of the waits that followed.
#[verifier::rlimit(40)]
#[verifier::spinoff_prover]
pub proof fn lemma_success_is_earned(
    plan: Planned,
    cig_command: Seq<u8>,
    acl_handle: u16,
    s: Seq<Happened>,
    at: int,
    attempt: nat,
)
    requires
        0 <= at <= s.len(),
        attempts_effort(plan, cig_command, acl_handle, s, at, attempt) matches Effort::Done(
            Ok(_),
            _,
        ),
    ensures
        attempts_effort(plan, cig_command, acl_handle, s, at, attempt) matches Effort::Done(
            Ok(outcome),
            n,
        ) && exists|k: int, group: Seq<u16>, c: Seq<u8>|
            {
                &&& at <= k && k + 3 <= n <= s.len()
                &&& attempts_effort(plan, cig_command, acl_handle, s.take(k), at, attempt)
                    == Effort::Do(Task::Command(seq![0x65u8, 0x20, 1, plan.cig_id]))
                &&& did(plan, cig_command, acl_handle, s, at, attempt, k + 1, cig_command)
                &&& #[trigger] names(s[k + 1].bytes, group)
                &&& did(plan, cig_command, acl_handle, s, at, attempt, k + 2, c)
                &&& #[trigger] asks_for(c, group, acl_handle)
                &&& outcome.established.len() > 0
                &&& forall|h: u16| #[trigger]
                    outcome.established.contains(h) ==> exists|j: int|
                        k + 3 <= j < n && #[trigger] says_up(s[j], h)
                &&& forall|g: int|
                    0 <= g < group.len() ==> outcome.established.contains(#[trigger] group[g])
                        || exists|f: int|
                        0 <= f < outcome.failed.len() && (#[trigger] outcome.failed[f]).0
                            == group[g]
            },
{
    let k = lemma_attempt_is_the_work(plan, cig_command, acl_handle, s, at, attempt);
    let (reports, m) = lemma_success_in_parts(plan, cig_command, acl_handle, s, k);
    let group = offered(s[k + 1].bytes);
    let outcome = outcome_of(group, reports);
    let first = s.take(k);
    let second = s.take(k + 1);
    let third = s.take(k + 2);
    assert(once_effort(plan, cig_command, acl_handle, first, k) is Do);
    assert(seq![0x65u8, 0x20, 1, plan.cig_id] =~= command_bytes(LE_REMOVE_CIG, seq![plan.cig_id]));
    assert(once_effort(plan, cig_command, acl_handle, second, k) == Effort::Do(
        Task::Command(cig_command),
    ));
    assert(did(plan, cig_command, acl_handle, s, at, attempt, k + 1, cig_command));
    let c = command_bytes(
        LE_CREATE_CIS,
        seq![group.len() as u8] + pair_bytes(paired(group, acl_handle)),
    );
    assert(third[k + 1] == s[k + 1]);
    assert(once_effort(plan, cig_command, acl_handle, third, k) == Effort::Do(Task::Command(c)));
    assert(did(plan, cig_command, acl_handle, s, at, attempt, k + 2, c));
    lemma_asks_for(group, acl_handle);
    lemma_names(s[k + 1].bytes);
    lemma_every_channel_is_accounted_for(group, reports);
    assert forall|h: u16| #[trigger] outcome.established.contains(h) implies exists|j: int|
        k + 3 <= j < m && #[trigger] says_up(s[j], h) by {
        lemma_up_was_reported(group, reports, h);
        let q = choose|q: int| 0 <= q < reports.len() && reported_up(#[trigger] reports[q], h);
        lemma_reports_were_heard(group.len(), Seq::empty(), s, k + 3);
        assert(reports[0 + q] == s[k + 3 + q].events[0]);
        assert(says_up(s[k + 3 + q], h));
    }
    assert forall|g: int| 0 <= g < group.len() implies outcome.established.contains(
        #[trigger] group[g],
    ) || exists|f: int|
        0 <= f < outcome.failed.len() && (#[trigger] outcome.failed[f]).0 == group[g] by {
        assert(crate::cis::has_spoken(outcome, group[g]));
    }
    assert(names(s[k + 1].bytes, group) && asks_for(c, group, acl_handle));
}

/// Whether a wait ended with the report that a channel is up.
pub open spec fn says_up(f: Happened, handle: u16) -> bool {
    f.error is None && f.events.len() > 0 && reported_up(f.events[0], handle)
}

/// The reports are those that came, one to a wait, in their order; waiting goes on for
/// as long as reports come and are missing.
pub proof fn lemma_reports_were_heard(left: nat, heard: Seq<EventView>, s: Seq<Happened>, at: int)
    requires
        0 <= at <= s.len(),
    ensures
        hearing(left, heard, s, at) matches Hearing::Over(reports, n) ==> {
            &&& heard.len() <= reports.len() <= heard.len() + left
            &&& reports.take(heard.len() as int) == heard
            &&& at + (reports.len() - heard.len()) <= n <= s.len()
            &&& forall|q: int|
                0 <= q < reports.len() - heard.len() ==> {
                    &&& (#[trigger] s[at + q]).error is None
                    &&& s[at + q].events.len() > 0
                    &&& reports[heard.len() + q] == s[at + q].events[0]
                }
            &&& reports.len() < heard.len() + left ==> n == at + (reports.len() - heard.len()) + 1
                && s[n - 1].error is None && !spoke_up(s[n - 1])
        },
    decreases left,
{
    if left == 0 {
        assert(heard.take(heard.len() as int) =~= heard);
    } else if at < s.len() && s[at].error is None {
        if spoke_up(s[at]) {
            let longer = heard.push(s[at].events[0]);
            lemma_reports_were_heard((left - 1) as nat, longer, s, at + 1);
            if let Hearing::Over(reports, n) = hearing(left, heard, s, at) {
                assert(reports.take(longer.len() as int) == longer);
                assert(reports.take(heard.len() as int) =~= longer.take(heard.len() as int));
                assert(longer.take(heard.len() as int) =~= heard);
                assert(reports[heard.len() as int] == reports.take(longer.len() as int)[
                    heard.len() as int
                ]);
                assert forall|q: int| 0 <= q < reports.len() - heard.len() implies {
                    &&& (#[trigger] s[at + q]).error is None
                    &&& s[at + q].events.len() > 0
                    &&& reports[heard.len() + q] == s[at + q].events[0]
                } by {
                    if q > 0 {
                        assert(s[at + 1 + (q - 1)].error is None);
                        assert(reports[longer.len() + (q - 1)] == s[at + 1 + (q - 1)].events[0]);
                    }
                }
            }
        } else {
            assert(heard.take(heard.len() as int) =~= heard);
        }
    }
}

/// A group cannot be built around a live channel: before another attempt, every
/// channel that came up in the last one was disconnected.
pub proof fn lemma_survivors_are_taken_down(handles: Seq<u16>, s: Seq<Happened>, at: int, i: int)
    requires
        0 <= at <= s.len(),
        take_down(handles, s, at) is Ok,
        0 <= i < handles.len(),
    ensures
        take_down(handles, s, at) == Ok::<int, Task>(at + handles.len()),
        at + handles.len() <= s.len(),
        take_down(handles, s.take(at + i), at) == Err::<int, Task>(Task::Disconnect(handles[i])),
    decreases handles.len(),
{
    let rest = handles.skip(1);
    if rest.len() > 0 {
        if i > 0 {
            lemma_survivors_are_taken_down(rest, s, at + 1, i - 1);
            assert(at + 1 + (i - 1) == at + i);
            assert(rest[i - 1] == handles[i]);
        } else {
            lemma_survivors_are_taken_down(rest, s, at + 1, 0);
        }
    } else {
        assert(take_down(rest, s, at + 1) == Ok::<int, Task>(at + 1));
    }
}

/// A complete group is never torn down, and a channel that fails is not given up at
/// once: there are three attempts, and no more.
pub proof fn lemma_three_attempts(
    plan: Planned,
    cig_command: Seq<u8>,
    acl_handle: u16,
    s: Seq<Happened>,
    at: int,
    attempt: nat,
)
    ensures
        ({
            let once = once_effort(plan, cig_command, acl_handle, s, at);
            let work = attempts_effort(plan, cig_command, acl_handle, s, at, attempt);
            match once {
                Effort::Do(_) => work == once,
                Effort::Done(result, n) => {
                    let up = match result {
                        Ok(outcome) => outcome.established.len() as int,
                        Err(_) => 0,
                    };
                    if attempt >= 3 || (result is Ok && result->Ok_0.failed.len() == 0) {
                        work == once
                    } else {
                        n + up + 2 <= s.len() ==> work == attempts_effort(
                            plan,
                            cig_command,
                            acl_handle,
                            s,
                            n + up + 2,
                            attempt + 1,
                        )
                    }
                },
            }
        }),
{
    if let Effort::Done(result, n) = once_effort(plan, cig_command, acl_handle, s, at) {
        let survivors = match result {
            Ok(outcome) => outcome.established,
            Err(_) => Seq::empty(),
        };
        lemma_all_taken_down(survivors, s, n);
    }
}

proof fn lemma_all_taken_down(handles: Seq<u16>, s: Seq<Happened>, at: int)
    ensures
        at + handles.len() <= s.len() ==> take_down(handles, s, at) == Ok::<int, Task>(
            at + handles.len(),
        ),
    decreases handles.len(),
{
    if handles.len() > 0 {
        lemma_all_taken_down(handles.skip(1), s, at + 1);
    }
}

} // verus!
