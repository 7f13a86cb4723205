//! Keeping a device connected for as long as the policy allows.
//!
//! One loop covers three things: the first attempt, an attempt that fell over
//! during stream setup, and a link that dropped after playing happily for an hour.

use vstd::prelude::*;

use crate::agent::message::{lines, log, nothing, say, Line, Message};
use crate::agent::state::{remains_of, let_go, target_of, Agent, Standing, Teardown};
use crate::agent::tuning::{can_be_held, refreshed};
use crate::device::{DiscoveredDevice, Heard};
use crate::hci::{disconnect_reason, reason_text};
use crate::reconnect::ReconnectPolicy;
use crate::session::SessionState;
use crate::settings::Settings;
use crate::text::{phrase, sentence};
use crate::time::Duration;

verus! {

/// How long the controller listens on the first attempt: someone has just pressed
/// Connect and the headphones are in their hand.
pub const FIRST_WINDOW_NANOS: u128 = 15_000_000_000;

/// How long the wait before the second attempt is.
pub const SECOND_TRY_NANOS: u128 = 600_000_000;

/// How long the wait is before an attempt to reach a peer that did not answer.
pub const SHORT_PAUSE_NANOS: u128 = 400_000_000;

/// Attempts to connect to one device, and to stay connected.
#[derive(Debug)]
pub struct Retry {
    address: String,
    device: DiscoveredDevice,
    /// What "current" means for this connection. Anything that raises it ends the
    /// loop at the next opportunity.
    started_in: u64,
    attempt: u32,
    /// When contact was lost.
    since: Duration,
    policy: ReconnectPolicy,
}

/// What is known of attempts to connect.
pub struct Quest {
    pub address: Seq<char>,
    pub device: Heard,
    pub started_in: u64,
    pub attempt: u32,
    pub since: Duration,
    pub policy: ReconnectPolicy,
}

impl View for Retry {
    type V = Quest;

    closed spec fn view(&self) -> Quest {
        Quest {
            address: self.address@,
            device: self.device@,
            started_in: self.started_in,
            attempt: self.attempt,
            since: self.since,
            policy: self.policy,
        }
    }
}

/// What comes next.
#[derive(Debug)]
pub enum Next {
    /// Try to connect, and listen for the peer for this long.
    Attempt { already_paired: bool, window: Duration },
    /// Wait, unless something else is asked for. A quiet wait that is cut short
    /// needs no words.
    Wait { pause: Duration, quiet: bool },
    Finished(Result<(), String>),
}

/// What comes next, whatever holds it.
pub enum Course {
    Attempt { already_paired: bool, window: Duration },
    Wait { pause: Duration, quiet: bool },
    Finished(Result<(), Seq<char>>),
}

impl View for Next {
    type V = Course;

    open spec fn view(&self) -> Course {
        match self {
            Next::Attempt { already_paired, window } => Course::Attempt {
                already_paired: *already_paired,
                window: *window,
            },
            Next::Wait { pause, quiet } => Course::Wait { pause: *pause, quiet: *quiet },
            Next::Finished(result) => Course::Finished(
                match result {
                    Ok(()) => Ok(()),
                    Err(t) => Err(t@),
                },
            ),
        }
    }
}

/// The end, with the news that no more attempts are made.
pub open spec fn stopped(address: Seq<char>, why: Seq<char>) -> Seq<Line> {
    seq![Line::Log(why), Line::ReconnectStopped { address }]
}

/// One more attempt, as far as it can be counted.
pub open spec fn one_more(n: u32) -> u32 {
    if n < u32::MAX {
        (n + 1) as u32
    } else {
        n
    }
}

/// How long the controller listens. Every attempt after the first uses the retry
/// interval, so the radio listens for almost the whole of it and a connection
/// completes the moment the headphones walk back into range.
pub open spec fn listening(attempt: u32, policy: ReconnectPolicy) -> Duration {
    if attempt == 1 {
        Duration { nanos: FIRST_WINDOW_NANOS }
    } else if policy.interval.nanos < 1_500_000_000 {
        Duration { nanos: 1_500_000_000 }
    } else if policy.interval.nanos > 20_000_000_000 {
        Duration { nanos: 20_000_000_000 }
    } else {
        policy.interval
    }
}

/// A round begins: it may be that nobody wants the connection any more, because
/// something else was asked for or because the device was unpaired. The policy is
/// the one that is stored right now.
pub open spec fn round_turn(q: Quest, epoch: u64, paired: bool, policy: ReconnectPolicy) -> (
    Quest,
    Seq<Line>,
    Course,
) {
    if epoch > q.started_in {
        (
            q,
            stopped(q.address, "connection attempt stopped: something else was asked for"@),
            Course::Finished(Ok(())),
        )
    } else if q.attempt > 0 && !paired {
        (
            q,
            stopped(
                q.address,
                "automatic reconnect stopped: the device is no longer paired"@,
            ),
            Course::Finished(Ok(())),
        )
    } else {
        let attempt = one_more(q.attempt);
        (
            Quest { attempt, policy, ..q },
            if attempt > 1 {
                seq![Line::Reconnecting { address: q.address, attempt }]
            } else {
                Seq::empty()
            },
            Course::Attempt { already_paired: paired, window: listening(attempt, policy) },
        )
    }
}

/// What is done before the next round: nothing where the policy is off or the
/// window has passed; else a wait. A peer that never answered has already cost a
/// full listening window; one that answered and then refused is busy, and asking
/// again at once is how one bad attempt becomes a run of them.
pub open spec fn pause_turn(q: Quest, reached_link: bool, now: Duration, before: Seq<Line>) -> (
    Seq<Line>,
    Course,
) {
    let pause = if reached_link {
        q.policy.interval
    } else {
        Duration { nanos: SHORT_PAUSE_NANOS }
    };
    if !q.policy.enabled {
        (before, Course::Finished(Ok(())))
    } else if !q.policy.retries(now.since(q.since)) {
        (
            before + stopped(q.address, "automatic reconnect ended: retry window expired"@),
            Course::Finished(Ok(())),
        )
    } else {
        (
            if pause.nanos >= 1_000_000_000 {
                before.push(Line::Waiting { pause })
            } else {
                before
            },
            Course::Wait { pause, quiet: false },
        )
    }
}

/// What follows a connection that ended: another attempt if it was lost, and none
/// if that was a decision, here or over there.
pub open spec fn ended_turn(q: Quest, lost: Option<u8>, reached_link: bool, now: Duration) -> (
    Quest,
    Seq<Line>,
    Course,
) {
    match lost {
        None => (q, Seq::empty(), Course::Finished(Ok(()))),
        Some(reason) => if ReconnectPolicy::is_worth(reason) {
            let lost_now = Quest { since: now, attempt: 0, ..q };
            let (said, next) = pause_turn(
                lost_now,
                reached_link,
                now,
                seq![Line::Log("connection lost: "@ + reason_text(reason))],
            );
            (lost_now, said, next)
        } else {
            (
                q,
                seq![
                    Line::Log(
                        "connection ended: "@ + reason_text(reason) + " - not reconnecting"@,
                    ),
                ],
                Course::Finished(Ok(())),
            )
        },
    }
}

/// What follows an attempt that failed. The very first gets one immediate retry;
/// after that either automatic reconnect takes over or the failure is reported.
pub open spec fn failed_turn(q: Quest, error: Seq<char>, reached_link: bool, now: Duration) -> (
    Quest,
    Seq<Line>,
    Course,
) {
    let told = Line::Log("attempt failed: "@ + error);
    if q.attempt == 1 {
        (
            q,
            seq![Line::Log("attempt failed: "@ + error + "; trying once more"@)],
            Course::Wait { pause: Duration { nanos: SECOND_TRY_NANOS }, quiet: true },
        )
    } else if q.attempt == 2 && !q.policy.enabled {
        (q, Seq::empty(), Course::Finished(Err(error)))
    } else if q.attempt == 2 {
        let counting = Quest { since: now, ..q };
        let (said, next) = pause_turn(
            counting,
            reached_link,
            now,
            seq![
                told,
                Line::ReconnectStarted {
                    address: q.address,
                    interval_ms: (q.policy.interval.nanos / 1_000_000) as u64,
                },
            ],
        );
        (counting, said, next)
    } else {
        let (said, next) = pause_turn(q, reached_link, now, seq![told]);
        (q, said, next)
    }
}

/// What is said of a wait that was cut short.
pub open spec fn cut_short(q: Quest, quiet: bool) -> Seq<Line> {
    if quiet {
        Seq::empty()
    } else {
        stopped(q.address, "automatic reconnect canceled"@)
    }
}

fn stop(address: &str, why: &str) -> (r: Vec<Message>)
    ensures
        lines(r@) == stopped(address@, why@),
{
    let mut out = nothing();
    log(&mut out, why);
    say(&mut out, Message::ReconnectStopped { address: address.to_owned() });
    out
}

impl Retry {
    /// The device that is aimed at.
    pub fn device(&self) -> (r: &DiscoveredDevice)
        ensures
            r@ == self@.device,
    {
        &self.device
    }

    pub fn address(&self) -> (r: &str)
        ensures
            r@ == self@.address,
    {
        self.address.as_str()
    }

    /// Begins a round. `epoch` counts what has been taken back by now, `paired`
    /// says whether there is a bond, and the policy is the stored one: the worker
    /// is inside this loop for as long as the headphones are connected, so a policy
    /// captured once would take effect only after it could be of use.
    pub fn round(&mut self, epoch: u64, paired: bool, policy: ReconnectPolicy) -> (r: (
        Vec<Message>,
        Next,
    ))
        ensures
            (final(self)@, lines((r.0)@), (r.1)@) == round_turn(
                old(self)@,
                epoch,
                paired,
                policy,
            ),
    {
        if epoch > self.started_in {
            return (
                stop(
                    self.address.as_str(),
                    "connection attempt stopped: something else was asked for",
                ),
                Next::Finished(Ok(())),
            );
        }
        if self.attempt > 0 && !paired {
            return (
                stop(
                    self.address.as_str(),
                    "automatic reconnect stopped: the device is no longer paired",
                ),
                Next::Finished(Ok(())),
            );
        }
        self.policy = policy;
        if self.attempt < u32::MAX {
            self.attempt = self.attempt + 1;
        }
        let mut out = nothing();
        if self.attempt > 1 {
            say(
                &mut out,
                Message::Reconnecting {
                    address: self.address.as_str().to_owned(),
                    attempt: self.attempt,
                },
            );
        }
        let window: Duration = if self.attempt == 1 {
            Duration { nanos: FIRST_WINDOW_NANOS }
        } else if policy.interval.nanos < 1_500_000_000 {
            Duration { nanos: 1_500_000_000 }
        } else if policy.interval.nanos > 20_000_000_000 {
            Duration { nanos: 20_000_000_000 }
        } else {
            policy.interval
        };
        (out, Next::Attempt { already_paired: paired, window })
    }

    fn pause(&self, reached_link: bool, now: Duration, before: Vec<Message>) -> (r: (
        Vec<Message>,
        Next,
    ))
        ensures
            (lines((r.0)@), (r.1)@) == pause_turn(self@, reached_link, now, lines(before@)),
    {
        let mut out = before;
        if !self.policy.enabled {
            return (out, Next::Finished(Ok(())));
        }
        if !self.policy.should_retry(now.saturating_sub(self.since)) {
            log(&mut out, "automatic reconnect ended: retry window expired");
            say(
                &mut out,
                Message::ReconnectStopped { address: self.address.as_str().to_owned() },
            );
            assert(lines(out@) =~= lines(before@) + stopped(
                self@.address,
                "automatic reconnect ended: retry window expired"@,
            ));
            return (out, Next::Finished(Ok(())));
        }
        let pause: Duration = if reached_link {
            self.policy.interval
        } else {
            Duration { nanos: SHORT_PAUSE_NANOS }
        };
        if pause.nanos >= 1_000_000_000 {
            say(&mut out, Message::Waiting { pause });
        }
        (out, Next::Wait { pause, quiet: false })
    }

    /// Takes the news that a connection was made and has ended. Playback has
    /// ended with it: the user asked for that, or the link went away underneath it.
    pub fn ended(&mut self, lost: Option<u8>, reached_link: bool, now: Duration) -> (r: (
        Vec<Message>,
        Next,
    ))
        ensures
            (final(self)@, lines((r.0)@), (r.1)@) == ended_turn(
                old(self)@,
                lost,
                reached_link,
                now,
            ),
    {
        let reason: u8 = match lost {
            // A clean stop asked for by the user.
            None => {
                return (nothing(), Next::Finished(Ok(())));
            },
            Some(reason) => reason,
        };
        let mut out = nothing();
        if ReconnectPolicy::worth_reconnecting(reason) {
            log(&mut out, phrase("connection lost: ", disconnect_reason(reason)).as_str());
            // Contact existed until a moment ago, so the clock for giving up starts
            // now.
            self.since = now;
            self.attempt = 0;
            self.pause(reached_link, now, out)
        } else {
            log(
                &mut out,
                sentence(
                    "connection ended: ",
                    disconnect_reason(reason),
                    " - not reconnecting",
                ).as_str(),
            );
            (out, Next::Finished(Ok(())))
        }
    }

    /// Takes the news that an attempt failed, and why. Everything was handed back
    /// before, so another attempt is as clean as the first.
    pub fn failed(&mut self, error: String, reached_link: bool, now: Duration) -> (r: (
        Vec<Message>,
        Next,
    ))
        ensures
            (final(self)@, lines((r.0)@), (r.1)@) == failed_turn(
                old(self)@,
                error@,
                reached_link,
                now,
            ),
    {
        let mut out = nothing();
        if self.attempt == 1 {
            log(
                &mut out,
                sentence("attempt failed: ", error.as_str(), "; trying once more").as_str(),
            );
            return (
                out,
                Next::Wait { pause: Duration { nanos: SECOND_TRY_NANOS }, quiet: true },
            );
        }
        if self.attempt == 2 && !self.policy.enabled {
            return (out, Next::Finished(Err(error)));
        }
        log(&mut out, phrase("attempt failed: ", error.as_str()).as_str());
        if self.attempt == 2 {
            // Automatic reconnect takes over from here. Said once, so the
            // application can show that instead of an error.
            say(
                &mut out,
                Message::ReconnectStarted {
                    address: self.address.as_str().to_owned(),
                    interval_ms: (self.policy.interval.nanos / 1_000_000) as u64,
                },
            );
            self.since = now;
        }
        self.pause(reached_link, now, out)
    }

    /// What is said of a wait that was cut short: the loop ends.
    pub fn interrupted(&self, quiet: bool) -> (r: Vec<Message>)
        ensures
            lines(r@) == cut_short(self@, quiet),
    {
        if quiet {
            nothing()
        } else {
            stop(self.address.as_str(), "automatic reconnect canceled")
        }
    }
}

/// What becomes of a wait: go on, or end it, saying whether it ran its course.
#[derive(Debug, Clone, Copy, PartialEq, Eq, Structural)]
pub enum Pause {
    Sleep(Duration),
    Over(bool),
}

/// A wait can be cut short. False means "give up".
pub fn wait_for(now: Duration, deadline: Duration, interrupted: bool) -> (r: Pause)
    ensures
        r == if interrupted {
            Pause::Over(false)
        } else if now.nanos < deadline.nanos {
            Pause::Sleep(Duration { nanos: 50_000_000 })
        } else {
            Pause::Over(true)
        },
{
    if interrupted {
        Pause::Over(false)
    } else if now.nanos < deadline.nanos {
        Pause::Sleep(Duration::from_millis(50))
    } else {
        Pause::Over(true)
    }
}

/// Whole seconds until a deadline, none if it has passed.
pub fn remaining(deadline: Duration, now: Duration) -> (r: u64)
    ensures
        deadline.nanos <= now.nanos ==> r == 0,
        deadline.nanos > now.nanos && (deadline.nanos - now.nanos) / 1_000_000_000 <= u64::MAX
            ==> r == (deadline.nanos - now.nanos) / 1_000_000_000,
        deadline.nanos > now.nanos && (deadline.nanos - now.nanos) / 1_000_000_000 > u64::MAX
            ==> r == u64::MAX,
{
    deadline.saturating_sub(now).as_secs()
}

impl Agent {
    /// Gets ready to connect: whom to aim at, and with which settings. `epoch`
    /// counts what has been taken back by now.
    pub fn begin_connect(
        &mut self,
        address: Option<&str>,
        stored: Settings,
        epoch: u64,
        now: Duration,
    ) -> (r: Result<Retry, String>)
        requires
            old(self).wf(),
            stored.wf(),
            address is Some && target_of(old(self)@, address->0@) is Ok && old(self)@.session is Some
                ==> can_be_held(stored@),
        ensures
            final(self).wf(),
            match address {
                None => r is Err && r->Err_0@ == "address is missing"@ && final(self)@ == old(
                    self,
                )@,
                Some(address) => match target_of(old(self)@, address@) {
                    Err(text) => r is Err && r->Err_0@ == text && final(self)@ == old(self)@,
                    Ok(device) => match old(self)@.session {
                        None => r is Err && r->Err_0@ == "adapter is off"@ && final(self)@ == (
                        Standing { settings: stored@, ..old(self)@ }),
                        Some(session) => r is Ok && r->Ok_0@ == (Quest {
                            address: address@,
                            device,
                            started_in: epoch,
                            attempt: 0,
                            since: now,
                            policy: ReconnectPolicy::usual(),
                        }) && final(self)@ == (Standing {
                            settings: stored@,
                            session: Some(
                                SessionState {
                                    config: refreshed(session.config, stored@),
                                    ..session
                                },
                            ),
                            ..old(self)@
                        }),
                    },
                },
            },
    {
        let address: &str = match address {
            None => {
                return Err("address is missing".to_owned());
            },
            Some(address) => address,
        };
        let device: DiscoveredDevice = match self.target_device(address) {
            Err(text) => {
                return Err(text);
            },
            Ok(device) => device,
        };
        if let Err(text) = self.refresh(stored) {
            return Err(text);
        }
        Ok(
            Retry {
                address: address.to_owned(),
                device,
                started_in: epoch,
                attempt: 0,
                since: now,
                policy: ReconnectPolicy::default(),
            },
        )
    }

    /// After an attempt that failed the peer may be left holding half a connection:
    /// everything is handed back before it is asked again.
    pub fn attempt_failed(&mut self) -> (r: Teardown)
        ensures
            r@ == remains_of(old(self)@),
            final(self)@ == (Standing {
                configured_ases: Seq::empty(),
                lost_reason: None,
                ..let_go(old(self)@)
            }),
            final(self).settings == old(self).settings,
    {
        self.lost_reason = None;
        self.reset_after_failure()
    }
}

// ---------------------------------------------------------------------------
// Laws
// ---------------------------------------------------------------------------

/// Once something else was asked for, no attempt is made any more.
pub proof fn lemma_taken_back_means_no_attempt(
    q: Quest,
    epoch: u64,
    paired: bool,
    policy: ReconnectPolicy,
)
    requires
        epoch > q.started_in,
    ensures
        round_turn(q, epoch, paired, policy).2 == Course::Finished(Ok(())),
{
}

/// A device that was unpaired is not paired again from scratch: after the first
/// attempt no other is made.
pub proof fn lemma_unpaired_means_no_retry(
    q: Quest,
    epoch: u64,
    policy: ReconnectPolicy,
)
    requires
        q.attempt > 0,
    ensures
        round_turn(q, epoch, false, policy).2 == Course::Finished(Ok(())),
{
}

/// A stop that the user asked for is never followed by another attempt.
pub proof fn lemma_user_stop_is_final(q: Quest, reached_link: bool, now: Duration)
    ensures
        ended_turn(q, None, reached_link, now).2 == Course::Finished(Ok(())),
        ended_turn(q, None, reached_link, now).1.len() == 0,
{
}

/// With automatic reconnect off, a failure is reported after two attempts, and a
/// lost link is not chased at all.
pub proof fn lemma_reconnect_off_gives_up(
    q: Quest,
    error: Seq<char>,
    lost: Option<u8>,
    reached_link: bool,
    now: Duration,
)
    requires
        !q.policy.enabled,
        q.attempt >= 2,
    ensures
        failed_turn(q, error, reached_link, now).2 is Finished,
        q.attempt == 2 ==> failed_turn(q, error, reached_link, now).2 == Course::Finished(
            Err(error),
        ),
        ended_turn(q, lost, reached_link, now).2 == Course::Finished(Ok(())),
{
}

/// Outside the window there are no more attempts after the third failure.
pub proof fn lemma_window_ends_the_loop(
    q: Quest,
    error: Seq<char>,
    reached_link: bool,
    now: Duration,
)
    requires
        q.attempt > 2,
        !q.policy.retries(now.since(q.since)),
    ensures
        failed_turn(q, error, reached_link, now).2 == Course::Finished(Ok(())),
{
}

/// The window starts again every time contact is lost: right after a loss that is
/// worth it, a policy that is on and has any window tries again.
pub proof fn lemma_loss_restarts_the_window(
    q: Quest,
    reason: u8,
    reached_link: bool,
    now: Duration,
)
    requires
        q.policy.enabled,
        q.policy.window is Some ==> q.policy.window->0.nanos > 0,
        ReconnectPolicy::is_worth(reason),
    ensures
        ended_turn(q, Some(reason), reached_link, now).2 is Wait,
        ended_turn(q, Some(reason), reached_link, now).0.since == now,
{
}

/// Every attempt after the first listens for between a second and a half and
/// twenty seconds.
pub proof fn lemma_listening_is_held(attempt: u32, policy: ReconnectPolicy)
    requires
        attempt > 1,
    ensures
        1_500_000_000 <= listening(attempt, policy).nanos <= 20_000_000_000,
{
}

/// A round that nobody took back is an attempt: counted, with the policy of right now.
/// The first listens for fifteen seconds, and every other for the interval, as far as it
/// lies between a second and a half and twenty.
pub proof fn lemma_round_is_an_attempt(q: Quest, epoch: u64, paired: bool, policy: ReconnectPolicy)
    requires
        epoch <= q.started_in,
        q.attempt == 0 || paired,
        q.attempt < u32::MAX,
    ensures
        ({
            let (r, said, next) = round_turn(q, epoch, paired, policy);
            &&& r.attempt == q.attempt + 1
            &&& r.policy == policy
            &&& r.address == q.address && r.device == q.device && r.since == q.since
            &&& r.started_in == q.started_in
            &&& next matches Course::Attempt { already_paired, window } && {
                &&& already_paired == paired
                &&& q.attempt == 0 ==> window.nanos == 15_000_000_000
                &&& q.attempt > 0 && 1_500_000_000 <= policy.interval.nanos <= 20_000_000_000
                    ==> window == policy.interval
                &&& q.attempt > 0 && policy.interval.nanos < 1_500_000_000 ==> window.nanos
                    == 1_500_000_000
                &&& q.attempt > 0 && policy.interval.nanos > 20_000_000_000 ==> window.nanos
                    == 20_000_000_000
            }
            &&& q.attempt == 0 ==> said.len() == 0
            &&& q.attempt > 0 ==> said == seq![
                Line::Reconnecting { address: q.address, attempt: (q.attempt + 1) as u32 },
            ]
        }),
{
}

/// Whoever stops the loop is told of it, and the application with them.
pub proof fn lemma_stopped_loop_says_so(q: Quest, epoch: u64, paired: bool, policy: ReconnectPolicy)
    requires
        round_turn(q, epoch, paired, policy).2 is Finished,
    ensures
        epoch > q.started_in || (q.attempt > 0 && !paired),
        round_turn(q, epoch, paired, policy).0 == q,
        round_turn(q, epoch, paired, policy).1.len() == 2,
        round_turn(q, epoch, paired, policy).1[1] == (Line::ReconnectStopped {
            address: q.address,
        }),
{
}

/// A link that was lost is worth another attempt unless it was ended here or switched
/// off over there.
pub proof fn lemma_only_decisions_are_respected(
    q: Quest,
    reason: u8,
    reached_link: bool,
    now: Duration,
)
    ensures
        reason == 0x15 || reason == 0x16 ==> ended_turn(q, Some(reason), reached_link, now).2
            == Course::Finished(Ok(())) && ended_turn(q, Some(reason), reached_link, now).0 == q,
        reason != 0x15 && reason != 0x16 ==> {
            let (r, said, next) = ended_turn(q, Some(reason), reached_link, now);
            &&& r == (Quest { since: now, attempt: 0, ..q })
            &&& said.len() > 0
            &&& next is Wait <==> q.policy.enabled && (q.policy.window is None || (
            q.policy.window->0).nanos > 0)
        },
{
}

/// How long there is between two attempts: a moment where the headphones did not answer,
/// for they may come back at any time, and the whole interval where they answered and
/// refused.
pub proof fn lemma_busy_headphones_are_not_hurried(
    q: Quest,
    error: Seq<char>,
    reached_link: bool,
    now: Duration,
)
    ensures
        ({
            let (r, said, next) = failed_turn(q, error, reached_link, now);
            &&& q.attempt == 1 ==> r == q && (next matches Course::Wait { pause, quiet } && quiet
                && pause.nanos == 600_000_000)
            &&& q.attempt != 1 && next is Wait ==> (next matches Course::Wait { pause, quiet }
                && !quiet && pause == (if reached_link {
                q.policy.interval
            } else {
                Duration { nanos: 400_000_000 }
            }))
            &&& r.attempt == q.attempt
            &&& r.policy == q.policy
        }),
{
}

/// Automatic reconnect goes on exactly as long as its window: an attempt that failed is
/// followed by another while the time since contact was lost is shorter, for ever where
/// there is no window, and never where it is off.
pub proof fn lemma_reconnect_lasts_as_long_as_its_window(
    q: Quest,
    error: Seq<char>,
    reached_link: bool,
    now: Duration,
)
    requires
        q.attempt > 2,
        now.nanos >= q.since.nanos,
    ensures
        failed_turn(q, error, reached_link, now).2 is Wait <==> q.policy.enabled && (
        q.policy.window is None || now.nanos - q.since.nanos < (q.policy.window->0).nanos),
        failed_turn(q, error, reached_link, now).2 is Wait || failed_turn(
            q,
            error,
            reached_link,
            now,
        ).2 == Course::Finished(Ok(())),
        failed_turn(q, error, reached_link, now).0 == q,
{
}

/// The second failure is where automatic reconnect takes over: the window starts with
/// it, and the application learns how often it is going to be tried.
pub proof fn lemma_second_failure_starts_the_window(
    q: Quest,
    error: Seq<char>,
    reached_link: bool,
    now: Duration,
)
    requires
        q.attempt == 2,
        q.policy.enabled,
        q.policy.interval.nanos / 1_000_000 <= u64::MAX,
    ensures
        ({
            let (r, said, next) = failed_turn(q, error, reached_link, now);
            &&& r == (Quest { since: now, ..q })
            &&& said.len() >= 2
            &&& said[1] matches Line::ReconnectStarted { address, interval_ms } && address
                == q.address && interval_ms == q.policy.interval.nanos / 1_000_000
            &&& next is Wait <==> q.policy.window is None || (q.policy.window->0).nanos > 0
        }),
{
}

} // verus!
