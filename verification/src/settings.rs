//! Settings that survive a restart, and what each one costs to change.
//!
//! Two things the configuration app needs and cannot work out for itself.
//!
//! The first is persistence: a preference set once should still be there after
//! the headphones drop out and reconnect, and after the app is closed and
//! opened again.
//!
//! The second is honesty about when a change takes effect. Some settings apply
//! to the next audio frame. Some are baked into the stream when it is set up,
//! so the headphones have to be reconnected. Each setting carries its scope, so
//! the app can say so out loud.
//!
//! The file is plain `key = value` text. It can be read, diffed and repaired in
//! a text editor.

use vstd::arithmetic::power2::pow2;
use vstd::prelude::*;

use crate::number::{
    all_digits, digits_value, half_even, is_digit, near, number_of, Number,
};
use crate::text::{
    before, chars_of, find_char, first_at, is_space, is_trimmed, lemma_before_irreflexive,
    lemma_before_total, lemma_before_transitive, lemma_first_at, lemma_first_at_is,
    lemma_lines_concat, lemma_lines_hold, lemma_one_line, lemma_trim, lines, precedes, same,
    string_of, trim, trim_end, trim_range, trim_start,
};
use crate::time::Duration;

verus! {

// ---------------------------------------------------------------------------
// Knobs
// ---------------------------------------------------------------------------

/// What has to happen before a change to a setting is actually heard.
#[derive(Debug, Clone, Copy, PartialEq, Eq, Structural)]
pub enum ApplyScope {
    /// Takes effect on the next audio frame.
    Immediately,
    /// Baked into the stream at setup: the headphones must be reconnected.
    OnReconnect,
    /// Changes how the adapter itself is driven: it must be restarted.
    OnAdapterRestart,
}

impl ApplyScope {
    pub open spec fn explanation(self) -> Seq<char> {
        match self {
            ApplyScope::Immediately => "applies immediately"@,
            ApplyScope::OnReconnect => "applies after reconnecting the headphones"@,
            ApplyScope::OnAdapterRestart => "applies after restarting the adapter"@,
        }
    }

    /// A sentence the app can put under the control.
    pub fn explain(self) -> (r: &'static str)
        ensures
            r@ == self.explanation(),
    {
        match self {
            ApplyScope::Immediately => "applies immediately",
            ApplyScope::OnReconnect => "applies after reconnecting the headphones",
            ApplyScope::OnAdapterRestart => "applies after restarting the adapter",
        }
    }
}

/// One knob, with the cost of changing it.
#[derive(Debug, Clone, Copy, PartialEq, Eq)]
pub struct Knob {
    pub key: &'static str,
    pub scope: ApplyScope,
    /// What it does, for a tooltip.
    pub description: &'static str,
}

/// Every setting the stack understands, and what changing it costs.
pub open spec fn knob_table() -> Seq<Knob> {
    seq![
        Knob {
            key: "preset",
            scope: ApplyScope::OnReconnect,
            description: "LC3 preset: sample rate, frame duration, and bitrate",
        },
        Knob {
            key: "rate_hz",
            scope: ApplyScope::OnReconnect,
            description: "sample rate when the preset is custom (16000-48000)",
        },
        Knob {
            key: "frame_ms",
            scope: ApplyScope::OnReconnect,
            description: "frame duration in ms when the preset is custom (7.5 or 10)",
        },
        Knob {
            key: "octets",
            scope: ApplyScope::OnReconnect,
            description: "octets per frame, which determines bitrate in custom mode",
        },
        Knob {
            key: "phy",
            scope: ApplyScope::OnReconnect,
            description: "2M is faster and uses less airtime; 1M has longer range and tolerates interference better",
        },
        Knob {
            key: "retransmissions",
            scope: ApplyScope::OnReconnect,
            description: "maximum radio retransmissions; more is more robust but increases latency",
        },
        Knob {
            key: "max_latency_ms",
            scope: ApplyScope::OnReconnect,
            description: "maximum transport latency in ms",
        },
        Knob {
            key: "presentation_delay_ms",
            scope: ApplyScope::OnReconnect,
            description: "delay between receiving and presenting audio at the headphones",
        },
        Knob {
            key: "swap_channels",
            scope: ApplyScope::Immediately,
            description: "swap left and right when the headphones play the channels in reverse",
        },
        Knob {
            key: "audio_mode",
            scope: ApplyScope::OnReconnect,
            description: "stereo with two channels, legacy compatibility, or mono with one channel",
        },
        Knob {
            key: "playback_source",
            scope: ApplyScope::OnReconnect,
            description: "Windows capture endpoint used as the music source",
        },
        Knob {
            key: "microphone_mode",
            scope: ApplyScope::OnReconnect,
            description: "headset microphone; disabled mode preserves the radio budget for playback",
        },
        Knob {
            key: "microphone_quality",
            scope: ApplyScope::OnReconnect,
            description: "headset microphone LC3 quality and bitrate",
        },
        Knob {
            key: "microphone_target",
            scope: ApplyScope::OnReconnect,
            description: "where microphone audio is delivered; VB-CABLE appears to applications as CABLE Output",
        },
        Knob {
            key: "monitor_enabled",
            scope: ApplyScope::Immediately,
            description: "listen to a selected microphone through the headphones; off by default",
        },
        Knob {
            key: "monitor_source",
            scope: ApplyScope::Immediately,
            description: "Windows microphone used for monitoring, or the headset microphone when connected",
        },
        Knob {
            key: "monitor_mode",
            scope: ApplyScope::Immediately,
            description: "mix the monitored microphone with captured audio or replace captured audio",
        },
        Knob {
            key: "monitor_gain",
            scope: ApplyScope::Immediately,
            description: "monitoring volume; 1.0 is unchanged",
        },
        Knob {
            key: "microphone_gain",
            scope: ApplyScope::Immediately,
            description: "gain applied to received microphone audio; 1.0 is unchanged",
        },
        Knob {
            key: "diagnostics",
            scope: ApplyScope::OnReconnect,
            description: "print each stream state after channel establishment",
        },
        Knob {
            key: "device",
            scope: ApplyScope::OnReconnect,
            description: "preferred headphones to connect",
        },
        Knob {
            key: "gain",
            scope: ApplyScope::Immediately,
            description: "gain before encoding; 0 is silent, 1.0 is unchanged, and 2.0 is maximum boost",
        },
        Knob {
            key: "idle_timeout_min",
            scope: ApplyScope::OnReconnect,
            description: "stop transmitting after this much silence; 0 disables the feature",
        },
        Knob {
            key: "reconnect_enabled",
            scope: ApplyScope::OnReconnect,
            description: "try to reconnect after losing radio range",
        },
        Knob {
            key: "reconnect_interval_s",
            scope: ApplyScope::OnReconnect,
            description: "how often to retry",
        },
        Knob {
            key: "reconnect_window_min",
            scope: ApplyScope::OnReconnect,
            description: "how long to retry before stopping; 0 means unlimited",
        },
        Knob {
            key: "startup_reconnect_enabled",
            scope: ApplyScope::Immediately,
            description: "search for and connect headphones for three minutes after automatic startup",
        },
        Knob {
            key: "language",
            scope: ApplyScope::Immediately,
            description: "user interface language",
        },
        Knob {
            key: "run_in_background",
            scope: ApplyScope::Immediately,
            description: "closing the window keeps audio running and hides the app in the system tray",
        },
        Knob {
            key: "start_with_windows",
            scope: ApplyScope::Immediately,
            description: "start the application hidden after Windows sign-in",
        },
        Knob {
            key: "command_style",
            scope: ApplyScope::OnAdapterRestart,
            description: "USB recipient addressing used for HCI commands",
        },
    ]
}

/// Every setting the stack understands, and what changing it costs.
///
/// The single source of truth for both the file format and the app.
pub fn knobs() -> (r: Vec<Knob>)
    ensures
        r@ == knob_table(),
{
    vec![
        Knob {
            key: "preset",
            scope: ApplyScope::OnReconnect,
            description: "LC3 preset: sample rate, frame duration, and bitrate",
        },
        Knob {
            key: "rate_hz",
            scope: ApplyScope::OnReconnect,
            description: "sample rate when the preset is custom (16000-48000)",
        },
        Knob {
            key: "frame_ms",
            scope: ApplyScope::OnReconnect,
            description: "frame duration in ms when the preset is custom (7.5 or 10)",
        },
        Knob {
            key: "octets",
            scope: ApplyScope::OnReconnect,
            description: "octets per frame, which determines bitrate in custom mode",
        },
        Knob {
            key: "phy",
            scope: ApplyScope::OnReconnect,
            description: "2M is faster and uses less airtime; 1M has longer range and tolerates interference better",
        },
        Knob {
            key: "retransmissions",
            scope: ApplyScope::OnReconnect,
            description: "maximum radio retransmissions; more is more robust but increases latency",
        },
        Knob {
            key: "max_latency_ms",
            scope: ApplyScope::OnReconnect,
            description: "maximum transport latency in ms",
        },
        Knob {
            key: "presentation_delay_ms",
            scope: ApplyScope::OnReconnect,
            description: "delay between receiving and presenting audio at the headphones",
        },
        Knob {
            key: "swap_channels",
            scope: ApplyScope::Immediately,
            description: "swap left and right when the headphones play the channels in reverse",
        },
        Knob {
            key: "audio_mode",
            scope: ApplyScope::OnReconnect,
            description: "stereo with two channels, legacy compatibility, or mono with one channel",
        },
        Knob {
            key: "playback_source",
            scope: ApplyScope::OnReconnect,
            description: "Windows capture endpoint used as the music source",
        },
        Knob {
            key: "microphone_mode",
            scope: ApplyScope::OnReconnect,
            description: "headset microphone; disabled mode preserves the radio budget for playback",
        },
        Knob {
            key: "microphone_quality",
            scope: ApplyScope::OnReconnect,
            description: "headset microphone LC3 quality and bitrate",
        },
        Knob {
            key: "microphone_target",
            scope: ApplyScope::OnReconnect,
            description: "where microphone audio is delivered; VB-CABLE appears to applications as CABLE Output",
        },
        Knob {
            key: "monitor_enabled",
            scope: ApplyScope::Immediately,
            description: "listen to a selected microphone through the headphones; off by default",
        },
        Knob {
            key: "monitor_source",
            scope: ApplyScope::Immediately,
            description: "Windows microphone used for monitoring, or the headset microphone when connected",
        },
        Knob {
            key: "monitor_mode",
            scope: ApplyScope::Immediately,
            description: "mix the monitored microphone with captured audio or replace captured audio",
        },
        Knob {
            key: "monitor_gain",
            scope: ApplyScope::Immediately,
            description: "monitoring volume; 1.0 is unchanged",
        },
        Knob {
            key: "microphone_gain",
            scope: ApplyScope::Immediately,
            description: "gain applied to received microphone audio; 1.0 is unchanged",
        },
        Knob {
            key: "diagnostics",
            scope: ApplyScope::OnReconnect,
            description: "print each stream state after channel establishment",
        },
        Knob {
            key: "device",
            scope: ApplyScope::OnReconnect,
            description: "preferred headphones to connect",
        },
        Knob {
            key: "gain",
            scope: ApplyScope::Immediately,
            description: "gain before encoding; 0 is silent, 1.0 is unchanged, and 2.0 is maximum boost",
        },
        Knob {
            key: "idle_timeout_min",
            scope: ApplyScope::OnReconnect,
            description: "stop transmitting after this much silence; 0 disables the feature",
        },
        Knob {
            key: "reconnect_enabled",
            scope: ApplyScope::OnReconnect,
            description: "try to reconnect after losing radio range",
        },
        Knob {
            key: "reconnect_interval_s",
            scope: ApplyScope::OnReconnect,
            description: "how often to retry",
        },
        Knob {
            key: "reconnect_window_min",
            scope: ApplyScope::OnReconnect,
            description: "how long to retry before stopping; 0 means unlimited",
        },
        Knob {
            key: "startup_reconnect_enabled",
            scope: ApplyScope::Immediately,
            description: "search for and connect headphones for three minutes after automatic startup",
        },
        Knob {
            key: "language",
            scope: ApplyScope::Immediately,
            description: "user interface language",
        },
        Knob {
            key: "run_in_background",
            scope: ApplyScope::Immediately,
            description: "closing the window keeps audio running and hides the app in the system tray",
        },
        Knob {
            key: "start_with_windows",
            scope: ApplyScope::Immediately,
            description: "start the application hidden after Windows sign-in",
        },
        Knob {
            key: "command_style",
            scope: ApplyScope::OnAdapterRestart,
            description: "USB recipient addressing used for HCI commands",
        },
    ]
}

/// The first knob of `table` under `key`.
pub open spec fn knob_in(table: Seq<Knob>, key: Seq<char>) -> Option<Knob>
    decreases table.len(),
{
    if table.len() == 0 {
        None
    } else if table[0].key@ == key {
        Some(table[0])
    } else {
        knob_in(table.drop_first(), key)
    }
}

/// The knob under `key`.
pub open spec fn knob_of(key: Seq<char>) -> Option<Knob> {
    knob_in(knob_table(), key)
}

pub fn knob(key: &str) -> (r: Option<Knob>)
    ensures
        r == knob_of(key@),
{
    let table = knobs();
    let mut i: usize = 0;
    assert(knob_table().skip(0) =~= knob_table());
    while i < table.len()
        invariant
            i <= table@.len(),
            table@ == knob_table(),
            knob_of(key@) == knob_in(knob_table().skip(i as int), key@),
        decreases table@.len() - i,
    {
        let ghost rest = knob_table().skip(i as int);
        assert(rest[0] == table@[i as int]);
        assert(rest.drop_first() =~= knob_table().skip(i + 1));
        if same(table[i].key, key) {
            return Some(table[i]);
        }
        i += 1;
    }
    None
}

// ---------------------------------------------------------------------------
// Entries
// ---------------------------------------------------------------------------

/// Whether the keys stand in strict dictionary order.
pub open spec fn ordered(s: Seq<(Seq<char>, Seq<char>)>) -> bool {
    forall|i: int, j: int| 0 <= i < j < s.len() ==> before(#[trigger] s[i].0, #[trigger] s[j].0)
}

/// The values by key, a later entry in place of an earlier one.
pub open spec fn map_of(s: Seq<(Seq<char>, Seq<char>)>) -> Map<Seq<char>, Seq<char>>
    decreases s.len(),
{
    if s.len() == 0 {
        Map::empty()
    } else {
        map_of(s.drop_last()).insert(s.last().0, s.last().1)
    }
}

/// The value under `key`, if there is one.
pub open spec fn value_in(m: Map<Seq<char>, Seq<char>>, key: Seq<char>) -> Option<Seq<char>> {
    if m.dom().contains(key) {
        Some(m[key])
    } else {
        None
    }
}

proof fn lemma_map_of(s: Seq<(Seq<char>, Seq<char>)>)
    requires
        ordered(s),
    ensures
        forall|i: int|
            0 <= i < s.len() ==> map_of(s).dom().contains(#[trigger] s[i].0) && map_of(s)[s[i].0]
                == s[i].1,
        forall|k: Seq<char>| #[trigger]
            map_of(s).dom().contains(k) ==> exists|i: int| 0 <= i < s.len() && s[i].0 == k,
    decreases s.len(),
{
    if s.len() > 0 {
        let t = s.drop_last();
        assert(forall|i: int| 0 <= i < t.len() ==> t[i] == s[i]);
        lemma_map_of(t);
        assert forall|i: int| 0 <= i < s.len() implies map_of(s).dom().contains(#[trigger] s[i].0)
            && map_of(s)[s[i].0] == s[i].1 by {
            if i < t.len() {
                assert(t[i] == s[i]);
                assert(before(s[i].0, s[s.len() - 1].0));
                lemma_before_irreflexive(s[i].0);
            }
        }
        assert forall|k: Seq<char>| #[trigger] map_of(s).dom().contains(k) implies exists|i: int|
            0 <= i < s.len() && s[i].0 == k by {
            if k == s.last().0 {
                assert(s[s.len() - 1].0 == k);
            } else {
                assert(map_of(t).dom().contains(k));
                let i = choose|i: int| 0 <= i < t.len() && t[i].0 == k;
                assert(s[i].0 == k);
            }
        }
    }
}

/// Settings as stored, before they become a session configuration.
///
/// Values stay as text on purpose. A file written by a newer version keeps its
/// unknown keys instead of losing them on the next save, so switching versions
/// back and forth does not quietly delete someone's configuration.
#[derive(Debug, PartialEq, Eq)]
pub struct Settings {
    entries: Vec<(String, String)>,
}

impl View for Settings {
    type V = Map<Seq<char>, Seq<char>>;

    closed spec fn view(&self) -> Map<Seq<char>, Seq<char>> {
        map_of(self.pairs())
    }
}

impl Clone for Settings {
    fn clone(&self) -> (r: Self)
        ensures
            r.pairs() == self.pairs(),
            r@ == self@,
    {
        let mut entries: Vec<(String, String)> = Vec::new();
        let mut i: usize = 0;
        while i < self.entries.len()
            invariant
                i <= self.entries@.len(),
                entries@.len() == i,
                forall|j: int|
                    0 <= j < i ==> #[trigger] entries@[j].0@ == self.entries@[j].0@
                        && entries@[j].1@ == self.entries@[j].1@,
            decreases self.entries@.len() - i,
        {
            entries.push((self.entries[i].0.clone(), self.entries[i].1.clone()));
            i += 1;
        }
        let r = Settings { entries };
        assert(r.pairs() =~= self.pairs()) by {
            assert forall|j: int| 0 <= j < r.pairs().len() implies r.pairs()[j] == self.pairs()[j] by {
                assert(r.entries@[j].0@ == self.entries@[j].0@);
            }
        }
        r
    }
}

impl Settings {
    /// The entries in the order in which the file lists them.
    pub closed spec fn pairs(self) -> Seq<(Seq<char>, Seq<char>)> {
        self.entries@.map_values(|e: (String, String)| (e.0@, e.1@))
    }

    /// Keys stand in strict dictionary order, so none occurs twice.
    pub open spec fn wf(self) -> bool {
        ordered(self.pairs())
    }

    /// What the entries and the values by key have to do with each other.
    pub proof fn lemma_view(self)
        ensures
            self@ == map_of(self.pairs()),
    {
    }

    /// The version that a stored file must at least carry to be used. It is raised
    /// whenever a default changes, or a setting disappears, in a way a stale file
    /// would undo.
    pub const VERSION: &'static str = "5";

    /// The version as a number.
    pub const VERSION_NUMBER: u64 = 5;

    pub fn new() -> (r: Self)
        ensures
            r.wf(),
            r.pairs() == Seq::<(Seq<char>, Seq<char>)>::empty(),
            r@ == Map::<Seq<char>, Seq<char>>::empty(),
    {
        let r = Settings { entries: Vec::new() };
        assert(r.pairs() =~= Seq::empty());
        r
    }

    /// How many settings are held.
    pub fn len(&self) -> (r: usize)
        ensures
            r == self.pairs().len(),
    {
        self.entries.len()
    }

    /// The position of `key`, or the one at which it belongs.
    fn position(&self, key: &str) -> (r: usize)
        requires
            self.wf(),
        ensures
            r <= self.pairs().len(),
            forall|i: int| 0 <= i < r ==> before(#[trigger] self.pairs()[i].0, key@),
            forall|i: int| r <= i < self.pairs().len() ==> !before(#[trigger] self.pairs()[i].0, key@),
    {
        let ghost pairs = self.pairs();
        let mut i: usize = 0;
        while i < self.entries.len() && precedes(self.entries[i].0.as_str(), key)
            invariant
                pairs == self.pairs(),
                i <= self.entries@.len(),
                self.entries@.len() == pairs.len(),
                forall|j: int| 0 <= j < i ==> before(#[trigger] pairs[j].0, key@),
            decreases self.entries@.len() - i,
        {
            assert(pairs[i as int].0 == self.entries@[i as int].0@);
            i += 1;
        }
        proof {
            assert forall|j: int| i <= j < pairs.len() implies !before(
                #[trigger] pairs[j].0,
                key@,
            ) by {
                assert(pairs[i as int].0 == self.entries@[i as int].0@);
                if i < j && before(pairs[j].0, key@) {
                    lemma_before_transitive(pairs[i as int].0, pairs[j].0, key@);
                }
            }
        }
        i
    }

    pub fn set(&mut self, key: &str, value: &str)
        requires
            old(self).wf(),
        ensures
            final(self).wf(),
            final(self)@ == old(self)@.insert(key@, value@),
    {
        let ghost was = self.pairs();
        let at: usize = self.position(key);
        let ghost item = (key@, value@);
        proof {
            lemma_map_of(was);
        }
        let present: bool = at < self.entries.len() && same(self.entries[at].0.as_str(), key);
        if present {
            assert(was[at as int].0 == self.entries@[at as int].0@);
            self.entries.set(at, (key.to_owned(), value.to_owned()));
            assert(self.pairs() =~= was.update(at as int, item));
        } else {
            self.entries.insert(at, (key.to_owned(), value.to_owned()));
            assert(self.pairs() =~= was.insert(at as int, item));
        }
        let ghost now = self.pairs();
        proof {
            assert forall|i: int, j: int| 0 <= i < j < now.len() implies before(
                #[trigger] now[i].0,
                #[trigger] now[j].0,
            ) by {
                if present {
                    assert(now[i].0 == was[i].0);
                    assert(now[j].0 == was[j].0);
                } else {
                    let a = if i < at {
                        i
                    } else {
                        i - 1
                    };
                    let b = if j < at {
                        j
                    } else {
                        j - 1
                    };
                    if i == at {
                        assert(now[j] == was[b]);
                        assert(!before(was[b].0, key@));
                        lemma_before_total(was[b].0, key@);
                        if was[b].0 == key@ {
                            assert(was[at as int].0 == old(self).entries@[at as int].0@);
                            if b > at {
                                assert(before(was[at as int].0, was[b].0));
                            }
                        }
                    } else if j == at {
                        assert(now[i] == was[i]);
                    } else {
                        assert(now[i] == was[a]);
                        assert(now[j] == was[b]);
                    }
                }
            }
            lemma_map_of(now);
            let expected = map_of(was).insert(key@, value@);
            assert forall|k: Seq<char>| map_of(now).dom().contains(k) <==> #[trigger]
            expected.dom().contains(k) by {
                if map_of(now).dom().contains(k) {
                    let i = choose|i: int| 0 <= i < now.len() && now[i].0 == k;
                    if present {
                        if i != at {
                            assert(now[i] == was[i]);
                        }
                    } else {
                        let a = if i < at {
                            i
                        } else {
                            i - 1
                        };
                        if i != at {
                            assert(now[i] == was[a]);
                        }
                    }
                }
                if expected.dom().contains(k) {
                    if k == key@ {
                        assert(now[at as int].0 == k);
                    } else {
                        let i = choose|i: int| 0 <= i < was.len() && was[i].0 == k;
                        if present || i < at {
                            assert(now[i].0 == k);
                        } else {
                            assert(now[i + 1].0 == k);
                        }
                    }
                }
            }
            assert forall|k: Seq<char>| map_of(now).dom().contains(k) implies map_of(now)[k]
                == #[trigger] expected[k] by {
                let i = choose|i: int| 0 <= i < now.len() && now[i].0 == k;
                if i == at {
                    assert(now[at as int] == item);
                } else if present {
                    assert(now[i] == was[i]);
                    assert(k != key@) by {
                        if i < at {
                            lemma_before_irreflexive(k);
                        } else {
                            assert(before(was[at as int].0, was[i].0));
                            lemma_before_irreflexive(k);
                        }
                    }
                } else {
                    let a = if i < at {
                        i
                    } else {
                        i - 1
                    };
                    assert(now[i] == was[a]);
                    assert(k != key@) by {
                        if i < at {
                            assert(before(now[i].0, now[at as int].0));
                        } else {
                            assert(before(now[at as int].0, now[i].0));
                        }
                        lemma_before_irreflexive(k);
                    }
                }
            }
            assert(map_of(now) =~= expected);
        }
    }

    pub fn get(&self, key: &str) -> (r: Option<&str>)
        requires
            self.wf(),
        ensures
            r is Some <==> self@.dom().contains(key@),
            r is Some ==> r->0@ == self@[key@],
    {
        let ghost pairs = self.pairs();
        proof {
            lemma_map_of(pairs);
        }
        let at: usize = self.position(key);
        if at < self.entries.len() && same(self.entries[at].0.as_str(), key) {
            assert(pairs[at as int] == (
                self.entries@[at as int].0@,
                self.entries@[at as int].1@,
            ));
            assert(pairs[at as int].0 == key@);
            Some(self.entries[at].1.as_str())
        } else {
            proof {
                if self@.dom().contains(key@) {
                    let i = choose|i: int| 0 <= i < pairs.len() && pairs[i].0 == key@;
                    lemma_before_irreflexive(key@);
                    assert(at <= i) by {
                        if i < at {
                            assert(before(pairs[i].0, key@));
                        }
                    }
                    assert(pairs[at as int].0 == self.entries@[at as int].0@);
                    if at < i {
                        assert(before(pairs[at as int].0, pairs[i].0));
                    }
                }
            }
            None
        }
    }
}

// ---------------------------------------------------------------------------
// Typed reading
// ---------------------------------------------------------------------------

/// What a switch written as text means.
pub open spec fn flag_of(text: Seq<char>) -> Option<bool> {
    if text == "true"@ || text == "1"@ || text == "yes"@ {
        Some(true)
    } else if text == "false"@ || text == "0"@ || text == "ne"@ {
        Some(false)
    } else {
        None
    }
}

/// The switch under `key`.
pub open spec fn flag_in(m: Map<Seq<char>, Seq<char>>, key: Seq<char>) -> Option<bool> {
    if m.dom().contains(key) {
        flag_of(m[key])
    } else {
        None
    }
}

/// The number under `key`.
pub open spec fn number_in(m: Map<Seq<char>, Seq<char>>, key: Seq<char>) -> Option<Number> {
    if m.dom().contains(key) {
        number_of(m[key])
    } else {
        None
    }
}

/// The seconds of a number of minutes.
pub open spec fn sixty_times(n: Number) -> Number {
    n.product(near(false, 60, 1))
}

/// Whether a number of minutes is either no limit or a limit that can be held.
pub open spec fn minutes_fit(n: Option<Number>) -> bool {
    match n {
        None => true,
        Some(n) => (n !is NotANumber && n.rank() <= 0) || sixty_times(n).is_seconds(),
    }
}

/// The nanoseconds of a number of seconds.
pub open spec fn nanos_of(n: Number) -> nat {
    half_even(n.units() * 1_000_000_000, pow2(149))
}

/// The limit that a number of minutes stands for: zero and less stand for none.
pub open spec fn limit_of(n: Number) -> Option<nat> {
    if n !is NotANumber && n.rank() <= 0 {
        None
    } else {
        Some(nanos_of(sixty_times(n)))
    }
}

impl Settings {
    pub fn bool(&self, key: &str) -> (r: Option<bool>)
        requires
            self.wf(),
        ensures
            r == flag_in(self@, key@),
    {
        match self.get(key) {
            None => None,
            Some(text) => {
                if same(text, "true") || same(text, "1") || same(text, "yes") {
                    Some(true)
                } else if same(text, "false") || same(text, "0") || same(text, "ne") {
                    Some(false)
                } else {
                    None
                }
            },
        }
    }

    pub fn number(&self, key: &str) -> (r: Option<Number>)
        requires
            self.wf(),
        ensures
            r == number_in(self@, key@),
            r is Some ==> r->0.wf(),
    {
        match self.get(key) {
            None => None,
            Some(text) => Number::parse(text),
        }
    }

    /// Whether `minutes` can answer for `key`: the value is missing, is no
    /// number, stands for no limit, or is a length of time that can be held.
    pub fn has_minutes(&self, key: &str) -> (r: bool)
        requires
            self.wf(),
        ensures
            r == minutes_fit(number_in(self@, key@)),
    {
        match self.number(key) {
            None => true,
            Some(n) => {
                let zero = Number::ratio(0, 1);
                proof {
                    crate::number::lemma_zero(zero);
                }
                n.at_most(zero) || n.times(Number::ratio(60, 1)).can_be_seconds()
            },
        }
    }

    /// A duration in minutes, where zero means "no limit" rather than "instantly".
    pub fn minutes(&self, key: &str) -> (r: Option<Option<Duration>>)
        requires
            self.wf(),
            minutes_fit(number_in(self@, key@)),
        ensures
            r is Some <==> number_in(self@, key@) is Some,
            r is Some ==> match limit_of(number_in(self@, key@)->0) {
                None => r->0 is None,
                Some(nanos) => r->0 is Some && r->0->0.nanos == nanos,
            },
    {
        match self.number(key) {
            None => None,
            Some(n) => {
                let zero = Number::ratio(0, 1);
                proof {
                    crate::number::lemma_zero(zero);
                }
                if n.at_most(zero) {
                    Some(None)
                } else {
                    Some(Some(n.times(Number::ratio(60, 1)).seconds()))
                }
            },
        }
    }
}

// ---------------------------------------------------------------------------
// Defaults
// ---------------------------------------------------------------------------

/// The values that the reset button restores.
pub open spec fn default_values() -> Map<Seq<char>, Seq<char>> {
    Map::<Seq<char>, Seq<char>>::empty()
        .insert("version"@, Settings::VERSION@)
        .insert("preset"@, "windows"@)
        .insert("rate_hz"@, "48000"@)
        .insert("frame_ms"@, "7.5"@)
        .insert("octets"@, "90"@)
        .insert("phy"@, "2M"@)
        .insert("retransmissions"@, "13"@)
        .insert("max_latency_ms"@, "75"@)
        .insert("presentation_delay_ms"@, "40"@)
        .insert("audio_mode"@, "stereo"@)
        .insert("playback_source"@, "CABLE Output"@)
        .insert("microphone_mode"@, "off"@)
        .insert("microphone_quality"@, "balanced"@)
        .insert("microphone_target"@, "vb-cable"@)
        .insert("monitor_enabled"@, "false"@)
        .insert("monitor_source"@, "default"@)
        .insert("monitor_mode"@, "mix"@)
        .insert("monitor_gain"@, "1.0"@)
        .insert("microphone_gain"@, "1.0"@)
        .insert("swap_channels"@, "false"@)
        .insert("diagnostics"@, "true"@)
        .insert("command_style"@, "class-device"@)
        .insert("gain"@, "1.0"@)
        .insert("idle_timeout_min"@, "5"@)
        .insert("reconnect_enabled"@, "true"@)
        .insert("reconnect_interval_s"@, "5"@)
        .insert("reconnect_window_min"@, "3"@)
        .insert("startup_reconnect_enabled"@, "true"@)
        .insert("language"@, "en"@)
        .insert("run_in_background"@, "false"@)
        .insert("start_with_windows"@, "false"@)
}

/// Whether a text is a whole number that is greater than another: decimal digits and
/// nothing else.
pub open spec fn exceeds(s: Seq<char>, n: nat) -> bool {
    s.len() > 0 && all_digits(s) && digits_value(s) > n
}

/// Whether stored values come from this version or a newer one. A version that is
/// missing or is no whole number is an old one.
pub open spec fn is_recent(values: Map<Seq<char>, Seq<char>>) -> bool {
    match value_in(values, "version"@) {
        Some(version) => version == Settings::VERSION@ || exceeds(
            version,
            Settings::VERSION_NUMBER as nat,
        ),
        None => false,
    }
}

fn is_newer(version: &str) -> (r: bool)
    ensures
        r == exceeds(version@, Settings::VERSION_NUMBER as nat),
{
    let letters = chars_of(version);
    let mut newer: bool = false;
    let mut value: u64 = 0;
    let mut i: usize = 0;
    assert(letters@.take(0) =~= Seq::empty());
    while i < letters.len()
        invariant
            i <= letters@.len(),
            letters@ == version@,
            all_digits(letters@.take(i as int)),
            newer == (digits_value(letters@.take(i as int)) > Settings::VERSION_NUMBER),
            !newer ==> value == digits_value(letters@.take(i as int)),
        decreases letters@.len() - i,
    {
        let c: char = letters[i];
        assert(letters@.take(i + 1).drop_last() =~= letters@.take(i as int));
        assert(letters@.take(i + 1).last() == c);
        if !('0' <= c && c <= '9') {
            assert(!is_digit(letters@[i as int]));
            return false;
        }
        assert(all_digits(letters@.take(i + 1))) by {
            assert forall|k: int| 0 <= k < i + 1 implies is_digit(
                #[trigger] letters@.take(i + 1)[k],
            ) by {
                if k < i {
                    assert(letters@.take(i + 1)[k] == letters@.take(i as int)[k]);
                }
            }
        }
        if !newer {
            value = value * 10 + (c as u32 - 48) as u64;
            newer = value > Settings::VERSION_NUMBER;
        }
        i += 1;
    }
    assert(letters@.take(letters@.len() as int) =~= letters@);
    newer
}

/// What a stored text stands for: the defaults where there is none or where it
/// comes from an older version, else the defaults with the stored values on top.
pub open spec fn restored(stored: Option<Seq<char>>) -> Map<Seq<char>, Seq<char>> {
    match stored {
        None => default_values(),
        Some(text) => if is_recent(read_text(text)) {
            default_values().union_prefer_right(read_text(text))
        } else {
            default_values()
        },
    }
}

impl Settings {
    /// The defaults, which is also what the reset button restores.
    pub fn defaults() -> (r: Self)
        ensures
            r.wf(),
            r@ == default_values(),
    {
        let mut settings = Self::new();
        settings.set("version", Settings::VERSION);
        settings.set("preset", "windows");
        settings.set("rate_hz", "48000");
        settings.set("frame_ms", "7.5");
        settings.set("octets", "90");
        settings.set("phy", "2M");
        settings.set("retransmissions", "13");
        settings.set("max_latency_ms", "75");
        settings.set("presentation_delay_ms", "40");
        settings.set("audio_mode", "stereo");
        settings.set("playback_source", "CABLE Output");
        settings.set("microphone_mode", "off");
        settings.set("microphone_quality", "balanced");
        settings.set("microphone_target", "vb-cable");
        settings.set("monitor_enabled", "false");
        settings.set("monitor_source", "default");
        settings.set("monitor_mode", "mix");
        settings.set("monitor_gain", "1.0");
        settings.set("microphone_gain", "1.0");
        settings.set("swap_channels", "false");
        settings.set("diagnostics", "true");
        settings.set("command_style", "class-device");
        settings.set("gain", "1.0");
        settings.set("idle_timeout_min", "5");
        settings.set("reconnect_enabled", "true");
        settings.set("reconnect_interval_s", "5");
        settings.set("reconnect_window_min", "3");
        settings.set("startup_reconnect_enabled", "true");
        settings.set("language", "en");
        settings.set("run_in_background", "false");
        settings.set("start_with_windows", "false");
        settings
    }

    /// The settings that a stored file stands for; `None` where there is none.
    ///
    /// A file from an older version is replaced rather than merged: settings are
    /// saved as absolute values, so an old file would keep overriding defaults
    /// that have moved since. A file from a newer one keeps what this one does not
    /// know.
    pub fn restore(stored: Option<&str>) -> (r: Self)
        ensures
            r.wf(),
            stored is Some ==> r@ == restored(Some(stored->0@)),
            stored is None ==> r@ == restored(None),
    {
        let text: &str = match stored {
            None => {
                return Self::defaults();
            },
            Some(text) => text,
        };
        let read = Self::from_text(text);
        let recent: bool = match read.get("version") {
            Some(version) => same(version, Settings::VERSION) || is_newer(version),
            None => false,
        };
        let mut settings = Self::defaults();
        if !recent {
            return settings;
        }
        let ghost pairs = read.pairs();
        let mut i: usize = 0;
        proof {
            assert(pairs.take(0) =~= Seq::empty());
            assert(default_values().union_prefer_right(Map::empty()) =~= default_values());
        }
        while i < read.entries.len()
            invariant
                i <= read.entries@.len(),
                pairs == read.pairs(),
                pairs.len() == read.entries@.len(),
                settings.wf(),
                settings@ == default_values().union_prefer_right(map_of(pairs.take(i as int))),
            decreases read.entries@.len() - i,
        {
            settings.set(read.entries[i].0.as_str(), read.entries[i].1.as_str());
            proof {
                let longer = pairs.take(i + 1);
                assert(longer.drop_last() =~= pairs.take(i as int));
                assert(longer.last() == pairs[i as int]);
                assert(settings@ =~= default_values().union_prefer_right(map_of(longer)));
            }
            i += 1;
        }
        assert(pairs.take(pairs.len() as int) =~= pairs);
        settings
    }
}

// ---------------------------------------------------------------------------
// What a change costs
// ---------------------------------------------------------------------------

/// Whether a change from `previous` to `now` turns a knob that needs more than
/// a moment to take effect.
pub open spec fn is_touched(
    knob: Knob,
    now: Map<Seq<char>, Seq<char>>,
    previous: Map<Seq<char>, Seq<char>>,
) -> bool {
    &&& knob.scope != ApplyScope::Immediately
    &&& value_in(now, knob.key@) != value_in(previous, knob.key@)
}

/// The knobs that a change turns and that need more than a moment, in the order
/// of the table.
pub open spec fn touched(
    now: Map<Seq<char>, Seq<char>>,
    previous: Map<Seq<char>, Seq<char>>,
) -> Seq<Knob> {
    knob_table().filter(|k: Knob| is_touched(k, now, previous))
}

/// Whether no knob stands behind one that belongs behind it.
pub open spec fn by_key(s: Seq<Knob>) -> bool {
    forall|i: int, j: int|
        0 <= i < j < s.len() ==> !before(#[trigger] s[j].key@, #[trigger] s[i].key@)
}

fn same_value(a: Option<&str>, b: Option<&str>) -> (r: bool)
    ensures
        r <==> match (a, b) {
            (None, None) => true,
            (Some(x), Some(y)) => x@ == y@,
            _ => false,
        },
{
    match (a, b) {
        (None, None) => true,
        (Some(x), Some(y)) => same(x, y),
        _ => false,
    }
}

/// Puts a knob behind every knob whose key does not stand after its own.
fn insert_by_key(out: &mut Vec<Knob>, knob: Knob)
    requires
        by_key(old(out)@),
    ensures
        by_key(final(out)@),
        final(out)@.to_multiset() == old(out)@.to_multiset().insert(knob),
{
    let ghost was = out@;
    let mut at: usize = out.len();
    while at > 0 && precedes(knob.key, out[at - 1].key)
        invariant
            out@ == was,
            at <= was.len(),
            by_key(was),
            forall|i: int| at <= i < was.len() ==> before(knob.key@, #[trigger] was[i].key@),
        decreases at,
    {
        at -= 1;
    }
    out.insert(at, knob);
    proof {
        let now = out@;
        vstd::seq_lib::to_multiset_insert(was, at as int, knob);
        assert forall|i: int, j: int| 0 <= i < j < now.len() implies !before(
            #[trigger] now[j].key@,
            #[trigger] now[i].key@,
        ) by {
            let a = if i < at {
                i
            } else {
                i - 1
            };
            let b = if j < at {
                j
            } else {
                j - 1
            };
            if i == at {
                assert(now[j] == was[b]);
                if before(was[b].key@, knob.key@) {
                    lemma_before_transitive(knob.key@, was[b].key@, knob.key@);
                    lemma_before_irreflexive(knob.key@);
                }
            } else if j == at {
                assert(now[i] == was[i]);
                assert(!before(knob.key@, was[at - 1].key@));
                if before(knob.key@, was[i].key@) && i < at - 1 {
                    assert(!before(was[at - 1].key@, was[i].key@));
                    lemma_before_total(was[at - 1].key@, was[i].key@);
                    if was[i].key@ != was[at - 1].key@ {
                        lemma_before_transitive(knob.key@, was[i].key@, was[at - 1].key@);
                    }
                }
            } else {
                assert(now[i] == was[a]);
                assert(now[j] == was[b]);
            }
        }
    }
}

impl Settings {
    /// Which of the changed settings need more than a moment to take effect, by
    /// key.
    ///
    /// The app asks this after an edit so it can say what has to happen, instead
    /// of leaving the user to notice that nothing changed.
    pub fn scopes_touched_by(&self, previous: &Settings) -> (r: Vec<Knob>)
        requires
            self.wf(),
            previous.wf(),
        ensures
            by_key(r@),
            r@.to_multiset() == touched(self@, previous@).to_multiset(),
            rising_by_key(r@),
    {
        let table = knobs();
        let ghost p = |k: Knob| is_touched(k, self@, previous@);
        let mut out: Vec<Knob> = Vec::new();
        let mut i: usize = 0;
        proof {
            assert(table@.take(0).filter(p) =~= Seq::empty()) by {
                reveal(Seq::filter);
            }
        }
        while i < table.len()
            invariant
                self.wf(),
                previous.wf(),
                i <= table@.len(),
                table@ == knob_table(),
                p == (|k: Knob| is_touched(k, self@, previous@)),
                by_key(out@),
                out@.to_multiset() == table@.take(i as int).filter(p).to_multiset(),
            decreases table@.len() - i,
        {
            let knob: Knob = table[i];
            let waits: bool = match knob.scope {
                ApplyScope::Immediately => false,
                _ => true,
            };
            let ghost done = table@.take(i as int);
            proof {
                reveal(Seq::filter);
                assert(table@.take(i + 1).drop_last() =~= done);
                vstd::seq_lib::to_multiset_build(done.filter(p), knob);
            }
            if waits && !same_value(self.get(knob.key), previous.get(knob.key)) {
                assert(p(knob));
                insert_by_key(&mut out, knob);
            } else {
                assert(!p(knob));
            }
            i += 1;
        }
        assert(table@.take(table@.len() as int) =~= table@);
        proof {
            lemma_cost_is_listed_once(out@, self@, previous@);
        }
        out
    }
}

// ---------------------------------------------------------------------------
// The file
// ---------------------------------------------------------------------------

/// What one line of the file sets, if anything.
pub open spec fn read_line(line: Seq<char>) -> Option<(Seq<char>, Seq<char>)> {
    let t = trim(line);
    let i = first_at(t, '=');
    let key = trim(t.take(i));
    if t.len() == 0 || t[0] == '#' || i >= t.len() || key.len() == 0 {
        None
    } else {
        Some((key, trim(t.skip(i + 1))))
    }
}

/// The values after one more line.
pub open spec fn with_line(m: Map<Seq<char>, Seq<char>>, line: Seq<char>) -> Map<
    Seq<char>,
    Seq<char>,
> {
    match read_line(line) {
        Some((key, value)) => m.insert(key, value),
        None => m,
    }
}

/// The values that lines set, one after the other.
pub open spec fn read_lines(ls: Seq<Seq<char>>) -> Map<Seq<char>, Seq<char>>
    decreases ls.len(),
{
    if ls.len() == 0 {
        Map::empty()
    } else {
        with_line(read_lines(ls.drop_last()), ls.last())
    }
}

/// The values that a text sets.
pub open spec fn read_text(text: Seq<char>) -> Map<Seq<char>, Seq<char>> {
    read_lines(lines(text))
}

/// The line that says what a setting is for.
pub open spec fn comment(knob: Knob) -> Seq<char> {
    "# "@ + knob.description@ + " ("@ + knob.scope.explanation() + ")"@
}

/// One setting as the file shows it: a comment where the setting is known, the
/// setting, and an empty line.
pub open spec fn entry_text(key: Seq<char>, value: Seq<char>) -> Seq<char> {
    let setting = key + " = "@ + value + seq!['\n'] + seq!['\n'];
    match knob_of(key) {
        Some(knob) => comment(knob) + seq!['\n'] + setting,
        None => setting,
    }
}

/// What the file starts with.
pub open spec fn heading() -> Seq<char> {
    "# OpenLEAudio settings"@ + seq!['\n'] + "# Delete this file to restore default values."@
        + seq!['\n'] + seq!['\n']
}

pub open spec fn entries_text(s: Seq<(Seq<char>, Seq<char>)>) -> Seq<char>
    decreases s.len(),
{
    if s.len() == 0 {
        Seq::empty()
    } else {
        entries_text(s.drop_last()) + entry_text(s.last().0, s.last().1)
    }
}

/// The whole file.
pub open spec fn file_text(s: Seq<(Seq<char>, Seq<char>)>) -> Seq<char> {
    heading() + entries_text(s)
}

impl Settings {
    /// Renders the file. Sorted, so a diff shows what changed and nothing else.
    pub fn to_text(&self) -> (r: String)
        requires
            self.wf(),
        ensures
            r@ == file_text(self.pairs()),
    {
        let mut text = String::new();
        text.append("# OpenLEAudio settings");
        text.push('\n');
        text.append("# Delete this file to restore default values.");
        text.push('\n');
        text.push('\n');
        let ghost pairs = self.pairs();
        let mut i: usize = 0;
        assert(text@ =~= heading());
        assert(pairs.take(0) =~= Seq::empty());
        assert(heading() + Seq::<char>::empty() =~= heading());
        while i < self.entries.len()
            invariant
                i <= self.entries@.len(),
                pairs == self.pairs(),
                pairs.len() == self.entries@.len(),
                text@ == heading() + entries_text(pairs.take(i as int)),
            decreases self.entries@.len() - i,
        {
            let ghost was = text@;
            let key: &str = self.entries[i].0.as_str();
            let value: &str = self.entries[i].1.as_str();
            if let Some(knob) = knob(key) {
                text.append("# ");
                text.append(knob.description);
                text.append(" (");
                text.append(knob.scope.explain());
                text.append(")");
                text.push('\n');
            }
            text.append(key);
            text.append(" = ");
            text.append(value);
            text.push('\n');
            text.push('\n');
            proof {
                let longer = pairs.take(i + 1);
                assert(longer.drop_last() =~= pairs.take(i as int));
                assert(longer.last() == (key@, value@));
                assert(text@ =~= was + entry_text(key@, value@));
                assert(text@ =~= heading() + entries_text(longer));
            }
            i += 1;
        }
        assert(pairs.take(pairs.len() as int) =~= pairs);
        text
    }

    /// Applies the line in `chars[from..to]`.
    fn apply_line(&mut self, chars: &[char], from: usize, to: usize)
        requires
            old(self).wf(),
            from <= to <= chars@.len(),
        ensures
            final(self).wf(),
            final(self)@ == with_line(old(self)@, chars@.subrange(from as int, to as int)),
    {
        let (lo, hi): (usize, usize) = trim_range(chars, from, to);
        let ghost t = chars@.subrange(lo as int, hi as int);
        if lo == hi || chars[lo] == '#' {
            assert(t.len() == 0 || t[0] == chars@[lo as int]);
            return ;
        }
        assert(t[0] == chars@[lo as int]);
        let eq: usize = find_char(chars, '=', lo, hi);
        if eq == hi {
            return ;
        }
        let (key_lo, key_hi): (usize, usize) = trim_range(chars, lo, eq);
        let (value_lo, value_hi): (usize, usize) = trim_range(chars, eq + 1, hi);
        assert(chars@.subrange(lo as int, eq as int) =~= t.take(eq - lo));
        assert(chars@.subrange(eq + 1, hi as int) =~= t.skip(eq - lo + 1));
        if key_lo < key_hi {
            let key = string_of(chars, key_lo, key_hi);
            let value = string_of(chars, value_lo, value_hi);
            self.set(&key, &value);
        }
    }

    /// Reads the file, ignoring anything it does not understand.
    ///
    /// A damaged line loses one setting, not the whole file. Refusing to load
    /// would leave someone with no way back except deleting the lot.
    pub fn from_text(text: &str) -> (r: Self)
        ensures
            r.wf(),
            r@ == read_text(text@),
    {
        let mut settings = Self::new();
        let chars = chars_of(text);
        let mut from: usize = 0;
        let ghost mut done: Seq<Seq<char>> = Seq::empty();
        proof {
            assert(text@.skip(0) =~= text@);
            assert(done + lines(text@) =~= lines(text@));
        }
        loop
            invariant_except_break
                settings.wf(),
                chars@ == text@,
                from <= chars@.len(),
                settings@ == read_lines(done),
                done + lines(text@.skip(from as int)) == lines(text@),
            ensures
                settings.wf(),
                settings@ == read_text(text@),
            decreases chars@.len() - from,
        {
            let end: usize = find_char(&chars, '\n', from, chars.len());
            let ghost rest = text@.skip(from as int);
            proof {
                assert(text@.subrange(from as int, text@.len() as int) =~= rest);
                assert(text@.subrange(from as int, end as int) =~= rest.take(end - from));
            }
            settings.apply_line(&chars, from, end);
            let ghost line = rest.take(end - from);
            proof {
                assert(done.push(line).drop_last() =~= done);
                if end == text@.len() {
                    assert(rest.take(end - from) =~= rest);
                    assert(done + seq![rest] =~= done.push(line));
                } else {
                    assert(rest.skip(end - from + 1) =~= text@.skip(end + 1));
                    assert(done + (seq![line] + lines(text@.skip(end + 1))) =~= done.push(line)
                        + lines(text@.skip(end + 1)));
                }
                done = done.push(line);
            }
            if end == chars.len() {
                break ;
            }
            from = end + 1;
        }
        settings
    }
}

// ---------------------------------------------------------------------------
// What holds of the file
// ---------------------------------------------------------------------------

/// Whether the file can hold a key and a value such that they come back.
pub open spec fn storable(key: Seq<char>, value: Seq<char>) -> bool {
    &&& key.len() > 0
    &&& is_trimmed(key)
    &&& key[0] != '#'
    &&& !key.contains('=')
    &&& !key.contains('\n')
    &&& is_trimmed(value)
    &&& !value.contains('\n')
}

/// Whether the file can hold every key and value of a table.
pub open spec fn all_storable(m: Map<Seq<char>, Seq<char>>) -> bool {
    forall|k: Seq<char>| #[trigger] m.dom().contains(k) ==> storable(k, m[k])
}

/// Every knob says what it is for, on one line.
pub proof fn lemma_knob_is_described(i: int)
    requires
        0 <= i < knob_table().len(),
    ensures
        knob_table()[i].description@.len() > 0,
        !knob_table()[i].description@.contains('\n'),
{
    let table = knob_table();
    if i == 0 {
        reveal_strlit("LC3 preset: sample rate, frame duration, and bitrate");
        assert forall|j: int| 0 <= j < table[0].description@.len() implies table[0].description@[j]
            != '\n' by {}
    }
    if i == 1 {
        reveal_strlit("sample rate when the preset is custom (16000-48000)");
        assert forall|j: int| 0 <= j < table[1].description@.len() implies table[1].description@[j]
            != '\n' by {}
    }
    if i == 2 {
        reveal_strlit("frame duration in ms when the preset is custom (7.5 or 10)");
        assert forall|j: int| 0 <= j < table[2].description@.len() implies table[2].description@[j]
            != '\n' by {}
    }
    if i == 3 {
        reveal_strlit("octets per frame, which determines bitrate in custom mode");
        assert forall|j: int| 0 <= j < table[3].description@.len() implies table[3].description@[j]
            != '\n' by {}
    }
    if i == 4 {
        reveal_strlit("2M is faster and uses less airtime; 1M has longer range and tolerates interference better");
        assert forall|j: int| 0 <= j < table[4].description@.len() implies table[4].description@[j]
            != '\n' by {}
    }
    if i == 5 {
        reveal_strlit("maximum radio retransmissions; more is more robust but increases latency");
        assert forall|j: int| 0 <= j < table[5].description@.len() implies table[5].description@[j]
            != '\n' by {}
    }
    if i == 6 {
        reveal_strlit("maximum transport latency in ms");
        assert forall|j: int| 0 <= j < table[6].description@.len() implies table[6].description@[j]
            != '\n' by {}
    }
    if i == 7 {
        reveal_strlit("delay between receiving and presenting audio at the headphones");
        assert forall|j: int| 0 <= j < table[7].description@.len() implies table[7].description@[j]
            != '\n' by {}
    }
    if i == 8 {
        reveal_strlit("swap left and right when the headphones play the channels in reverse");
        assert forall|j: int| 0 <= j < table[8].description@.len() implies table[8].description@[j]
            != '\n' by {}
    }
    if i == 9 {
        reveal_strlit("stereo with two channels, legacy compatibility, or mono with one channel");
        assert forall|j: int| 0 <= j < table[9].description@.len() implies table[9].description@[j]
            != '\n' by {}
    }
    if i == 10 {
        reveal_strlit("Windows capture endpoint used as the music source");
        assert forall|j: int| 0 <= j < table[10].description@.len() implies table[10].description@[j]
            != '\n' by {}
    }
    if i == 11 {
        reveal_strlit("headset microphone; disabled mode preserves the radio budget for playback");
        assert forall|j: int| 0 <= j < table[11].description@.len() implies table[11].description@[j]
            != '\n' by {}
    }
    if i == 12 {
        reveal_strlit("headset microphone LC3 quality and bitrate");
        assert forall|j: int| 0 <= j < table[12].description@.len() implies table[12].description@[j]
            != '\n' by {}
    }
    if i == 13 {
        reveal_strlit("where microphone audio is delivered; VB-CABLE appears to applications as CABLE Output");
        assert forall|j: int| 0 <= j < table[13].description@.len() implies table[13].description@[j]
            != '\n' by {}
    }
    if i == 14 {
        reveal_strlit("listen to a selected microphone through the headphones; off by default");
        assert forall|j: int| 0 <= j < table[14].description@.len() implies table[14].description@[j]
            != '\n' by {}
    }
    if i == 15 {
        reveal_strlit("Windows microphone used for monitoring, or the headset microphone when connected");
        assert forall|j: int| 0 <= j < table[15].description@.len() implies table[15].description@[j]
            != '\n' by {}
    }
    if i == 16 {
        reveal_strlit("mix the monitored microphone with captured audio or replace captured audio");
        assert forall|j: int| 0 <= j < table[16].description@.len() implies table[16].description@[j]
            != '\n' by {}
    }
    if i == 17 {
        reveal_strlit("monitoring volume; 1.0 is unchanged");
        assert forall|j: int| 0 <= j < table[17].description@.len() implies table[17].description@[j]
            != '\n' by {}
    }
    if i == 18 {
        reveal_strlit("gain applied to received microphone audio; 1.0 is unchanged");
        assert forall|j: int| 0 <= j < table[18].description@.len() implies table[18].description@[j]
            != '\n' by {}
    }
    if i == 19 {
        reveal_strlit("print each stream state after channel establishment");
        assert forall|j: int| 0 <= j < table[19].description@.len() implies table[19].description@[j]
            != '\n' by {}
    }
    if i == 20 {
        reveal_strlit("preferred headphones to connect");
        assert forall|j: int| 0 <= j < table[20].description@.len() implies table[20].description@[j]
            != '\n' by {}
    }
    if i == 21 {
        reveal_strlit("gain before encoding; 0 is silent, 1.0 is unchanged, and 2.0 is maximum boost");
        assert forall|j: int| 0 <= j < table[21].description@.len() implies table[21].description@[j]
            != '\n' by {}
    }
    if i == 22 {
        reveal_strlit("stop transmitting after this much silence; 0 disables the feature");
        assert forall|j: int| 0 <= j < table[22].description@.len() implies table[22].description@[j]
            != '\n' by {}
    }
    if i == 23 {
        reveal_strlit("try to reconnect after losing radio range");
        assert forall|j: int| 0 <= j < table[23].description@.len() implies table[23].description@[j]
            != '\n' by {}
    }
    if i == 24 {
        reveal_strlit("how often to retry");
        assert forall|j: int| 0 <= j < table[24].description@.len() implies table[24].description@[j]
            != '\n' by {}
    }
    if i == 25 {
        reveal_strlit("how long to retry before stopping; 0 means unlimited");
        assert forall|j: int| 0 <= j < table[25].description@.len() implies table[25].description@[j]
            != '\n' by {}
    }
    if i == 26 {
        reveal_strlit("search for and connect headphones for three minutes after automatic startup");
        assert forall|j: int| 0 <= j < table[26].description@.len() implies table[26].description@[j]
            != '\n' by {}
    }
    if i == 27 {
        reveal_strlit("user interface language");
        assert forall|j: int| 0 <= j < table[27].description@.len() implies table[27].description@[j]
            != '\n' by {}
    }
    if i == 28 {
        reveal_strlit("closing the window keeps audio running and hides the app in the system tray");
        assert forall|j: int| 0 <= j < table[28].description@.len() implies table[28].description@[j]
            != '\n' by {}
    }
    if i == 29 {
        reveal_strlit("start the application hidden after Windows sign-in");
        assert forall|j: int| 0 <= j < table[29].description@.len() implies table[29].description@[j]
            != '\n' by {}
    }
    if i == 30 {
        reveal_strlit("USB recipient addressing used for HCI commands");
        assert forall|j: int| 0 <= j < table[30].description@.len() implies table[30].description@[j]
            != '\n' by {}
    }
}

proof fn lemma_explanation(scope: ApplyScope)
    ensures
        scope.explanation().len() > 0,
        forall|j: int| 0 <= j < scope.explanation().len() ==> scope.explanation()[j] != '\n',
{
    reveal_strlit("applies immediately");
    reveal_strlit("applies after reconnecting the headphones");
    reveal_strlit("applies after restarting the adapter");
}

/// A number that tells the keys of the table apart.
spec fn mark(key: Seq<char>) -> int {
    let n = key.len() as int;
    n + 1_000 * (key[n - 1] as int) + 1_000_000 * (key[n - 2] as int) + 1_000_000_000 * (key[n
        - 3] as int)
}

proof fn lemma_marks()
    ensures
        forall|i: int, j: int|
            0 <= i < j < knob_table().len() ==> mark(#[trigger] knob_table()[i].key@) != mark(
                #[trigger] knob_table()[j].key@,
            ),
{
    let table = knob_table();
    assert(mark(table[0].key@) == 115101116006) by {
        reveal_strlit("preset");
    }
    assert(mark(table[1].key@) == 95104122007) by {
        reveal_strlit("rate_hz");
    }
    assert(mark(table[2].key@) == 95109115008) by {
        reveal_strlit("frame_ms");
    }
    assert(mark(table[3].key@) == 101116115006) by {
        reveal_strlit("octets");
    }
    assert(mark(table[4].key@) == 112104121003) by {
        reveal_strlit("phy");
    }
    assert(mark(table[5].key@) == 111110115015) by {
        reveal_strlit("retransmissions");
    }
    assert(mark(table[6].key@) == 95109115014) by {
        reveal_strlit("max_latency_ms");
    }
    assert(mark(table[7].key@) == 95109115021) by {
        reveal_strlit("presentation_delay_ms");
    }
    assert(mark(table[8].key@) == 101108115013) by {
        reveal_strlit("swap_channels");
    }
    assert(mark(table[9].key@) == 111100101010) by {
        reveal_strlit("audio_mode");
    }
    assert(mark(table[10].key@) == 114099101015) by {
        reveal_strlit("playback_source");
    }
    assert(mark(table[11].key@) == 111100101015) by {
        reveal_strlit("microphone_mode");
    }
    assert(mark(table[12].key@) == 105116121018) by {
        reveal_strlit("microphone_quality");
    }
    assert(mark(table[13].key@) == 103101116017) by {
        reveal_strlit("microphone_target");
    }
    assert(mark(table[14].key@) == 108101100015) by {
        reveal_strlit("monitor_enabled");
    }
    assert(mark(table[15].key@) == 114099101014) by {
        reveal_strlit("monitor_source");
    }
    assert(mark(table[16].key@) == 111100101012) by {
        reveal_strlit("monitor_mode");
    }
    assert(mark(table[17].key@) == 97105110012) by {
        reveal_strlit("monitor_gain");
    }
    assert(mark(table[18].key@) == 97105110015) by {
        reveal_strlit("microphone_gain");
    }
    assert(mark(table[19].key@) == 105099115011) by {
        reveal_strlit("diagnostics");
    }
    assert(mark(table[20].key@) == 105099101006) by {
        reveal_strlit("device");
    }
    assert(mark(table[21].key@) == 97105110004) by {
        reveal_strlit("gain");
    }
    assert(mark(table[22].key@) == 109105110016) by {
        reveal_strlit("idle_timeout_min");
    }
    assert(mark(table[23].key@) == 108101100017) by {
        reveal_strlit("reconnect_enabled");
    }
    assert(mark(table[24].key@) == 108095115020) by {
        reveal_strlit("reconnect_interval_s");
    }
    assert(mark(table[25].key@) == 109105110020) by {
        reveal_strlit("reconnect_window_min");
    }
    assert(mark(table[26].key@) == 108101100025) by {
        reveal_strlit("startup_reconnect_enabled");
    }
    assert(mark(table[27].key@) == 97103101008) by {
        reveal_strlit("language");
    }
    assert(mark(table[28].key@) == 117110100017) by {
        reveal_strlit("run_in_background");
    }
    assert(mark(table[29].key@) == 111119115018) by {
        reveal_strlit("start_with_windows");
    }
    assert(mark(table[30].key@) == 121108101013) by {
        reveal_strlit("command_style");
    }
}

/// Every knob is found under its key.
pub proof fn lemma_knob_is_found(i: int)
    requires
        0 <= i < knob_table().len(),
    ensures
        knob_of(knob_table()[i].key@) == Some(knob_table()[i]),
{
    lemma_marks();
    assert(knob_table().skip(0) =~= knob_table());
    lemma_found_behind(0, i);
}

proof fn lemma_found_behind(from: int, i: int)
    requires
        0 <= from <= i < knob_table().len(),
        forall|i: int, j: int|
            0 <= i < j < knob_table().len() ==> mark(#[trigger] knob_table()[i].key@) != mark(
                #[trigger] knob_table()[j].key@,
            ),
    ensures
        knob_in(knob_table().skip(from), knob_table()[i].key@) == Some(knob_table()[i]),
    decreases i - from,
{
    let rest = knob_table().skip(from);
    assert(rest[0] == knob_table()[from]);
    if from < i {
        assert(mark(knob_table()[from].key@) != mark(knob_table()[i].key@));
        assert(rest.drop_first() =~= knob_table().skip(from + 1));
        lemma_found_behind(from + 1, i);
    }
}

/// What is found stands in the table, under the key that was asked for.
pub proof fn lemma_found_knob(table: Seq<Knob>, key: Seq<char>)
    ensures
        knob_in(table, key) is Some ==> table.contains(knob_in(table, key)->0) && knob_in(
            table,
            key,
        )->0.key@ == key,
    decreases table.len(),
{
    if table.len() > 0 && table[0].key@ != key {
        lemma_found_knob(table.drop_first(), key);
        if knob_in(table, key) is Some {
            let rest = table.drop_first();
            let j = choose|j: int| 0 <= j < rest.len() && rest[j] == knob_in(table, key)->0;
            assert(table[j + 1] == rest[j]);
        }
    }
}

proof fn lemma_no_break(knob: Knob)
    requires
        knob_table().contains(knob),
    ensures
        !comment(knob).contains('\n'),
        comment(knob).len() > 0,
        comment(knob)[0] == '#',
{
    reveal_strlit("# ");
    reveal_strlit(" (");
    reveal_strlit(")");
    let i = choose|i: int| 0 <= i < knob_table().len() && knob_table()[i] == knob;
    lemma_knob_is_described(i);
    assert forall|j: int| 0 <= j < knob.description@.len() implies knob.description@[j] != '\n' by {
        assert(knob.description@.contains(knob.description@[j]));
    }
    lemma_explanation(knob.scope);
    let c = comment(knob);
    assert forall|j: int| 0 <= j < c.len() implies c[j] != '\n' by {
        let a = "# "@;
        let d = knob.description@;
        let e = knob.scope.explanation();
        if j < 2 {
        } else if j < 2 + d.len() {
            assert(c[j] == d[j - 2]);
        } else if j < 4 + d.len() {
        } else if j < 4 + d.len() + e.len() {
            assert(c[j] == e[j - 4 - d.len()]);
        }
    }
}

/// A trimmed text is what is left of it between spaces.
proof fn lemma_trim_spaced(s: Seq<char>)
    requires
        is_trimmed(s),
    ensures
        trim(s) == s,
        trim(seq![' '] + s) == s,
        s.len() > 0 ==> trim(s.push(' ')) == s,
{
    reveal_with_fuel(trim_start, 2);
    reveal_with_fuel(trim_end, 2);
    assert((seq![' '] + s).skip(1) =~= s);
    assert(s.push(' ').drop_last() =~= s);
}

/// A setting that can be stored is what the line that stores it sets.
pub proof fn lemma_setting_line(key: Seq<char>, value: Seq<char>)
    requires
        storable(key, value),
    ensures
        read_line(key + " = "@ + value) == Some((key, value)),
{
    reveal_strlit(" = ");
    let line = key + " = "@ + value;
    let k = key.len() as int;
    let t = trim(line);
    reveal_with_fuel(trim_start, 2);
    reveal_with_fuel(trim_end, 3);
    assert(line[0] == key[0]);
    assert(trim_start(line) == line);
    if value.len() > 0 {
        assert(line.last() == value.last());
        assert(t == line);
    } else {
        assert(line.drop_last() =~= key + seq![' ', '=']);
        assert(line.last() == ' ');
        assert((key + seq![' ', '=']).last() == '=');
        assert(t == key + seq![' ', '=']);
    }
    assert(t[0] == key[0]);
    assert(t[k + 1] == '=');
    assert forall|j: int| 0 <= j < k + 1 implies t[j] != '=' by {
        if j < k {
            assert(t[j] == key[j]);
            assert(key.contains(key[j]));
        }
    }
    lemma_first_at_is(t, '=', k + 1);
    assert(t.take(k + 1) =~= key.push(' '));
    lemma_trim_spaced(key);
    lemma_trim_spaced(value);
    if value.len() > 0 {
        assert(t.skip(k + 2) =~= seq![' '] + value);
    } else {
        assert(t.skip(k + 2) =~= value);
    }
}

/// A comment sets nothing.
proof fn lemma_comment_line(line: Seq<char>)
    requires
        line.len() == 0 || line[0] == '#',
    ensures
        read_line(line) is None,
{
    if line.len() > 0 {
        assert(trim_start(line) == line);
        lemma_trim_end_front(line);
    }
}

/// Trimming the end keeps a first character that is no space.
proof fn lemma_trim_end_front(s: Seq<char>)
    requires
        s.len() > 0,
        !is_space(s[0]),
    ensures
        trim_end(s).len() > 0,
        trim_end(s)[0] == s[0],
    decreases s.len(),
{
    if is_space(s.last()) {
        assert(s.drop_last()[0] == s[0]);
        lemma_trim_end_front(s.drop_last());
    }
}

/// Lines that follow others are read after them.
proof fn lemma_one_more_line(ls: Seq<Seq<char>>, line: Seq<char>)
    ensures
        read_lines(ls + seq![line]) == with_line(read_lines(ls), line),
{
    assert((ls + seq![line]).drop_last() =~= ls);
}

/// The file without its last line break.
spec fn open_text(s: Seq<(Seq<char>, Seq<char>)>) -> Seq<char>
    decreases s.len(),
{
    if s.len() == 0 {
        heading().drop_last()
    } else {
        let (key, value) = s.last();
        let setting = open_text(s.drop_last()) + seq!['\n'];
        let said = match knob_of(key) {
            Some(knob) => setting + comment(knob) + seq!['\n'],
            None => setting,
        };
        said + (key + " = "@ + value) + seq!['\n']
    }
}

proof fn lemma_open_text(s: Seq<(Seq<char>, Seq<char>)>)
    ensures
        file_text(s) == open_text(s) + seq!['\n'],
    decreases s.len(),
{
    if s.len() == 0 {
        assert(entries_text(s) =~= Seq::empty());
        assert(file_text(s) =~= heading().drop_last() + seq!['\n']);
    } else {
        lemma_open_text(s.drop_last());
        let (key, value) = s.last();
        assert(file_text(s) =~= file_text(s.drop_last()) + entry_text(key, value));
        assert(file_text(s) =~= open_text(s) + seq!['\n']);
    }
}

proof fn lemma_heading_lines()
    ensures
        read_text(heading().drop_last()) == Map::<Seq<char>, Seq<char>>::empty(),
{
    reveal_strlit("# OpenLEAudio settings");
    reveal_strlit("# Delete this file to restore default values.");
    let a = "# OpenLEAudio settings"@;
    let b = "# Delete this file to restore default values."@;
    let none = Seq::<char>::empty();
    assert(forall|i: int| 0 <= i < a.len() ==> a[i] != '\n');
    assert(forall|i: int| 0 <= i < b.len() ==> b[i] != '\n');
    assert(heading().drop_last() =~= a + seq!['\n'] + (b + seq!['\n'] + none));
    lemma_lines_concat(a, b + seq!['\n'] + none);
    lemma_lines_concat(b, none);
    lemma_one_line(a);
    lemma_one_line(b);
    lemma_one_line(none);
    lemma_comment_line(a);
    lemma_comment_line(b);
    lemma_comment_line(none);
    let ls = lines(heading().drop_last());
    assert(ls =~= Seq::empty() + seq![a] + seq![b] + seq![none]);
    lemma_one_more_line(Seq::empty(), a);
    lemma_one_more_line(Seq::empty() + seq![a], b);
    lemma_one_more_line(Seq::empty() + seq![a] + seq![b], none);
}

/// What is read of a text and of one more line behind it.
proof fn lemma_read_one_more(text: Seq<char>, line: Seq<char>)
    requires
        !line.contains('\n'),
    ensures
        read_text(text + seq!['\n'] + line) == with_line(read_text(text), line),
{
    lemma_lines_concat(text, line);
    lemma_one_line(line);
    lemma_one_more_line(lines(text), line);
}

proof fn lemma_open_text_read(s: Seq<(Seq<char>, Seq<char>)>)
    requires
        forall|i: int| 0 <= i < s.len() ==> storable((#[trigger] s[i]).0, s[i].1),
    ensures
        read_text(open_text(s)) == map_of(s),
    decreases s.len(),
{
    if s.len() == 0 {
        lemma_heading_lines();
    } else {
        let front = s.drop_last();
        let (key, value) = s.last();
        assert forall|i: int| 0 <= i < front.len() implies storable(
            (#[trigger] front[i]).0,
            front[i].1,
        ) by {
            assert(front[i] == s[i]);
        }
        lemma_open_text_read(front);
        let setting = key + " = "@ + value;
        lemma_setting_line(key, value);
        reveal_strlit(" = ");
        assert forall|j: int| 0 <= j < setting.len() implies setting[j] != '\n' by {
            if j < key.len() {
                assert(setting[j] == key[j] && key.contains(key[j]));
            } else if j >= key.len() + 3 {
                let v = value[j - key.len() - 3];
                assert(setting[j] == v && value.contains(v));
            }
        }
        let before = open_text(front);
        let none = Seq::<char>::empty();
        lemma_comment_line(none);
        match knob_of(key) {
            Some(knob) => {
                lemma_found_knob(knob_table(), key);
                lemma_no_break(knob);
                let c = comment(knob);
                lemma_comment_line(c);
                lemma_read_one_more(before, c);
                lemma_read_one_more(before + seq!['\n'] + c, setting);
                lemma_read_one_more(before + seq!['\n'] + c + seq!['\n'] + setting, none);
                assert(open_text(s) =~= before + seq!['\n'] + c + seq!['\n'] + setting
                    + seq!['\n'] + none);
            },
            None => {
                lemma_read_one_more(before, setting);
                lemma_read_one_more(before + seq!['\n'] + setting, none);
                assert(open_text(s) =~= before + seq!['\n'] + setting + seq!['\n'] + none);
            },
        }
    }
}

/// A saved file reads back the same: what is written of settings that can be
/// stored is read as those settings, known or unknown.
pub proof fn lemma_reads_back(settings: Settings)
    requires
        settings.wf(),
        all_storable(settings@),
    ensures
        read_text(file_text(settings.pairs())) == settings@,
{
    let s = settings.pairs();
    settings.lemma_view();
    assert forall|i: int| 0 <= i < s.len() implies storable((#[trigger] s[i]).0, s[i].1) by {
        lemma_map_of(s);
        assert(settings@.dom().contains(s[i].0));
    }
    lemma_open_text_read(s);
    lemma_open_text(s);
    let none = Seq::<char>::empty();
    lemma_comment_line(none);
    lemma_read_one_more(open_text(s), none);
    assert(file_text(s) =~= open_text(s) + seq!['\n'] + none);
}

/// Whatever is read can be stored.
pub proof fn lemma_read_is_storable(text: Seq<char>)
    ensures
        all_storable(read_text(text)),
{
    let ls = lines(text);
    assert forall|i: int| 0 <= i < ls.len() implies !(#[trigger] ls[i]).contains('\n') by {
        lemma_lines_hold(text, i);
    }
    lemma_lines_storable(ls);
}

proof fn lemma_lines_storable(ls: Seq<Seq<char>>)
    requires
        forall|i: int| 0 <= i < ls.len() ==> !(#[trigger] ls[i]).contains('\n'),
    ensures
        all_storable(read_lines(ls)),
    decreases ls.len(),
{
    if ls.len() > 0 {
        let front = ls.drop_last();
        assert forall|i: int| 0 <= i < front.len() implies !(#[trigger] front[i]).contains(
            '\n',
        ) by {
            assert(front[i] == ls[i]);
        }
        lemma_lines_storable(front);
        lemma_line_storable(ls.last());
    }
}

proof fn lemma_line_storable(line: Seq<char>)
    requires
        !line.contains('\n'),
    ensures
        read_line(line) is Some ==> ({
            let (key, value) = read_line(line)->0;
            storable(key, value)
        }),
{
    if read_line(line) is Some {
        let t = trim(line);
        let i = first_at(t, '=');
        let (key, value) = read_line(line)->0;
        lemma_trim(line);
        lemma_trim(t.take(i));
        lemma_trim(t.skip(i + 1));
        lemma_first_at(t, '=');
        assert forall|c: char| key.contains(c) implies t.take(i).contains(c) by {}
        assert forall|c: char| value.contains(c) implies t.skip(i + 1).contains(c) by {}
        assert forall|c: char| t.take(i).contains(c) implies t.contains(c) && c != '=' by {
            let j = choose|j: int| 0 <= j < t.take(i).len() && t.take(i)[j] == c;
            assert(t[j] == c);
        }
        assert forall|c: char| t.skip(i + 1).contains(c) implies t.contains(c) by {
            let back = t.skip(i + 1);
            let j = choose|j: int| 0 <= j < back.len() && back[j] == c;
            assert(t[j + i + 1] == c);
        }
        assert(i > 0);
        assert(t.take(i)[0] == t[0]);
        assert(!is_space(t[0]));
        assert(trim_start(t.take(i)) == t.take(i));
        lemma_trim_end_front(t.take(i));
        assert(key[0] == t[0]);
    }
}

/// Reading a file, saving what was read and reading that again changes nothing,
/// whatever the file holds: a setting that this version does not know survives.
pub proof fn lemma_nothing_is_lost(text: Seq<char>, settings: Settings)
    requires
        settings.wf(),
        settings@ == read_text(text),
    ensures
        read_text(file_text(settings.pairs())) == read_text(text),
{
    lemma_read_is_storable(text);
    lemma_reads_back(settings);
}

/// A damaged line costs one setting, not the file: with a line that says nothing
/// in the middle, the file reads as it would without it.
pub proof fn lemma_damage_is_local(front: Seq<char>, damaged: Seq<char>, back: Seq<char>)
    requires
        !damaged.contains('\n'),
        read_line(damaged) is None,
    ensures
        read_text(front + seq!['\n'] + damaged + seq!['\n'] + back) == read_text(
            front + seq!['\n'] + back,
        ),
{
    let with = front + seq!['\n'] + (damaged + seq!['\n'] + back);
    assert(with =~= front + seq!['\n'] + damaged + seq!['\n'] + back);
    lemma_lines_concat(front, damaged + seq!['\n'] + back);
    lemma_lines_concat(damaged, back);
    lemma_lines_concat(front, back);
    lemma_one_line(damaged);
    lemma_skip_silent(lines(front), damaged, lines(back));
    assert(lines(with) =~= lines(front) + seq![damaged] + lines(back));
}

proof fn lemma_skip_silent(a: Seq<Seq<char>>, line: Seq<char>, b: Seq<Seq<char>>)
    requires
        read_line(line) is None,
    ensures
        read_lines(a + seq![line] + b) == read_lines(a + b),
    decreases b.len(),
{
    if b.len() == 0 {
        lemma_one_more_line(a, line);
        assert(a + seq![line] + b =~= a + seq![line]);
        assert(a + b =~= a);
    } else {
        let front = b.drop_last();
        lemma_skip_silent(a, line, front);
        lemma_one_more_line(a + seq![line] + front, b.last());
        lemma_one_more_line(a + front, b.last());
        assert(a + seq![line] + b =~= a + seq![line] + front + seq![b.last()]);
        assert(a + b =~= a + front + seq![b.last()]);
    }
}

/// A later line for the same key is the one that counts.
pub proof fn lemma_last_line_wins(text: Seq<char>, key: Seq<char>, value: Seq<char>)
    requires
        storable(key, value),
    ensures
        read_text(text + seq!['\n'] + (key + " = "@ + value)) == read_text(text).insert(
            key,
            value,
        ),
{
    let line = key + " = "@ + value;
    lemma_setting_line(key, value);
    reveal_strlit(" = ");
    assert forall|j: int| 0 <= j < line.len() implies line[j] != '\n' by {
        if j < key.len() {
            assert(line[j] == key[j] && key.contains(key[j]));
        } else if j >= key.len() + 3 {
            let v = value[j - key.len() - 3];
            assert(line[j] == v && value.contains(v));
        }
    }
    lemma_read_one_more(text, line);
}

/// Where nothing but what takes effect at once has changed, nothing is asked of
/// anyone; and the other way round.
pub proof fn lemma_nothing_touched(
    now: Map<Seq<char>, Seq<char>>,
    previous: Map<Seq<char>, Seq<char>>,
)
    ensures
        touched(now, previous).len() == 0 <==> forall|i: int|
            0 <= i < knob_table().len() ==> !is_touched(
                #[trigger] knob_table()[i],
                now,
                previous,
            ),
        touched(now, now).len() == 0,
{
    broadcast use vstd::seq_lib::group_filter_ensures;

    let p = |k: Knob| is_touched(k, now, previous);
    let table = knob_table();
    if touched(now, previous).len() == 0 {
        assert forall|i: int| 0 <= i < table.len() implies !is_touched(
            #[trigger] table[i],
            now,
            previous,
        ) by {
            if p(table[i]) {
                assert(table.filter(p).contains(table[i]));
            }
        }
    } else {
        let first = table.filter(p)[0];
        assert(p(first));
        table.lemma_filter_contains_rev(p, first);
        assert(table.contains(first));
    }
    let q = |k: Knob| is_touched(k, now, now);
    if touched(now, now).len() != 0 {
        assert(q(table.filter(q)[0]));
    }
}

proof fn lemma_table_is_distinct()
    ensures
        knob_table().no_duplicates(),
        forall|i: int, j: int|
            0 <= i < knob_table().len() && 0 <= j < knob_table().len() && (
            #[trigger] knob_table()[i]).key@ == (#[trigger] knob_table()[j]).key@ ==> i == j,
{
    lemma_marks();
}

proof fn lemma_filter_is_distinct(s: Seq<Knob>, p: spec_fn(Knob) -> bool)
    requires
        s.no_duplicates(),
    ensures
        s.filter(p).no_duplicates(),
    decreases s.len(),
{
    reveal(Seq::filter);
    if s.len() > 0 {
        let front = s.drop_last();
        lemma_filter_is_distinct(front, p);
        if front.filter(p).contains(s.last()) {
            front.lemma_filter_contains_rev(p, s.last());
            let k = choose|k: int| 0 <= k < front.len() && front[k] == s.last();
            assert(s[k] == s[s.len() - 1]);
        }
    }
}

/// Whether keys rise from one knob to the next.
pub open spec fn rising_by_key(s: Seq<Knob>) -> bool {
    forall|i: int, j: int|
        0 <= i < j < s.len() ==> before(#[trigger] s[i].key@, #[trigger] s[j].key@)
}

/// Whether a list is what a change costs, by key.
pub open spec fn lists_touched(
    list: Seq<Knob>,
    now: Map<Seq<char>, Seq<char>>,
    previous: Map<Seq<char>, Seq<char>>,
) -> bool {
    by_key(list) && list.to_multiset() == touched(now, previous).to_multiset()
}

/// What a change costs lists every knob that is touched, once, and no other, with its
/// keys in rising order.
pub proof fn lemma_cost_is_listed_once(
    list: Seq<Knob>,
    now: Map<Seq<char>, Seq<char>>,
    previous: Map<Seq<char>, Seq<char>>,
)
    requires
        lists_touched(list, now, previous),
    ensures
        rising_by_key(list),
        forall|k: Knob| #[trigger]
            list.contains(k) <==> knob_table().contains(k) && is_touched(k, now, previous),
{
    broadcast use vstd::seq_lib::group_filter_ensures;

    let table = knob_table();
    let p = |k: Knob| is_touched(k, now, previous);
    let all = touched(now, previous);
    lemma_table_is_distinct();
    lemma_filter_is_distinct(table, p);
    all.lemma_multiset_has_no_duplicates();
    list.lemma_multiset_has_no_duplicates_conv();
    assert forall|k: Knob| #[trigger] list.contains(k) <==> table.contains(k) && is_touched(
        k,
        now,
        previous,
    ) by {
        vstd::seq_lib::to_multiset_contains(list, k);
        vstd::seq_lib::to_multiset_contains(all, k);
        if all.contains(k) {
            table.lemma_filter_contains_rev(p, k);
            let i = choose|i: int| 0 <= i < all.len() && all[i] == k;
            assert(p(table.filter(p)[i]));
        }
        if table.contains(k) && p(k) {
            let i = choose|i: int| 0 <= i < table.len() && table[i] == k;
            assert(table.filter(p).contains(table[i]));
        }
    }
    assert forall|i: int, j: int| 0 <= i < j < list.len() implies before(
        #[trigger] list[i].key@,
        #[trigger] list[j].key@,
    ) by {
        lemma_before_total(list[i].key@, list[j].key@);
        if list[i].key@ == list[j].key@ {
            assert(list.contains(list[i]) && list.contains(list[j]));
            let a = choose|a: int| 0 <= a < table.len() && table[a] == list[i];
            let b = choose|b: int| 0 <= b < table.len() && table[b] == list[j];
            assert(table[a].key@ == table[b].key@);
            assert(list[i] == list[j]);
        }
    }
}

proof fn lemma_rising_lists(a: Seq<Knob>, b: Seq<Knob>)
    requires
        rising_by_key(a),
        rising_by_key(b),
        forall|k: Knob| a.contains(k) <==> b.contains(k),
    ensures
        a == b,
    decreases a.len(),
{
    if a.len() == 0 {
        if b.len() > 0 {
            assert(b.contains(b[0]));
        }
        assert(a =~= b);
    } else {
        let x = a.last();
        assert(a[a.len() - 1] == x);
        assert(a.contains(x));
        assert(b.contains(x));
        let y = b.last();
        assert(b[b.len() - 1] == y);
        assert(b.contains(y));
        assert(a.contains(y));
        let i = choose|i: int| 0 <= i < a.len() && a[i] == y;
        let j = choose|j: int| 0 <= j < b.len() && b[j] == x;
        if i < a.len() - 1 && j < b.len() - 1 {
            assert(before(a[i].key@, a[a.len() - 1].key@));
            assert(before(b[j].key@, b[b.len() - 1].key@));
            lemma_before_transitive(x.key@, y.key@, x.key@);
            lemma_before_irreflexive(x.key@);
        }
        assert(x == y);
        let c = a.drop_last();
        let d = b.drop_last();
        assert forall|k: Knob| c.contains(k) <==> d.contains(k) by {
            if c.contains(k) {
                let m = choose|m: int| 0 <= m < c.len() && c[m] == k;
                assert(a[m] == k);
                assert(before(a[m].key@, a[a.len() - 1].key@));
                lemma_before_irreflexive(k.key@);
                assert(a.contains(k));
                assert(b.contains(k));
                let n = choose|n: int| 0 <= n < b.len() && b[n] == k;
                assert(n < b.len() - 1);
                assert(d[n] == k);
            }
            if d.contains(k) {
                let m = choose|m: int| 0 <= m < d.len() && d[m] == k;
                assert(b[m] == k);
                assert(before(b[m].key@, b[b.len() - 1].key@));
                lemma_before_irreflexive(k.key@);
                assert(b.contains(k));
                assert(a.contains(k));
                let n = choose|n: int| 0 <= n < a.len() && a[n] == k;
                assert(n < a.len() - 1);
                assert(c[n] == k);
            }
        }
        lemma_rising_lists(c, d);
        assert(a =~= c.push(x));
        assert(b =~= d.push(y));
    }
}

/// Going back costs what going there cost: the list is the same in both directions.
pub proof fn lemma_cost_is_the_same_both_ways(
    there: Seq<Knob>,
    back: Seq<Knob>,
    now: Map<Seq<char>, Seq<char>>,
    previous: Map<Seq<char>, Seq<char>>,
)
    requires
        lists_touched(there, now, previous),
        lists_touched(back, previous, now),
    ensures
        there == back,
{
    lemma_cost_is_listed_once(there, now, previous);
    lemma_cost_is_listed_once(back, previous, now);
    assert forall|k: Knob| there.contains(k) <==> back.contains(k) by {
        assert(is_touched(k, now, previous) == is_touched(k, previous, now));
    }
    lemma_rising_lists(there, back);
}

proof fn lemma_storable_insert(m: Map<Seq<char>, Seq<char>>, key: Seq<char>, value: Seq<char>)
    requires
        all_storable(m),
        storable(key, value),
    ensures
        all_storable(m.insert(key, value)),
{
    let longer = m.insert(key, value);
    assert forall|k: Seq<char>| #[trigger] longer.dom().contains(k) implies storable(
        k,
        longer[k],
    ) by {
        if k != key {
            assert(m.dom().contains(k));
        }
    }
}

/// The defaults survive being saved and read.
pub proof fn lemma_defaults_are_storable()
    ensures
        all_storable(default_values()),
{
    let m0 = Map::<Seq<char>, Seq<char>>::empty();
    assert(storable("version"@, "5"@)) by {
        reveal_strlit("version");
        reveal_strlit("5");
    }
    lemma_storable_insert(m0, "version"@, "5"@);
    let m1 = m0.insert("version"@, "5"@);
    assert(storable("preset"@, "windows"@)) by {
        reveal_strlit("preset");
        reveal_strlit("windows");
    }
    lemma_storable_insert(m1, "preset"@, "windows"@);
    let m2 = m1.insert("preset"@, "windows"@);
    assert(storable("rate_hz"@, "48000"@)) by {
        reveal_strlit("rate_hz");
        reveal_strlit("48000");
    }
    lemma_storable_insert(m2, "rate_hz"@, "48000"@);
    let m3 = m2.insert("rate_hz"@, "48000"@);
    assert(storable("frame_ms"@, "7.5"@)) by {
        reveal_strlit("frame_ms");
        reveal_strlit("7.5");
    }
    lemma_storable_insert(m3, "frame_ms"@, "7.5"@);
    let m4 = m3.insert("frame_ms"@, "7.5"@);
    assert(storable("octets"@, "90"@)) by {
        reveal_strlit("octets");
        reveal_strlit("90");
    }
    lemma_storable_insert(m4, "octets"@, "90"@);
    let m5 = m4.insert("octets"@, "90"@);
    assert(storable("phy"@, "2M"@)) by {
        reveal_strlit("phy");
        reveal_strlit("2M");
    }
    lemma_storable_insert(m5, "phy"@, "2M"@);
    let m6 = m5.insert("phy"@, "2M"@);
    assert(storable("retransmissions"@, "13"@)) by {
        reveal_strlit("retransmissions");
        reveal_strlit("13");
    }
    lemma_storable_insert(m6, "retransmissions"@, "13"@);
    let m7 = m6.insert("retransmissions"@, "13"@);
    assert(storable("max_latency_ms"@, "75"@)) by {
        reveal_strlit("max_latency_ms");
        reveal_strlit("75");
    }
    lemma_storable_insert(m7, "max_latency_ms"@, "75"@);
    let m8 = m7.insert("max_latency_ms"@, "75"@);
    assert(storable("presentation_delay_ms"@, "40"@)) by {
        reveal_strlit("presentation_delay_ms");
        reveal_strlit("40");
    }
    lemma_storable_insert(m8, "presentation_delay_ms"@, "40"@);
    let m9 = m8.insert("presentation_delay_ms"@, "40"@);
    assert(storable("audio_mode"@, "stereo"@)) by {
        reveal_strlit("audio_mode");
        reveal_strlit("stereo");
    }
    lemma_storable_insert(m9, "audio_mode"@, "stereo"@);
    let m10 = m9.insert("audio_mode"@, "stereo"@);
    assert(storable("playback_source"@, "CABLE Output"@)) by {
        reveal_strlit("playback_source");
        reveal_strlit("CABLE Output");
    }
    lemma_storable_insert(m10, "playback_source"@, "CABLE Output"@);
    let m11 = m10.insert("playback_source"@, "CABLE Output"@);
    assert(storable("microphone_mode"@, "off"@)) by {
        reveal_strlit("microphone_mode");
        reveal_strlit("off");
    }
    lemma_storable_insert(m11, "microphone_mode"@, "off"@);
    let m12 = m11.insert("microphone_mode"@, "off"@);
    assert(storable("microphone_quality"@, "balanced"@)) by {
        reveal_strlit("microphone_quality");
        reveal_strlit("balanced");
    }
    lemma_storable_insert(m12, "microphone_quality"@, "balanced"@);
    let m13 = m12.insert("microphone_quality"@, "balanced"@);
    assert(storable("microphone_target"@, "vb-cable"@)) by {
        reveal_strlit("microphone_target");
        reveal_strlit("vb-cable");
    }
    lemma_storable_insert(m13, "microphone_target"@, "vb-cable"@);
    let m14 = m13.insert("microphone_target"@, "vb-cable"@);
    assert(storable("monitor_enabled"@, "false"@)) by {
        reveal_strlit("monitor_enabled");
        reveal_strlit("false");
    }
    lemma_storable_insert(m14, "monitor_enabled"@, "false"@);
    let m15 = m14.insert("monitor_enabled"@, "false"@);
    assert(storable("monitor_source"@, "default"@)) by {
        reveal_strlit("monitor_source");
        reveal_strlit("default");
    }
    lemma_storable_insert(m15, "monitor_source"@, "default"@);
    let m16 = m15.insert("monitor_source"@, "default"@);
    assert(storable("monitor_mode"@, "mix"@)) by {
        reveal_strlit("monitor_mode");
        reveal_strlit("mix");
    }
    lemma_storable_insert(m16, "monitor_mode"@, "mix"@);
    let m17 = m16.insert("monitor_mode"@, "mix"@);
    assert(storable("monitor_gain"@, "1.0"@)) by {
        reveal_strlit("monitor_gain");
        reveal_strlit("1.0");
    }
    lemma_storable_insert(m17, "monitor_gain"@, "1.0"@);
    let m18 = m17.insert("monitor_gain"@, "1.0"@);
    assert(storable("microphone_gain"@, "1.0"@)) by {
        reveal_strlit("microphone_gain");
        reveal_strlit("1.0");
    }
    lemma_storable_insert(m18, "microphone_gain"@, "1.0"@);
    let m19 = m18.insert("microphone_gain"@, "1.0"@);
    assert(storable("swap_channels"@, "false"@)) by {
        reveal_strlit("swap_channels");
        reveal_strlit("false");
    }
    lemma_storable_insert(m19, "swap_channels"@, "false"@);
    let m20 = m19.insert("swap_channels"@, "false"@);
    assert(storable("diagnostics"@, "true"@)) by {
        reveal_strlit("diagnostics");
        reveal_strlit("true");
    }
    lemma_storable_insert(m20, "diagnostics"@, "true"@);
    let m21 = m20.insert("diagnostics"@, "true"@);
    assert(storable("command_style"@, "class-device"@)) by {
        reveal_strlit("command_style");
        reveal_strlit("class-device");
    }
    lemma_storable_insert(m21, "command_style"@, "class-device"@);
    let m22 = m21.insert("command_style"@, "class-device"@);
    assert(storable("gain"@, "1.0"@)) by {
        reveal_strlit("gain");
        reveal_strlit("1.0");
    }
    lemma_storable_insert(m22, "gain"@, "1.0"@);
    let m23 = m22.insert("gain"@, "1.0"@);
    assert(storable("idle_timeout_min"@, "5"@)) by {
        reveal_strlit("idle_timeout_min");
        reveal_strlit("5");
    }
    lemma_storable_insert(m23, "idle_timeout_min"@, "5"@);
    let m24 = m23.insert("idle_timeout_min"@, "5"@);
    assert(storable("reconnect_enabled"@, "true"@)) by {
        reveal_strlit("reconnect_enabled");
        reveal_strlit("true");
    }
    lemma_storable_insert(m24, "reconnect_enabled"@, "true"@);
    let m25 = m24.insert("reconnect_enabled"@, "true"@);
    assert(storable("reconnect_interval_s"@, "5"@)) by {
        reveal_strlit("reconnect_interval_s");
        reveal_strlit("5");
    }
    lemma_storable_insert(m25, "reconnect_interval_s"@, "5"@);
    let m26 = m25.insert("reconnect_interval_s"@, "5"@);
    assert(storable("reconnect_window_min"@, "3"@)) by {
        reveal_strlit("reconnect_window_min");
        reveal_strlit("3");
    }
    lemma_storable_insert(m26, "reconnect_window_min"@, "3"@);
    let m27 = m26.insert("reconnect_window_min"@, "3"@);
    assert(storable("startup_reconnect_enabled"@, "true"@)) by {
        reveal_strlit("startup_reconnect_enabled");
        reveal_strlit("true");
    }
    lemma_storable_insert(m27, "startup_reconnect_enabled"@, "true"@);
    let m28 = m27.insert("startup_reconnect_enabled"@, "true"@);
    assert(storable("language"@, "en"@)) by {
        reveal_strlit("language");
        reveal_strlit("en");
    }
    lemma_storable_insert(m28, "language"@, "en"@);
    let m29 = m28.insert("language"@, "en"@);
    assert(storable("run_in_background"@, "false"@)) by {
        reveal_strlit("run_in_background");
        reveal_strlit("false");
    }
    lemma_storable_insert(m29, "run_in_background"@, "false"@);
    let m30 = m29.insert("run_in_background"@, "false"@);
    assert(storable("start_with_windows"@, "false"@)) by {
        reveal_strlit("start_with_windows");
        reveal_strlit("false");
    }
    lemma_storable_insert(m30, "start_with_windows"@, "false"@);
    let m31 = m30.insert("start_with_windows"@, "false"@);
}

/// What this version saves itself is never replaced. Of other versions, those that
/// are whole numbers count by their size: the version is the number that it is taken
/// for.
pub proof fn lemma_own_version_is_recent(values: Map<Seq<char>, Seq<char>>)
    requires
        value_in(values, "version"@) == Some(Settings::VERSION@),
    ensures
        all_digits(Settings::VERSION@),
        digits_value(Settings::VERSION@) == Settings::VERSION_NUMBER,
        is_recent(values),
{
    reveal_strlit("5");
    assert(Settings::VERSION@ =~= seq!['5']);
    assert(Settings::VERSION@.drop_last() =~= Seq::empty());
    assert(digits_value(Settings::VERSION@.drop_last()) == 0);
}

/// Saved settings are back after a restart, on top of the defaults; settings
/// saved by an older version are not.
pub proof fn lemma_saved_settings_return(settings: Settings)
    requires
        settings.wf(),
        all_storable(settings@),
    ensures
        is_recent(settings@) ==> restored(Some(file_text(settings.pairs())))
            == default_values().union_prefer_right(settings@),
        !is_recent(settings@) ==> restored(Some(file_text(settings.pairs()))) == default_values(),
{
    lemma_reads_back(settings);
}

/// Switching versions back and forth deletes nothing: whatever a file of this version
/// or a newer one holds is there after it was restored, stands in the file that is
/// saved then, and is there again when that is restored.
pub proof fn lemma_newer_file_keeps_its_keys(text: Seq<char>, settings: Settings, key: Seq<char>)
    requires
        is_recent(read_text(text)),
        settings.wf(),
        settings@ == restored(Some(text)),
        read_text(text).dom().contains(key),
    ensures
        value_in(settings@, key) == Some(read_text(text)[key]),
        value_in(read_text(file_text(settings.pairs())), key) == Some(read_text(text)[key]),
        value_in(restored(Some(file_text(settings.pairs()))), key) == Some(read_text(text)[key]),
{
    let values = read_text(text);
    lemma_read_is_storable(text);
    lemma_defaults_are_storable();
    assert forall|k: Seq<char>| #[trigger] settings@.dom().contains(k) implies storable(
        k,
        settings@[k],
    ) by {
        if values.dom().contains(k) {
            assert(storable(k, values[k]));
        } else {
            assert(default_values().dom().contains(k));
        }
    }
    lemma_reads_back(settings);
    assert(values.dom().contains("version"@));
    assert(settings@.dom().contains("version"@));
    assert(settings@["version"@] == values["version"@]);
}

} // verus!
