//! Shapes of a stream, and walking through them until one is accepted.
//!
//! A channel that reports a failure has had its handle released by the controller,
//! so there is nothing left to ask again for: the only real recovery is to hand the
//! streams back, tear the group down and build the whole thing afresh, in another
//! shape where the device is known to need it.

use vstd::prelude::*;

use crate::agent::message::{lines, log, nothing, Line, Message};
use crate::agent::play::{Setup, Staging};
use crate::agent::state::{Agent, Standing};
use crate::bap::{
    QosConfiguration, CONTEXT_CONVERSATIONAL, CONTEXT_GAME, CONTEXT_MEDIA, LATENCY_BALANCED,
    LATENCY_HIGH_RELIABILITY, LATENCY_LOW,
};

use crate::cis::{Channels, CisOutcome};
use crate::session::{SessionError, Trouble};
use crate::settings::value_in;
use crate::stream::Planned;
use crate::text::{
    contains, decimal, decimal_text, lemma_lower_once, lemma_word_is_found, lower, lower_chars,
    occurs_in, phrase, push_decimal, same, sentence,
};

verus! {

// ---------------------------------------------------------------------------
// The shapes
// ---------------------------------------------------------------------------

/// One way of asking the device to set the stream up.
///
/// Every field here is something the specification lets a host choose freely and
/// the device is allowed to react to. Which combination a headset accepts is a
/// property of its firmware, not something derivable - so it is measured.
#[derive(Debug, Clone, Copy)]
pub struct Variant {
    pub name: &'static str,
    pub target_latency: u8,
    pub context: u16,
    pub phy: u8,
}

/// Most likely first: what the Windows trace shows, then progressively more
/// conservative shapes.
pub open spec fn variant_table() -> Seq<Variant> {
    seq![
        Variant {
            name: "windows",
            target_latency: LATENCY_BALANCED,
            context: CONTEXT_MEDIA,
            phy: 0x02,
        },
        Variant {
            name: "spolehlivost",
            target_latency: LATENCY_HIGH_RELIABILITY,
            context: CONTEXT_MEDIA,
            phy: 0x02,
        },
        Variant { name: "hra", target_latency: LATENCY_LOW, context: CONTEXT_GAME, phy: 0x02 },
        Variant {
            name: "1M-vyvazena",
            target_latency: LATENCY_BALANCED,
            context: CONTEXT_MEDIA,
            phy: 0x01,
        },
        Variant {
            name: "1M-spolehlivost",
            target_latency: LATENCY_HIGH_RELIABILITY,
            context: CONTEXT_MEDIA,
            phy: 0x01,
        },
        Variant {
            name: "nizka-latence",
            target_latency: LATENCY_LOW,
            context: CONTEXT_MEDIA,
            phy: 0x02,
        },
    ]
}

pub fn variants() -> (r: Vec<Variant>)
    ensures
        r@ == variant_table(),
{
    vec![
        Variant {
            name: "windows",
            target_latency: LATENCY_BALANCED,
            context: CONTEXT_MEDIA,
            phy: 0x02,
        },
        Variant {
            name: "spolehlivost",
            target_latency: LATENCY_HIGH_RELIABILITY,
            context: CONTEXT_MEDIA,
            phy: 0x02,
        },
        Variant { name: "hra", target_latency: LATENCY_LOW, context: CONTEXT_GAME, phy: 0x02 },
        Variant {
            name: "1M-vyvazena",
            target_latency: LATENCY_BALANCED,
            context: CONTEXT_MEDIA,
            phy: 0x01,
        },
        Variant {
            name: "1M-spolehlivost",
            target_latency: LATENCY_HIGH_RELIABILITY,
            context: CONTEXT_MEDIA,
            phy: 0x01,
        },
        Variant {
            name: "nizka-latence",
            target_latency: LATENCY_LOW,
            context: CONTEXT_MEDIA,
            phy: 0x02,
        },
    ]
}

impl Variant {
    pub open spec fn text(self) -> Seq<char> {
        self.name@ + " ("@ + (if self.target_latency == LATENCY_LOW {
            "low latency"@
        } else if self.target_latency == LATENCY_HIGH_RELIABILITY {
            "high reliability"@
        } else {
            "balanced"@
        }) + ", "@ + (if self.context == CONTEXT_GAME {
            "hra"@
        } else if self.context == CONTEXT_CONVERSATIONAL {
            "hovor"@
        } else {
            "media"@
        }) + ", "@ + (if self.phy == 0x01 {
            "1M"@
        } else {
            "2M"@
        }) + ")"@
    }

    pub fn describe(&self) -> (r: String)
        ensures
            r@ == self.text(),
    {
        let mut out = String::new();
        out.append(self.name);
        out.append(" (");
        out.append(
            if self.target_latency == LATENCY_LOW {
                "low latency"
            } else if self.target_latency == LATENCY_HIGH_RELIABILITY {
                "high reliability"
            } else {
                "balanced"
            },
        );
        out.append(", ");
        out.append(
            if self.context == CONTEXT_GAME {
                "hra"
            } else if self.context == CONTEXT_CONVERSATIONAL {
                "hovor"
            } else {
                "media"
            },
        );
        out.append(", ");
        out.append(
            if self.phy == 0x01 {
                "1M"
            } else {
                "2M"
            },
        );
        out.append(")");
        assert(out@ =~= self.text());
        out
    }
}

/// How many shapes are tried: all of them on the one headset that is known to need
/// it, and the first alone on any other.
pub open spec fn variant_count(bond_name: Option<Seq<char>>) -> int {
    match bond_name {
        Some(name) => if occurs_in("jbl tune 780"@, lower(name)) {
            variant_table().len() as int
        } else {
            1
        },
        None => 1,
    }
}

/// The place of a shape by its name, or the end.
pub open spec fn variant_at(table: Seq<Variant>, name: Seq<char>) -> int
    decreases table.len(),
{
    if table.len() == 0 || table[0].name@ == name {
        0
    } else {
        1 + variant_at(table.skip(1), name)
    }
}

/// The places up to a number, without one of them.
pub open spec fn others(n: nat, without: int) -> Seq<int>
    decreases n,
{
    if n == 0 {
        Seq::empty()
    } else {
        let front = others((n - 1) as nat, without);
        if n - 1 == without {
            front
        } else {
            front.push(n - 1)
        }
    }
}

/// The order in which shapes are tried: the one that worked before comes first.
pub open spec fn order_of(count: nat, winning: Option<Seq<char>>) -> Seq<int> {
    match winning {
        Some(name) => {
            let at = variant_at(variant_table(), name);
            if at < count {
                seq![at] + others(count, at)
            } else {
                others(count, -1)
            }
        },
        None => others(count, -1),
    }
}

/// The places as numbers.
pub open spec fn places(s: Seq<usize>) -> Seq<int> {
    s.map_values(|n: usize| n as int)
}

fn place_of_variant(name: &str) -> (r: usize)
    ensures
        r == variant_at(variant_table(), name@),
        r <= 6,
{
    let table = variants();
    let mut i: usize = 0;
    assert(table@.skip(0) =~= table@);
    while i < table.len()
        invariant
            i <= table@.len(),
            table@ == variant_table(),
            variant_at(table@, name@) == i + variant_at(table@.skip(i as int), name@),
        decreases table@.len() - i,
    {
        assert(table@.skip(i as int)[0] == table@[i as int]);
        assert(table@.skip(i as int).skip(1) =~= table@.skip(i + 1));
        if same(table[i].name, name) {
            return i;
        }
        i += 1;
    }
    i
}

/// The order in which shapes are tried, by the name of the bond and the name of the
/// shape that worked before.
pub fn variant_order(bond_name: Option<&str>, winning: Option<&str>) -> (r: Vec<usize>)
    ensures
        places(r@) == order_of(
            variant_count(
                match bond_name {
                    Some(n) => Some(n@),
                    None => None,
                },
            ) as nat,
            match winning {
                Some(n) => Some(n@),
                None => None,
            },
        ),
{
    let special: bool = match bond_name {
        Some(name) => {
            let hay = lower_chars(name);
            contains(hay.as_slice(), crate::text::chars_of("jbl tune 780").as_slice())
        },
        None => false,
    };
    let count: usize = if special {
        6
    } else {
        1
    };
    let mut out: Vec<usize> = Vec::new();
    let mut known: usize = count;
    if let Some(name) = winning {
        let at: usize = place_of_variant(name);
        if at < count {
            known = at;
            out.push(at);
        }
    }
    let ghost first = places(out@);
    let ghost without: int = if known < count {
        known as int
    } else {
        -1
    };
    let mut i: usize = 0;
    assert(places(out@) =~= first + others(0, without));
    while i < count
        invariant
            i <= count,
            known <= count,
            without == (if known < count {
                known as int
            } else {
                -1
            }),
            places(out@) == first + others(i as nat, without),
        decreases count - i,
    {
        let ghost was = places(out@);
        if i != known {
            out.push(i);
            assert(places(out@) =~= was.push(i as int));
            assert(places(out@) =~= first + others((i + 1) as nat, without));
        } else {
            assert(others((i + 1) as nat, without) == others(i as nat, without));
        }
        i += 1;
    }
    proof {
        assert(first + others(count as nat, without) =~= places(out@));
        if known < count {
            assert(first =~= seq![known as int]);
        } else {
            assert(first =~= Seq::empty());
            assert(first + others(count as nat, -1) =~= others(count as nat, -1));
        }
    }
    out
}

// ---------------------------------------------------------------------------
// The walk
// ---------------------------------------------------------------------------

/// A walk through the shapes.
#[derive(Debug)]
pub struct Walk {
    /// The shapes in the order in which they are tried.
    pub order: Vec<usize>,
    /// How many have been tried.
    pub tried: usize,
}

/// What is known of a walk.
pub struct Path {
    pub order: Seq<int>,
    pub tried: int,
}

impl View for Walk {
    type V = Path;

    open spec fn view(&self) -> Path {
        Path { order: places(self.order@), tried: self.tried as int }
    }
}

impl Path {
    /// Every shape on the way is one of the table, and none was tried too many.
    pub open spec fn wf(self) -> bool {
        &&& forall|i: int|
            0 <= i < self.order.len() ==> 0 <= #[trigger] self.order[i] < variant_table().len()
        &&& 0 <= self.tried <= self.order.len()
    }
}

/// What a walk needs next.
#[derive(Debug)]
pub enum Stride {
    Establish,
    /// Release the streams, wait three tenths of a second, and configure codec and
    /// radio again.
    Reconfigure,
    /// Hand these channels back and remove the group; then go on.
    Clear(Vec<u16>),
    /// Every channel is up.
    Arrived(Vec<u16>),
    Lost(String),
}

/// What a walk needs, whatever holds it.
pub enum Pace {
    Establish,
    Reconfigure,
    Clear(Seq<u16>),
    Arrived(Seq<u16>),
    Lost(Seq<char>),
}

impl View for Stride {
    type V = Pace;

    open spec fn view(&self) -> Pace {
        match self {
            Stride::Establish => Pace::Establish,
            Stride::Reconfigure => Pace::Reconfigure,
            Stride::Clear(channels) => Pace::Clear(channels@),
            Stride::Arrived(channels) => Pace::Arrived(channels@),
            Stride::Lost(t) => Pace::Lost(t@),
        }
    }
}

/// The name that the device of the connection was paired under.
pub open spec fn paired_name(s: Standing) -> Option<Seq<char>> {
    match s.connected {
        Some((address, _)) => match crate::agent::bonds::bond_of(s.bonds, address) {
            Some(bond) => Some(bond.name),
            None => None,
        },
        None => None,
    }
}

/// What is said when a walk begins.
pub open spec fn walk_lines(count: int, winning: Option<Seq<char>>) -> Seq<Line> {
    let profile = Line::Log(
        if count > 1 {
            "JBL Tune 780NC compatibility profile active"@
        } else {
            "generic BAP profile without JBL-specific attempts"@
        },
    );
    match winning {
        Some(name) => if variant_at(variant_table(), name) < count {
            seq![
                Line::Log("starting with the variant that succeeded previously: "@ + name),
                profile,
            ]
        } else {
            seq![profile]
        },
        None => seq![profile],
    }
}

/// The stream in a shape. Where the user spelled the codec out the chosen radio is
/// authoritative.
pub open spec fn in_shape(g: Staging, v: Variant) -> Staging {
    Staging {
        plan: Planned {
            target_latency: v.target_latency,
            context: v.context,
            qos: if g.custom {
                g.plan.qos
            } else {
                QosConfiguration { phy: v.phy, ..g.plan.qos }
            },
            ..g.plan
        },
        ..g
    }
}

/// The end of a walk that led nowhere.
pub open spec fn nowhere(p: Path) -> Pace {
    Pace::Lost(
        "none of "@ + decimal(p.order.len())
            + " variants established both channels; try legacy or mono mode"@,
    )
}

/// The next shape is tried: the first as the stream was configured, any other from
/// the beginning.
pub open spec fn stride_turn(p: Path, g: Staging) -> (Path, Staging, Seq<Line>, Pace) {
    if p.tried >= p.order.len() {
        (p, g, Seq::empty(), nowhere(p))
    } else {
        let v = variant_table()[p.order[p.tried]];
        let now = Path { tried: p.tried + 1, ..p };
        if now.tried > 1 {
            (
                now,
                in_shape(g, v),
                seq![
                    Line::Log(
                        "pokus "@ + decimal(now.tried as nat) + "/"@ + decimal(p.order.len())
                            + ": "@ + v.text(),
                    ),
                ],
                Pace::Reconfigure,
            )
        } else {
            (now, in_shape(g, v), Seq::empty(), Pace::Establish)
        }
    }
}

/// What follows an attempt to bring the channels up in a shape.
pub open spec fn tried_turn(p: Path, outcome: Result<Channels, Trouble>) -> (Seq<Line>, Pace) {
    let v = variant_table()[p.order[p.tried - 1]];
    match outcome {
        Ok(channels) => if channels.failed.len() == 0 {
            (
                seq![
                    Line::Log("USPELO: "@ + v.text() + " - "@ + channels.description()),
                ],
                Pace::Arrived(channels.established),
            )
        } else {
            (
                seq![Line::Log("  "@ + channels.description())],
                Pace::Clear(channels.established),
            )
        },
        Err(e) => (seq![Line::Log("  "@ + e.message())], Pace::Clear(Seq::empty())),
    }
}

impl Agent {
    /// Begins a walk for the device that is connected.
    pub fn begin_walk(&self) -> (r: (Walk, Vec<Message>))
        requires
            self.wf(),
        ensures
            ({
                let count = variant_count(paired_name(self@));
                let winning = value_in(self@.settings, "winning_variant"@);
                let (walk, said) = r;
                &&& walk@ == (Path { order: order_of(count as nat, winning), tried: 0 })
                &&& walk@.wf()
                &&& lines(said@) == walk_lines(count, winning)
            }),
    {
        let name: Option<&str> = match &self.connected {
            Some((address, _)) => match self.bonds.get(address.as_str()) {
                Some(bond) => Some(bond.name.as_str()),
                None => None,
            },
            None => None,
        };
        let winning: Option<&str> = self.settings.get("winning_variant");
        let order: Vec<usize> = variant_order(name, winning);
        let count: usize = order.len();
        let ghost said = match winning {
            Some(n) => Some(n@),
            None => None,
        };
        proof {
            assert(paired_name(self@) == (match name {
                Some(n) => Some(n@),
                None => None,
            }));
            assert(said == value_in(self@.settings, "winning_variant"@));
            lemma_every_variant_is_tried_once(
                variant_count(paired_name(self@)) as nat,
                said,
            );
            assert(places(order@).len() == order@.len());
        }
        let mut out = nothing();
        if let Some(known) = winning {
            if place_of_variant(known) < count {
                log(
                    &mut out,
                    phrase(
                        "starting with the variant that succeeded previously: ",
                        known,
                    ).as_str(),
                );
            }
        }
        if count > 1 {
            log(&mut out, "JBL Tune 780NC compatibility profile active");
        } else {
            log(&mut out, "generic BAP profile without JBL-specific attempts");
        }
        (Walk { order, tried: 0 }, out)
    }
}

impl Walk {
    /// Goes on to the next shape.
    pub fn stride(&mut self, setup: &mut Setup) -> (r: (Vec<Message>, Stride))
        requires
            old(self)@.wf(),
        ensures
            final(self)@.wf(),
            (final(self)@, final(setup)@, lines((r.0)@), (r.1)@) == stride_turn(
                old(self)@,
                old(setup)@,
            ),
    {
        let ghost p = self@;
        let mut out = nothing();
        let total: usize = self.order.len();
        if self.tried >= total {
            let text = sentence(
                "none of ",
                decimal_text(total as u64).as_str(),
                " variants established both channels; try legacy or mono mode",
            );
            return (out, Stride::Lost(text));
        }
        let table = variants();
        assert(0 <= p.order[p.tried] < variant_table().len());
        let variant: Variant = table[self.order[self.tried]];
        self.tried = self.tried + 1;
        setup.plan.target_latency = variant.target_latency;
        setup.plan.context = variant.context;
        if !setup.custom {
            setup.plan.qos.phy = variant.phy;
        }
        if self.tried > 1 {
            let mut text = String::new();
            text.append("pokus ");
            push_decimal(&mut text, self.tried as u64);
            text.append("/");
            push_decimal(&mut text, total as u64);
            text.append(": ");
            text.append(variant.describe().as_str());
            assert(text@ =~= "pokus "@ + decimal(self.tried as nat) + "/"@ + decimal(
                p.order.len(),
            ) + ": "@ + variant.text());
            log(&mut out, text.as_str());
            return (out, Stride::Reconfigure);
        }
        (out, Stride::Establish)
    }

    /// Takes the outcome of configuring the stream again. After a failed channel
    /// some devices go quiet for a while: the right answer is to stop trying new
    /// shapes and say so.
    pub fn reconfigured(&mut self, outcome: Result<(), SessionError>) -> (r: (Vec<Message>, Stride))
        requires
            old(self)@.wf(),
        ensures
            final(self)@.wf(),
            final(self)@.order == old(self)@.order,
            match outcome {
                Ok(()) => final(self)@ == old(self)@ && lines((r.0)@).len() == 0 && (r.1)@
                    == Pace::Establish,
                Err(e) => final(self)@.tried == old(self)@.order.len() && lines((r.0)@) == seq![
                    Line::Log(
                        "  headphones stopped responding ("@ + e@.message()
                            + "); ending retries"@,
                    ),
                ] && (r.1)@ == nowhere(old(self)@),
            },
    {
        let mut out = nothing();
        match outcome {
            Ok(()) => (out, Stride::Establish),
            Err(e) => {
                log(
                    &mut out,
                    sentence(
                        "  headphones stopped responding (",
                        e.text().as_str(),
                        "); ending retries",
                    ).as_str(),
                );
                let total: usize = self.order.len();
                self.tried = total;
                let text = sentence(
                    "none of ",
                    decimal_text(total as u64).as_str(),
                    " variants established both channels; try legacy or mono mode",
                );
                (out, Stride::Lost(text))
            },
        }
    }
}

impl Agent {
    /// Takes the outcome of bringing the channels up in a shape. One that works is
    /// remembered, so the next connection starts there: the settings have to be
    /// stored.
    pub fn shape_tried(&mut self, walk: &Walk, outcome: Result<CisOutcome, SessionError>) -> (r: (
        Vec<Message>,
        Stride,
    ))
        requires
            old(self).wf(),
            walk@.wf(),
            walk@.tried > 0,
        ensures
            final(self).wf(),
            ({
                let came = match outcome {
                    Ok(channels) => Ok(channels@),
                    Err(e) => Err(e@),
                };
                let name = variant_table()[walk@.order[walk@.tried - 1]].name@;
                &&& (lines((r.0)@), (r.1)@) == tried_turn(walk@, came)
                &&& final(self)@ == if (r.1)@ is Arrived {
                    Standing {
                        settings: old(self)@.settings.insert("winning_variant"@, name),
                        ..old(self)@
                    }
                } else {
                    old(self)@
                }
            }),
    {
        let table = variants();
        assert(0 <= walk@.order[walk@.tried - 1] < variant_table().len());
        let variant: Variant = table[walk.order[walk.tried - 1]];
        let mut out = nothing();
        match outcome {
            Ok(channels) => {
                if channels.complete() {
                    let mut text = String::new();
                    text.append("USPELO: ");
                    text.append(variant.describe().as_str());
                    text.append(" - ");
                    text.append(channels.describe().as_str());
                    assert(text@ =~= "USPELO: "@ + variant.text() + " - "@
                        + channels@.description());
                    log(&mut out, text.as_str());
                    self.settings.set("winning_variant", variant.name);
                    return (out, Stride::Arrived(channels.established));
                }
                log(&mut out, phrase("  ", channels.describe().as_str()).as_str());
                (out, Stride::Clear(channels.established))
            },
            Err(e) => {
                log(&mut out, phrase("  ", e.text().as_str()).as_str());
                let none: Vec<u16> = Vec::new();
                assert(none@ =~= Seq::empty());
                (out, Stride::Clear(none))
            },
        }
    }
}

// ---------------------------------------------------------------------------
// Laws
// ---------------------------------------------------------------------------

proof fn lemma_others(n: nat, without: int)
    ensures
        forall|i: int| #[trigger] others(n, without).contains(i) <==> 0 <= i < n && i != without,
        others(n, without).no_duplicates(),
        others(n, without).len() == (if 0 <= without < n {
            n - 1
        } else {
            n as int
        }),
    decreases n,
{
    if n > 0 {
        let front = others((n - 1) as nat, without);
        let now = others(n, without);
        lemma_others((n - 1) as nat, without);
        if n - 1 != without {
            assert(now == front.push(n - 1));
            assert forall|i: int| #[trigger] now.contains(i) <==> 0 <= i < n && i != without by {
                if front.contains(i) {
                    let k = choose|k: int| 0 <= k < front.len() && front[k] == i;
                    assert(now[k] == i);
                }
                if i == n - 1 {
                    assert(now[now.len() - 1] == i);
                }
                if now.contains(i) && i != n - 1 {
                    let k = choose|k: int| 0 <= k < now.len() && now[k] == i;
                    assert(front[k] == i);
                }
            }
            assert(now.no_duplicates()) by {
                assert forall|a: int, b: int| 0 <= a < b < now.len() implies now[a] != now[b] by {
                    if b == now.len() - 1 {
                        assert(front.contains(front[a]));
                    }
                }
            }
        }
    } else {
        assert(others(n, without) =~= Seq::empty());
    }
}

/// Every shape that is tried at all is tried once, and the one that worked before
/// is tried first.
pub proof fn lemma_every_variant_is_tried_once(count: nat, winning: Option<Seq<char>>)
    ensures
        order_of(count, winning).len() == count,
        order_of(count, winning).no_duplicates(),
        forall|i: int|
            #[trigger] order_of(count, winning).contains(i) <==> 0 <= i < count,
        forall|k: int| 0 <= k < count ==> 0 <= #[trigger] order_of(count, winning)[k] < count,
        winning is Some && variant_at(variant_table(), winning->0) < count ==> order_of(
            count,
            winning,
        )[0] == variant_at(variant_table(), winning->0),
{
    let order = order_of(count, winning);
    if winning is Some && variant_at(variant_table(), winning->0) < count {
        let at = variant_at(variant_table(), winning->0);
        lemma_variant_at(variant_table(), winning->0);
        lemma_others(count, at);
        let rest = others(count, at);
        assert(order == seq![at] + rest);
        assert forall|i: int| #[trigger] order.contains(i) <==> 0 <= i < count by {
            if i == at {
                assert(order[0] == i);
            } else if rest.contains(i) {
                let k = choose|k: int| 0 <= k < rest.len() && rest[k] == i;
                assert(order[k + 1] == i);
            }
            if order.contains(i) && i != at {
                let k = choose|k: int| 0 <= k < order.len() && order[k] == i;
                assert(rest[k - 1] == i);
                assert(rest.contains(i));
            }
        }
        assert forall|a: int, b: int| 0 <= a < b < order.len() implies order[a] != order[b] by {
            assert(order[b] == rest[b - 1]);
            assert(rest.contains(rest[b - 1]));
            if a > 0 {
                assert(order[a] == rest[a - 1]);
            }
        }
    } else {
        lemma_others(count, -1);
    }
    assert forall|k: int| 0 <= k < count implies 0 <= #[trigger] order[k] < count by {
        assert(order.contains(order[k]));
    }
}

proof fn lemma_variant_at(table: Seq<Variant>, name: Seq<char>)
    ensures
        0 <= variant_at(table, name) <= table.len(),
    decreases table.len(),
{
    if table.len() > 0 && table[0].name@ != name {
        lemma_variant_at(table.skip(1), name);
    }
}

/// A walk ends: every stride tries one more shape, and after the last there is
/// nowhere to go.
pub proof fn lemma_walk_ends(p: Path, g: Staging)
    requires
        p.wf(),
    ensures
        p.tried < p.order.len() ==> stride_turn(p, g).0.tried == p.tried + 1,
        p.tried == p.order.len() ==> stride_turn(p, g).3 is Lost,
{
}

proof fn lemma_variant_names()
    ensures
        variant_table().len() == 6,
        variant_table()[0].name@ == "windows"@,
        variant_table()[1].name@ == "spolehlivost"@,
        variant_table()[2].name@ == "hra"@,
        variant_table()[3].name@ == "1M-vyvazena"@,
        variant_table()[4].name@ == "1M-spolehlivost"@,
        variant_table()[5].name@ == "nizka-latence"@,
        "windows"@.len() == 7,
        "spolehlivost"@.len() == 12,
        "hra"@.len() == 3,
        "1M-vyvazena"@.len() == 11,
        "1M-spolehlivost"@.len() == 15,
        "nizka-latence"@.len() == 13,
{
    reveal_strlit("windows");
    reveal_strlit("spolehlivost");
    reveal_strlit("hra");
    reveal_strlit("1M-vyvazena");
    reveal_strlit("1M-spolehlivost");
    reveal_strlit("nizka-latence");
}

proof fn lemma_place_of(table: Seq<Variant>, i: int)
    requires
        0 <= i < table.len(),
        forall|j: int| 0 <= j < i ==> (#[trigger] table[j]).name@ != table[i].name@,
    ensures
        variant_at(table, table[i].name@) == i,
    decreases i,
{
    if i > 0 {
        let rest = table.skip(1);
        assert(table[0].name@ != table[i].name@);
        assert forall|j: int| 0 <= j < i - 1 implies (#[trigger] rest[j]).name@ != rest[i
            - 1].name@ by {
            assert(rest[j] == table[j + 1]);
        }
        lemma_place_of(rest, i - 1);
    }
}

/// What worked before is tried first, by its name, and where nothing is known the shape
/// that Windows uses is. Balanced shapes are called so, and a shape whose name begins
/// with the slower radio uses it.
pub proof fn lemma_what_worked_is_tried_first(count: nat, i: int)
    requires
        0 <= i < count <= 6,
    ensures
        order_of(count, Some(variant_table()[i].name@))[0] == i,
        order_of(count, None)[0] == 0,
        variant_table()[0].name@ == "windows"@,
        variant_table()[i].phy == 1 <==> variant_table()[i].name@[0] == '1',
        variant_table()[i].phy == 1 || variant_table()[i].phy == 2,
        variant_table()[i].name@ == "hra"@ <==> variant_table()[i].context == 8,
        variant_table()[i].context == 8 || variant_table()[i].context == 4,
        variant_table()[i].target_latency == 1 <==> variant_table()[i].name@ == "hra"@
            || variant_table()[i].name@ == "nizka-latence"@,
        variant_table()[i].target_latency == 3 <==> variant_table()[i].name@ == "spolehlivost"@
            || variant_table()[i].name@ == "1M-spolehlivost"@,
        1 <= variant_table()[i].target_latency <= 3,
{
    let table = variant_table();
    lemma_variant_names();
    reveal_strlit("windows");
    reveal_strlit("spolehlivost");
    reveal_strlit("hra");
    reveal_strlit("1M-vyvazena");
    reveal_strlit("1M-spolehlivost");
    reveal_strlit("nizka-latence");
    assert forall|j: int| 0 <= j < i implies (#[trigger] table[j]).name@ != table[i].name@ by {
    }
    lemma_place_of(table, i);
    lemma_every_variant_is_tried_once(count, Some(table[i].name@));
    lemma_counting(count);
}

proof fn lemma_counting(n: nat)
    requires
        n > 0,
    ensures
        others(n, -1).len() == n,
        others(n, -1)[0] == 0,
    decreases n,
{
    if n > 1 {
        lemma_counting((n - 1) as nat);
    } else {
        reveal_with_fuel(others, 2);
    }
}

/// A shape is put on whole, but it never overrides a radio that the user chose, and it
/// leaves everything else of the stream alone.
pub proof fn lemma_chosen_radio_is_kept(g: Staging, v: Variant)
    ensures
        in_shape(g, v).plan.target_latency == v.target_latency,
        in_shape(g, v).plan.context == v.context,
        g.custom ==> in_shape(g, v).plan.qos == g.plan.qos,
        !g.custom ==> in_shape(g, v).plan.qos.phy == v.phy,
        in_shape(g, v).plan.qos.retransmission_number == g.plan.qos.retransmission_number,
        in_shape(g, v).plan.qos.max_transport_latency_ms == g.plan.qos.max_transport_latency_ms,
        in_shape(g, v).plan.qos.max_sdu == g.plan.qos.max_sdu,
        in_shape(g, v).plan.qos.presentation_delay_us == g.plan.qos.presentation_delay_us,
        in_shape(g, v).plan.codec == g.plan.codec,
        in_shape(g, v).plan.ase_ids == g.plan.ase_ids,
        in_shape(g, v).plan.microphone == g.plan.microphone,
        in_shape(g, v).plan.playback_enabled == g.plan.playback_enabled,
{
}

/// A walk arrives only where every channel came up, and then with all of them; what came
/// up of a stream that is not whole is cleared away. The first shape finds the endpoints
/// configured, and any later one has them configured anew.
pub proof fn lemma_walk_arrives_with_every_channel(
    p: Path,
    g: Staging,
    outcome: Result<Channels, Trouble>,
)
    requires
        p.wf(),
        p.tried > 0,
    ensures
        ({
            let pace = tried_turn(p, outcome).1;
            &&& pace is Arrived <==> outcome is Ok && outcome->Ok_0.failed.len() == 0
            &&& pace is Arrived ==> pace == Pace::Arrived(outcome->Ok_0.established)
            &&& outcome is Ok && outcome->Ok_0.failed.len() > 0 ==> pace == Pace::Clear(
                outcome->Ok_0.established,
            )
            &&& outcome is Err ==> pace == Pace::Clear(Seq::empty())
        }),
        p.tried < p.order.len() ==> stride_turn(p, g).3 == Pace::Reconfigure,
        p.order.len() > 0 ==> stride_turn(Path { tried: 0, ..p }, g).3 == Pace::Establish,
{
}

/// All shapes are tried on the one headset that needs them, however its name is written
/// and whatever stands around it. A headset without a name gets the first alone.
pub proof fn lemma_shapes_are_for_one_headset(
    before: Seq<char>,
    behind: Seq<char>,
    name: Seq<char>,
)
    ensures
        variant_count(Some(before + "JBL Tune 780"@ + behind)) == 6,
        variant_count(Some(before + "jbl tune 780"@ + behind)) == 6,
        variant_count(Some(lower(name))) == variant_count(Some(name)),
        variant_count(Some(name)) == 1 || variant_count(Some(name)) == 6,
        variant_count(Some(name)) == 6 ==> occurs_in("jbl tune 780"@, lower(name)),
        variant_count(None) == 1,
{
    lemma_variant_names();
    reveal_strlit("JBL Tune 780");
    reveal_strlit("jbl tune 780");
    assert(lower("JBL Tune 780"@) =~= "jbl tune 780"@);
    assert(lower("jbl tune 780"@) =~= "jbl tune 780"@);
    lemma_word_is_found(before, "JBL Tune 780"@, behind);
    lemma_word_is_found(before, "jbl tune 780"@, behind);
    lemma_lower_once(name);
}

} // verus!
