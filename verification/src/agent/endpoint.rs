//! What the endpoints of the headphones say about the stream they were asked for.

use vstd::prelude::*;

use crate::agent::message::{lines, log, nothing, Line, Message};
use crate::att::{Characteristic, ServiceRange};
use crate::bap::{
    configured_in, parse_configured_codec, parse_preferred_qos, preferred_in, CodecConfiguration,
    FrameDuration, PreferredQos,
};
use crate::link::procedure::{
    all_characteristics_stage, all_services_stage, read_stage, said, Reply, Said, Stage, Step,
};
use crate::link::{
    find_characteristic, find_service, first_characteristic, first_service, pacs_uuid, Link,
};
use crate::text::{decimal, hex, phrase, push_decimal, push_hex};

verus! {

// ---------------------------------------------------------------------------
// Reading
// ---------------------------------------------------------------------------

/// The values of endpoints; one that could not be read has none.
#[derive(Debug)]
pub struct Readings {
    pub values: Vec<(u8, Option<Vec<u8>>)>,
}

/// What the values of endpoints are.
pub open spec fn readings(s: Seq<(u8, Option<Vec<u8>>)>) -> Seq<(u8, Option<Seq<u8>>)> {
    Seq::new(
        s.len(),
        |i: int|
            (
                s[i].0,
                match s[i].1 {
                    Some(v) => Some(v@),
                    None => None,
                },
            ),
    )
}

impl View for Readings {
    type V = Seq<(u8, Option<Seq<u8>>)>;

    open spec fn view(&self) -> Seq<(u8, Option<Seq<u8>>)> {
        readings(self.values@)
    }
}

/// Endpoints are read one after the other; one that cannot be read is passed over.
pub open spec fn readings_stage(
    s: Seq<Said>,
    at: int,
    handles: Seq<(u8, u16)>,
    found: Seq<(u8, Option<Seq<u8>>)>,
) -> Stage<Seq<(u8, Option<Seq<u8>>)>>
    decreases handles.len(),
{
    if handles.len() == 0 {
        Stage::Done(found, at)
    } else {
        let (ase_id, handle) = handles[0];
        match read_stage(s, at, handle) {
            Stage::Ask(pdu) => Stage::Ask(pdu),
            Stage::Failed(_, n) => readings_stage(s, n, handles.skip(1), found.push((ase_id, None))),
            Stage::Done(value, n) => readings_stage(
                s,
                n,
                handles.skip(1),
                found.push((ase_id, Some(value))),
            ),
        }
    }
}

/// Every endpoint that was to be read has a reading, in its place.
pub proof fn lemma_every_endpoint_is_read(
    s: Seq<Said>,
    at: int,
    handles: Seq<(u8, u16)>,
    found: Seq<(u8, Option<Seq<u8>>)>,
)
    ensures
        readings_stage(s, at, handles, found) matches Stage::Done(out, _) ==> {
            &&& out.len() == found.len() + handles.len()
            &&& out.take(found.len() as int) == found
            &&& forall|i: int|
                0 <= i < handles.len() ==> #[trigger] out[found.len() + i].0 == handles[i].0
        },
    decreases handles.len(),
{
    if handles.len() == 0 {
        assert(found.take(found.len() as int) =~= found);
    } else {
        let (ase_id, handle) = handles[0];
        let rest = handles.skip(1);
        let (value, n) = match read_stage(s, at, handle) {
            Stage::Ask(pdu) => (None, at),
            Stage::Failed(_, n) => (None, n),
            Stage::Done(value, n) => (Some(value), n),
        };
        let longer = found.push((ase_id, value));
        lemma_every_endpoint_is_read(s, n, rest, longer);
        if let Stage::Done(out, _) = readings_stage(s, at, handles, found) {
            assert(out.take(longer.len() as int) == longer);
            assert(out[found.len() as int] == out.take(longer.len() as int)[found.len() as int]);
            assert(out.take(found.len() as int) =~= longer.take(found.len() as int));
            assert(longer.take(found.len() as int) =~= found);
            assert forall|i: int| 0 <= i < handles.len() implies #[trigger] out[found.len() + i].0
                == handles[i].0 by {
                if i > 0 {
                    assert(out[longer.len() + (i - 1)].0 == rest[i - 1].0);
                }
            }
        }
    }
}

/// Reads each endpoint.
///
/// Read rather than subscribed: notifications arriving during setup are what
/// stopped the second isochronous channel coming up, and a plain read gets the same
/// value without putting anything extra on the air.
pub fn read_endpoints(handles: &[(u8, u16)], replies: &[Reply], at: usize) -> (r: Step<Readings>)
    ensures
        r@ == readings_stage(said(replies@), at as int, handles@, Seq::empty()),
{
    let ghost s = said(replies@);
    let ghost goal = readings_stage(s, at as int, handles@, Seq::empty());
    let mut out: Vec<(u8, Option<Vec<u8>>)> = Vec::new();
    let mut next: usize = at;
    let mut i: usize = 0;
    assert(handles@.skip(0) =~= handles@);
    assert(readings(out@) =~= Seq::empty());
    while i < handles.len()
        invariant
            i <= handles@.len(),
            s == said(replies@),
            goal == readings_stage(s, at as int, handles@, Seq::empty()),
            goal == readings_stage(s, next as int, handles@.skip(i as int), readings(out@)),
        decreases handles@.len() - i,
    {
        let (ase_id, handle): (u8, u16) = handles[i];
        assert(handles@.skip(i as int)[0] == (ase_id, handle));
        assert(handles@.skip(i as int).skip(1) =~= handles@.skip(i + 1));
        let ghost was = out@;
        match Link::read_characteristic(handle, replies, next) {
            Step::Ask(pdu) => {
                return Step::Ask(pdu);
            },
            Step::Failed(_, n) => {
                out.push((ase_id, None));
                assert(readings(out@) =~= readings(was).push((ase_id, None)));
                next = n;
            },
            Step::Done(value, n) => {
                let ghost v = value@;
                out.push((ase_id, Some(value)));
                assert(readings(out@) =~= readings(was).push((ase_id, Some(v))));
                next = n;
            },
        }
        i += 1;
    }
    Step::Done(Readings { values: out }, next)
}

// ---------------------------------------------------------------------------
// What is preferred
// ---------------------------------------------------------------------------

/// What the headphones published about the stream they have just configured.
///
/// Every field is what the device asked for, never what we hoped for.
#[derive(Debug, Clone, Copy, PartialEq, Eq, Structural)]
pub struct DevicePreference {
    pub presentation_delay_us: Option<u32>,
    /// The retransmission count the server recommends.
    pub retransmissions: Option<u8>,
    /// The longest transport latency the server supports. Ours must not exceed it.
    pub max_transport_latency_ms: Option<u16>,
    /// Bit 0 is 1M, bit 1 is 2M. Only consulted when 2M is absent.
    pub phy_preference: Option<u8>,
}

impl DevicePreference {
    /// Nothing is preferred.
    pub open spec fn nothing() -> Self {
        DevicePreference {
            presentation_delay_us: None,
            retransmissions: None,
            max_transport_latency_ms: None,
            phy_preference: None,
        }
    }
}

/// The larger of what was known and what is new.
pub open spec fn at_least_u32(known: Option<u32>, new: u32) -> Option<u32> {
    match known {
        Some(k) => if k >= new {
            Some(k)
        } else {
            Some(new)
        },
        None => Some(new),
    }
}

/// What is preferred after one more endpoint has said what it wants. Every endpoint
/// has to live with the same delay, so the largest satisfies all of them; so does
/// the highest count of retransmissions. Transport latency is a ceiling, so the
/// lowest is the only one every endpoint can meet. A radio counts where all of
/// them offer it. Zero says nothing.
pub open spec fn with_preference(
    p: DevicePreference,
    qos: PreferredQos,
    wanted: u32,
) -> DevicePreference {
    DevicePreference {
        presentation_delay_us: at_least_u32(p.presentation_delay_us, qos.chosen_delay(wanted)),
        retransmissions: if qos.retransmission_preference > 0 {
            match p.retransmissions {
                Some(k) => if k >= qos.retransmission_preference {
                    Some(k)
                } else {
                    Some(qos.retransmission_preference)
                },
                None => Some(qos.retransmission_preference),
            }
        } else {
            p.retransmissions
        },
        max_transport_latency_ms: if qos.max_transport_latency_ms > 0 {
            match p.max_transport_latency_ms {
                Some(k) => if k <= qos.max_transport_latency_ms {
                    Some(k)
                } else {
                    Some(qos.max_transport_latency_ms)
                },
                None => Some(qos.max_transport_latency_ms),
            }
        } else {
            p.max_transport_latency_ms
        },
        phy_preference: if qos.phy_preference != 0 {
            match p.phy_preference {
                Some(k) => Some(k & qos.phy_preference),
                None => Some(qos.phy_preference),
            }
        } else {
            p.phy_preference
        },
    }
}

/// What an endpoint that was read prefers.
pub open spec fn wanted_by(reading: (u8, Option<Seq<u8>>)) -> Option<PreferredQos> {
    match reading.1 {
        Some(value) => preferred_in(value),
        None => None,
    }
}

/// What endpoints prefer together.
pub open spec fn preference_of(s: Seq<(u8, Option<Seq<u8>>)>, wanted: u32) -> DevicePreference
    decreases s.len(),
{
    if s.len() == 0 {
        DevicePreference::nothing()
    } else {
        let front = preference_of(s.drop_last(), wanted);
        match wanted_by(s.last()) {
            Some(qos) => with_preference(front, qos, wanted),
            None => front,
        }
    }
}

/// What is said of the wishes of an endpoint.
pub open spec fn wishes_text(ase_id: u8, qos: PreferredQos) -> Seq<char> {
    "  ASE "@ + decimal(ase_id as nat) + " requests "@ + decimal(
        qos.presentation_delay_min_us as nat,
    ) + "-"@ + decimal(qos.presentation_delay_max_us as nat) + " µs delay, prefers "@ + decimal(
        qos.preferred_delay_min_us as nat,
    ) + " µs, RTN "@ + decimal(qos.retransmission_preference as nat) + ", latency "@ + decimal(
        qos.max_transport_latency_ms as nat,
    ) + " ms"@
}

/// What is said of the codec that an endpoint has configured.
pub open spec fn configured_text(ase_id: u8, codec: CodecConfiguration) -> Seq<char> {
    "  ASE "@ + decimal(ase_id as nat) + " configured: "@ + decimal(
        match codec.sampling_frequency.rate() {
            Some(hz) => hz as nat,
            None => 0,
        },
    ) + " Hz, "@ + (if codec.frame_duration == FrameDuration::Ms7_5 {
        "7.5"@
    } else {
        "10"@
    }) + " ms, "@ + decimal(codec.octets_per_frame as nat) + " octets, allocation "@ + hex(
        codec.channel_allocation as nat,
        8,
    )
}

/// What is said of one endpoint that was read.
pub open spec fn reading_lines(reading: (u8, Option<Seq<u8>>)) -> Seq<Line> {
    match (wanted_by(reading), reading.1) {
        (Some(qos), Some(value)) => {
            let wishes = Line::Log(wishes_text(reading.0, qos));
            match configured_in(value) {
                Some(codec) => seq![wishes, Line::Log(configured_text(reading.0, codec))],
                None => seq![wishes],
            }
        },
        _ => Seq::empty(),
    }
}

/// What is said of endpoints that were read.
pub open spec fn readings_lines(s: Seq<(u8, Option<Seq<u8>>)>) -> Seq<Line>
    decreases s.len(),
{
    if s.len() == 0 {
        Seq::empty()
    } else {
        readings_lines(s.drop_last()) + reading_lines(s.last())
    }
}

fn describe_wishes(ase_id: u8, qos: &PreferredQos) -> (r: String)
    ensures
        r@ == wishes_text(ase_id, *qos),
{
    let mut out = String::new();
    out.append("  ASE ");
    push_decimal(&mut out, ase_id as u64);
    out.append(" requests ");
    push_decimal(&mut out, qos.presentation_delay_min_us as u64);
    out.append("-");
    push_decimal(&mut out, qos.presentation_delay_max_us as u64);
    out.append(" µs delay, prefers ");
    push_decimal(&mut out, qos.preferred_delay_min_us as u64);
    out.append(" µs, RTN ");
    push_decimal(&mut out, qos.retransmission_preference as u64);
    out.append(", latency ");
    push_decimal(&mut out, qos.max_transport_latency_ms as u64);
    out.append(" ms");
    assert(out@ =~= wishes_text(ase_id, *qos));
    out
}

fn describe_configured(ase_id: u8, codec: &CodecConfiguration) -> (r: String)
    ensures
        r@ == configured_text(ase_id, *codec),
{
    let mut out = String::new();
    out.append("  ASE ");
    push_decimal(&mut out, ase_id as u64);
    out.append(" configured: ");
    push_decimal(
        &mut out,
        match codec.sampling_frequency.hz() {
            Some(hz) => hz as u64,
            None => 0,
        },
    );
    out.append(" Hz, ");
    out.append(
        match codec.frame_duration {
            FrameDuration::Ms7_5 => "7.5",
            FrameDuration::Ms10 => "10",
        },
    );
    out.append(" ms, ");
    push_decimal(&mut out, codec.octets_per_frame as u64);
    out.append(" octets, allocation ");
    push_hex(&mut out, codec.channel_allocation, 8);
    assert(out@ =~= configured_text(ase_id, *codec));
    out
}

fn prefer(p: &DevicePreference, qos: &PreferredQos, wanted: u32) -> (r: DevicePreference)
    ensures
        r == with_preference(*p, *qos, wanted),
{
    let delay: u32 = qos.choose_presentation_delay(wanted);
    DevicePreference {
        presentation_delay_us: match p.presentation_delay_us {
            Some(k) => if k >= delay {
                Some(k)
            } else {
                Some(delay)
            },
            None => Some(delay),
        },
        retransmissions: if qos.retransmission_preference > 0 {
            match p.retransmissions {
                Some(k) => if k >= qos.retransmission_preference {
                    Some(k)
                } else {
                    Some(qos.retransmission_preference)
                },
                None => Some(qos.retransmission_preference),
            }
        } else {
            p.retransmissions
        },
        max_transport_latency_ms: if qos.max_transport_latency_ms > 0 {
            match p.max_transport_latency_ms {
                Some(k) => if k <= qos.max_transport_latency_ms {
                    Some(k)
                } else {
                    Some(qos.max_transport_latency_ms)
                },
                None => Some(qos.max_transport_latency_ms),
            }
        } else {
            p.max_transport_latency_ms
        },
        phy_preference: if qos.phy_preference != 0 {
            match p.phy_preference {
                Some(k) => Some(k & qos.phy_preference),
                None => Some(qos.phy_preference),
            }
        } else {
            p.phy_preference
        },
    }
}

/// Puts together what the endpoints prefer, and says what each of them said.
pub fn ask_device_for_qos(list: &Readings, wanted_us: u32) -> (r: (DevicePreference, Vec<Message>))
    ensures
        r.0 == preference_of(list@, wanted_us),
        lines((r.1)@) == readings_lines(list@),
{
    let ghost all = list@;
    let mut preference = DevicePreference {
        presentation_delay_us: None,
        retransmissions: None,
        max_transport_latency_ms: None,
        phy_preference: None,
    };
    let mut out = nothing();
    let mut i: usize = 0;
    assert(all.take(0) =~= Seq::empty());
    while i < list.values.len()
        invariant
            i <= list.values@.len(),
            all == list@,
            all.len() == list.values@.len(),
            preference == preference_of(all.take(i as int), wanted_us),
            lines(out@) == readings_lines(all.take(i as int)),
        decreases list.values@.len() - i,
    {
        let ase_id: u8 = list.values[i].0;
        proof {
            assert(all.take(i + 1).drop_last() =~= all.take(i as int));
            assert(all.take(i + 1).last() == all[i as int]);
        }
        let ghost was = lines(out@);
        if let Some(value) = &list.values[i].1 {
            if let Some(qos) = parse_preferred_qos(value.as_slice()) {
                log(&mut out, describe_wishes(ase_id, &qos).as_str());
                if let Some(applied) = parse_configured_codec(value.as_slice()) {
                    log(&mut out, describe_configured(ase_id, &applied).as_str());
                }
                preference = prefer(&preference, &qos, wanted_us);
            }
        }
        assert(lines(out@) =~= was + reading_lines(all[i as int]));
        i += 1;
    }
    assert(all.take(all.len() as int) =~= all);
    (preference, out)
}

/// The delay alone: one that every endpoint accepts.
pub fn ask_device_for_delay(list: &Readings, wanted_us: u32) -> (r: (Option<u32>, Vec<Message>))
    ensures
        r.0 == preference_of(list@, wanted_us).presentation_delay_us,
        lines((r.1)@) == readings_lines(list@),
{
    let (preference, out): (DevicePreference, Vec<Message>) = ask_device_for_qos(list, wanted_us);
    (preference.presentation_delay_us, out)
}

// ---------------------------------------------------------------------------
// The control point
// ---------------------------------------------------------------------------

/// How far a search has come.
#[derive(Debug)]
pub enum Search {
    Ask(Vec<u8>),
    Found(u16),
    Failed(String),
}

/// How far a search has come, whatever holds the details.
pub enum Sought {
    Ask(Seq<u8>),
    Found(u16),
    Failed(Seq<char>),
}

impl View for Search {
    type V = Sought;

    open spec fn view(&self) -> Sought {
        match self {
            Search::Ask(pdu) => Sought::Ask(pdu@),
            Search::Found(handle) => Sought::Found(*handle),
            Search::Failed(t) => Sought::Failed(t@),
        }
    }
}

/// The ASE control point is looked for in the ASCS service.
pub open spec fn control_point_stage(s: Seq<Said>, at: int) -> Sought {
    match all_services_stage(s, at) {
        Stage::Ask(pdu) => Sought::Ask(pdu),
        Stage::Failed(e, _) => Sought::Failed("discovery selhalo: "@ + e.message()),
        Stage::Done(services, n) => match first_service(services, pacs_uuid::SERVICE_ASCS) {
            None => Sought::Failed("device does not expose the ASCS service"@),
            Some(ascs) => match all_characteristics_stage(s, n, ascs) {
                Stage::Ask(pdu) => Sought::Ask(pdu),
                Stage::Failed(e, _) => Sought::Failed("discovery selhalo: "@ + e.message()),
                Stage::Done(cs, _) => match first_characteristic(
                    cs,
                    pacs_uuid::ASE_CONTROL_POINT,
                ) {
                    None => Sought::Failed("ASCS has no control point"@),
                    Some(c) => Sought::Found(c.value_handle),
                },
            },
        },
    }
}

/// Locates the ASE control point, the only handle the stream ever writes to.
pub fn find_control_point(replies: &[Reply], at: usize) -> (r: Search)
    ensures
        r@ == control_point_stage(said(replies@), at as int),
{
    let (services, next): (Vec<ServiceRange>, usize) = match Link::discover_services(replies, at) {
        Step::Ask(pdu) => {
            return Search::Ask(pdu);
        },
        Step::Failed(e, _) => {
            return Search::Failed(phrase("discovery selhalo: ", e.text().as_str()));
        },
        Step::Done(services, n) => (services, n),
    };
    let ascs: ServiceRange = match find_service(services.as_slice(), pacs_uuid::SERVICE_ASCS) {
        None => {
            return Search::Failed("device does not expose the ASCS service".to_owned());
        },
        Some(ascs) => ascs,
    };
    let cs: Vec<Characteristic> = match Link::discover_characteristics(&ascs, replies, next) {
        Step::Ask(pdu) => {
            return Search::Ask(pdu);
        },
        Step::Failed(e, _) => {
            return Search::Failed(phrase("discovery selhalo: ", e.text().as_str()));
        },
        Step::Done(cs, _) => cs,
    };
    match find_characteristic(cs.as_slice(), pacs_uuid::ASE_CONTROL_POINT) {
        None => Search::Failed("ASCS has no control point".to_owned()),
        Some(c) => Search::Found(c.value_handle),
    }
}

// ---------------------------------------------------------------------------
// Laws
// ---------------------------------------------------------------------------

/// The delay that was put together is at least what every endpoint chose, and one
/// of them chose it.
pub proof fn lemma_delay_satisfies_all(s: Seq<(u8, Option<Seq<u8>>)>, wanted: u32, i: int)
    requires
        0 <= i < s.len(),
        wanted_by(s[i]) is Some,
    ensures
        preference_of(s, wanted).presentation_delay_us is Some,
        preference_of(s, wanted).presentation_delay_us->0 >= (wanted_by(s[i])->0).chosen_delay(
            wanted,
        ),
        exists|j: int|
            0 <= j < s.len() && #[trigger] wanted_by(s[j]) is Some && preference_of(
                s,
                wanted,
            ).presentation_delay_us->0 == (wanted_by(s[j])->0).chosen_delay(wanted),
    decreases s.len(),
{
    let front = s.drop_last();
    let last = s.len() - 1;
    if i < last {
        lemma_delay_satisfies_all(front, wanted, i);
        assert(front[i] == s[i]);
        let j = choose|j: int|
            0 <= j < front.len() && #[trigger] wanted_by(front[j]) is Some && preference_of(
                front,
                wanted,
            ).presentation_delay_us->0 == (wanted_by(front[j])->0).chosen_delay(wanted);
        assert(wanted_by(s[j]) == wanted_by(front[j]));
        assert(wanted_by(s[last]) == wanted_by(s.last()));
    } else {
        assert(s[i] == s.last());
        if exists|k: int| 0 <= k < front.len() && #[trigger] wanted_by(front[k]) is Some {
            let k = choose|k: int| 0 <= k < front.len() && #[trigger] wanted_by(front[k]) is Some;
            lemma_delay_satisfies_all(front, wanted, k);
            let j = choose|j: int|
                0 <= j < front.len() && #[trigger] wanted_by(front[j]) is Some && preference_of(
                    front,
                    wanted,
                ).presentation_delay_us->0 == (wanted_by(front[j])->0).chosen_delay(wanted);
            assert(wanted_by(s[j]) == wanted_by(front[j]));
        } else {
            lemma_silent_endpoints(front, wanted);
        }
    }
}

proof fn lemma_silent_endpoints(s: Seq<(u8, Option<Seq<u8>>)>, wanted: u32)
    requires
        forall|k: int| 0 <= k < s.len() ==> #[trigger] wanted_by(s[k]) is None,
    ensures
        preference_of(s, wanted) == DevicePreference::nothing(),
    decreases s.len(),
{
    if s.len() > 0 {
        let front = s.drop_last();
        assert forall|k: int| 0 <= k < front.len() implies #[trigger] wanted_by(
            front[k],
        ) is None by {
            assert(wanted_by(s[k]) is None);
        }
        lemma_silent_endpoints(front, wanted);
        assert(wanted_by(s[s.len() - 1]) is None);
    }
}

/// The transport latency that was put together is one that every endpoint supports.
pub proof fn lemma_latency_is_supported_by_all(
    s: Seq<(u8, Option<Seq<u8>>)>,
    wanted: u32,
    i: int,
)
    requires
        0 <= i < s.len(),
        wanted_by(s[i]) is Some,
        (wanted_by(s[i])->0).max_transport_latency_ms > 0,
    ensures
        preference_of(s, wanted).max_transport_latency_ms is Some,
        preference_of(s, wanted).max_transport_latency_ms->0 <= (
        wanted_by(s[i])->0).max_transport_latency_ms,
    decreases s.len(),
{
    if i < s.len() - 1 {
        assert(s.drop_last()[i] == s[i]);
        lemma_latency_is_supported_by_all(s.drop_last(), wanted, i);
    }
}

/// The count of retransmissions that was put together is at least what every endpoint
/// recommends, and one of them recommends it.
pub proof fn lemma_retransmissions_satisfy_all(
    s: Seq<(u8, Option<Seq<u8>>)>,
    wanted: u32,
    i: int,
)
    requires
        0 <= i < s.len(),
        recommended_by(s[i]) > 0,
    ensures
        preference_of(s, wanted).retransmissions is Some,
        preference_of(s, wanted).retransmissions->0 >= recommended_by(s[i]),
        exists|j: int|
            0 <= j < s.len() && preference_of(s, wanted).retransmissions->0
                == #[trigger] recommended_by(s[j]),
    decreases s.len(),
{
    let front = s.drop_last();
    let last = s.len() - 1;
    assert(s[last] == s.last());
    if i < last {
        assert(front[i] == s[i]);
        lemma_retransmissions_satisfy_all(front, wanted, i);
        let j = choose|j: int|
            0 <= j < front.len() && preference_of(front, wanted).retransmissions->0
                == #[trigger] recommended_by(front[j]);
        assert(recommended_by(s[j]) == recommended_by(front[j]));
        assert(recommended_by(s[last]) == recommended_by(s.last()));
    } else {
        assert(recommended_by(s[last]) == recommended_by(s.last()));
        if preference_of(front, wanted).retransmissions is Some {
            lemma_somebody_recommends(front, wanted);
            let j = choose|j: int|
                0 <= j < front.len() && preference_of(front, wanted).retransmissions->0
                    == #[trigger] recommended_by(front[j]);
            assert(recommended_by(s[j]) == recommended_by(front[j]));
        }
    }
}

/// The count of retransmissions that an endpoint recommends; none says nothing.
pub open spec fn recommended_by(reading: (u8, Option<Seq<u8>>)) -> u8 {
    match wanted_by(reading) {
        Some(qos) => qos.retransmission_preference,
        None => 0,
    }
}

proof fn lemma_somebody_recommends(s: Seq<(u8, Option<Seq<u8>>)>, wanted: u32)
    requires
        preference_of(s, wanted).retransmissions is Some,
    ensures
        exists|j: int|
            0 <= j < s.len() && preference_of(s, wanted).retransmissions->0
                == #[trigger] recommended_by(s[j]),
    decreases s.len(),
{
    let front = s.drop_last();
    let last = s.len() - 1;
    assert(s[last] == s.last());
    assert(recommended_by(s[last]) == recommended_by(s.last()));
    if preference_of(front, wanted).retransmissions is Some {
        lemma_somebody_recommends(front, wanted);
        let j = choose|j: int|
            0 <= j < front.len() && preference_of(front, wanted).retransmissions->0
                == #[trigger] recommended_by(front[j]);
        assert(recommended_by(s[j]) == recommended_by(front[j]));
    }
}

/// A radio that the endpoints offer together is offered by every endpoint that says
/// what it offers.
pub proof fn lemma_radio_is_offered_by_all(
    s: Seq<(u8, Option<Seq<u8>>)>,
    wanted: u32,
    i: int,
    radio: u8,
)
    requires
        0 <= i < s.len(),
        wanted_by(s[i]) is Some,
        (wanted_by(s[i])->0).phy_preference != 0,
    ensures
        preference_of(s, wanted).phy_preference is Some,
        preference_of(s, wanted).phy_preference->0 & radio != 0 ==> (
        wanted_by(s[i])->0).phy_preference & radio != 0,
    decreases s.len(),
{
    let front = s.drop_last();
    if i < s.len() - 1 {
        assert(front[i] == s[i]);
        lemma_radio_is_offered_by_all(front, wanted, i, radio);
        if let Some(qos) = wanted_by(s.last()) {
            let known = preference_of(front, wanted).phy_preference->0;
            let offered = qos.phy_preference;
            assert((known & offered) & radio != 0 ==> known & radio != 0) by (bit_vector);
        }
    } else {
        assert(s[i] == s.last());
        if let Some(known) = preference_of(front, wanted).phy_preference {
            let offered = (wanted_by(s[i])->0).phy_preference;
            assert((known & offered) & radio != 0 ==> offered & radio != 0) by (bit_vector);
        }
    }
}

/// The transport latency of an endpoint; zero where it says none.
pub open spec fn supported_by(reading: (u8, Option<Seq<u8>>)) -> u16 {
    match wanted_by(reading) {
        Some(qos) => qos.max_transport_latency_ms,
        None => 0,
    }
}

/// The transport latency that was put together is one that an endpoint names, and there
/// is none where no endpoint names any.
pub proof fn lemma_latency_is_somebodys(s: Seq<(u8, Option<Seq<u8>>)>, wanted: u32)
    ensures
        preference_of(s, wanted).max_transport_latency_ms is Some ==> preference_of(
            s,
            wanted,
        ).max_transport_latency_ms->0 > 0 && exists|j: int|
            0 <= j < s.len() && #[trigger] supported_by(s[j]) == preference_of(
                s,
                wanted,
            ).max_transport_latency_ms->0,
        preference_of(s, wanted).max_transport_latency_ms is None ==> forall|j: int|
            0 <= j < s.len() ==> #[trigger] supported_by(s[j]) == 0,
    decreases s.len(),
{
    if s.len() > 0 {
        let front = s.drop_last();
        let last = s.len() - 1;
        lemma_latency_is_somebodys(front, wanted);
        assert(s[last] == s.last());
        assert(supported_by(s[last]) == supported_by(s.last()));
        if preference_of(front, wanted).max_transport_latency_ms is Some {
            let j = choose|j: int|
                0 <= j < front.len() && #[trigger] supported_by(front[j]) == preference_of(
                    front,
                    wanted,
                ).max_transport_latency_ms->0;
            assert(supported_by(s[j]) == supported_by(front[j]));
        } else {
            assert forall|j: int| 0 <= j < s.len() && preference_of(
                s,
                wanted,
            ).max_transport_latency_ms is None implies #[trigger] supported_by(s[j]) == 0 by {
                if j < last {
                    assert(supported_by(front[j]) == 0);
                }
            }
        }
    }
}

/// A radio that every endpoint offers, as far as it says what it offers, counts.
pub proof fn lemma_radio_of_all_counts(s: Seq<(u8, Option<Seq<u8>>)>, wanted: u32, bit: u8)
    requires
        bit == 1 || bit == 2,
        forall|i: int|
            0 <= i < s.len() ==> (#[trigger] wanted_by(s[i]) is Some ==> {
                let offered = (wanted_by(s[i])->0).phy_preference;
                offered == 0 || offered & bit != 0
            }),
    ensures
        preference_of(s, wanted).phy_preference is Some ==> preference_of(
            s,
            wanted,
        ).phy_preference->0 & bit != 0,
        preference_of(s, wanted).phy_preference is Some <==> exists|i: int|
            0 <= i < s.len() && #[trigger] wanted_by(s[i]) is Some && (
            wanted_by(s[i])->0).phy_preference != 0,
    decreases s.len(),
{
    if s.len() > 0 {
        let front = s.drop_last();
        let last = s.len() - 1;
        assert forall|i: int|
            0 <= i < front.len() && #[trigger] wanted_by(front[i]) is Some implies {
            let offered = (wanted_by(front[i])->0).phy_preference;
            offered == 0 || offered & bit != 0
        } by {
            assert(wanted_by(s[i]) == wanted_by(front[i]));
        }
        lemma_radio_of_all_counts(front, wanted, bit);
        assert(wanted_by(s[last]) == wanted_by(s.last()));
        if exists|i: int|
            0 <= i < front.len() && #[trigger] wanted_by(front[i]) is Some && (
            wanted_by(front[i])->0).phy_preference != 0 {
            let i = choose|i: int|
                0 <= i < front.len() && #[trigger] wanted_by(front[i]) is Some && (
                wanted_by(front[i])->0).phy_preference != 0;
            assert(wanted_by(s[i]) == wanted_by(front[i]));
        }
        if exists|i: int|
            0 <= i < s.len() && #[trigger] wanted_by(s[i]) is Some && (
            wanted_by(s[i])->0).phy_preference != 0 {
            let i = choose|i: int|
                0 <= i < s.len() && #[trigger] wanted_by(s[i]) is Some && (
                wanted_by(s[i])->0).phy_preference != 0;
            if i < last {
                assert(wanted_by(front[i]) == wanted_by(s[i]));
            }
        }
        if let Some(qos) = wanted_by(s.last()) {
            if qos.phy_preference != 0 {
                if let Some(known) = preference_of(front, wanted).phy_preference {
                    let offered = qos.phy_preference;
                    assert(known & bit != 0 && offered & bit != 0 ==> (known & offered) & bit != 0)
                        by (bit_vector)
                        requires
                            bit == 1 || bit == 2,
                    ;
                }
            }
        }
    }
}

/// What an endpoint wants is in its value, once its codec is configured, byte by byte.
pub proof fn lemma_wishes_are_read_from_their_bytes(ase_id: u8, v: Seq<u8>)
    ensures
        ({
            let q = wanted_by((ase_id, Some(v)));
            &&& q is Some <==> v.len() >= 19 && v[1] == 1
            &&& q is Some ==> {
                &&& (q->0).phy_preference == v[3]
                &&& (q->0).retransmission_preference == v[4]
                &&& (q->0).max_transport_latency_ms == v[5] + 256 * v[6]
                &&& (q->0).presentation_delay_min_us == v[7] + 256 * v[8] + 65_536 * v[9]
                &&& (q->0).presentation_delay_max_us == v[10] + 256 * v[11] + 65_536 * v[12]
                &&& (q->0).preferred_delay_min_us == v[13] + 256 * v[14] + 65_536 * v[15]
                &&& (q->0).preferred_delay_max_us == v[16] + 256 * v[17] + 65_536 * v[18]
            }
        }),
        wanted_by((ase_id, None)) is None,
{
}

} // verus!
