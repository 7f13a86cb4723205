//! What a device published, flattened and put into words.

use vstd::prelude::*;

use crate::bap::{
    records, Accepts, PacRecord, Record, SamplingFrequency, CODING_FORMAT_LC3, LOCATION_FRONT_LEFT,
    LOCATION_FRONT_RIGHT,
};
use crate::link::procedure::Published;
use crate::link::AudioCapabilities;
use crate::text::{decimal, hex, join, joined, push_decimal, push_hex, texts};

verus! {

// ---------------------------------------------------------------------------
// Lists in ascending order
// ---------------------------------------------------------------------------

/// Whether numbers rise from one to the next.
pub open spec fn rising(s: Seq<u32>) -> bool {
    forall|i: int, j: int| 0 <= i < j < s.len() ==> #[trigger] s[i] < #[trigger] s[j]
}

/// A rising list with one more number in its place, unless it is there already.
pub open spec fn risen(s: Seq<u32>, x: u32) -> Seq<u32>
    decreases s.len(),
{
    if s.len() == 0 || s.last() < x {
        s.push(x)
    } else if s.last() == x {
        s
    } else {
        risen(s.drop_last(), x).push(s.last())
    }
}

proof fn lemma_risen(s: Seq<u32>, x: u32)
    requires
        rising(s),
    ensures
        rising(risen(s, x)),
        forall|y: u32| #[trigger] risen(s, x).contains(y) <==> s.contains(y) || y == x,
    decreases s.len(),
{
    let now = risen(s, x);
    if s.len() == 0 || s.last() < x {
        assert forall|y: u32| #[trigger] now.contains(y) <==> s.contains(y) || y == x by {
            if s.contains(y) {
                let i = choose|i: int| 0 <= i < s.len() && s[i] == y;
                assert(now[i] == y);
            }
            assert(now[s.len() as int] == x);
        }
    } else if s.last() == x {
        assert(s[s.len() - 1] == x);
    } else {
        let front = s.drop_last();
        lemma_risen(front, x);
        let inner = risen(front, x);
        assert forall|y: u32| inner.contains(y) implies y < s.last() by {
            if front.contains(y) {
                let i = choose|i: int| 0 <= i < front.len() && front[i] == y;
                assert(s[i] == y);
            }
        }
        assert forall|i: int, j: int| 0 <= i < j < now.len() implies #[trigger] now[i]
            < #[trigger] now[j] by {
            if j == inner.len() {
                assert(inner.contains(inner[i]));
            }
        }
        assert forall|y: u32| #[trigger] now.contains(y) <==> s.contains(y) || y == x by {
            if now.contains(y) {
                let i = choose|i: int| 0 <= i < now.len() && now[i] == y;
                if i < inner.len() {
                    assert(inner.contains(y));
                    if front.contains(y) {
                        let k = choose|k: int| 0 <= k < front.len() && front[k] == y;
                        assert(s[k] == y);
                    }
                } else {
                    assert(s[s.len() - 1] == y);
                }
            }
            if s.contains(y) {
                let i = choose|i: int| 0 <= i < s.len() && s[i] == y;
                if i < front.len() {
                    assert(front[i] == y);
                    assert(inner.contains(y));
                    let k = choose|k: int| 0 <= k < inner.len() && inner[k] == y;
                    assert(now[k] == y);
                } else {
                    assert(now[inner.len() as int] == y);
                }
            }
            if y == x {
                assert(inner.contains(x));
                let k = choose|k: int| 0 <= k < inner.len() && inner[k] == x;
                assert(now[k] == x);
            }
        }
    }
}

/// Puts a number into its place in a rising list.
fn rise(list: &mut Vec<u32>, x: u32)
    ensures
        final(list)@ == risen(old(list)@, x),
{
    let ghost was = list@;
    let mut at: usize = list.len();
    assert(was.take(at as int) =~= was);
    assert(was.skip(at as int) =~= Seq::empty());
    assert(risen(was, x) =~= risen(was.take(at as int), x) + was.skip(at as int));
    while at > 0 && list[at - 1] > x
        invariant
            list@ == was,
            at <= was.len(),
            risen(was, x) == risen(was.take(at as int), x) + was.skip(at as int),
        decreases at,
    {
        proof {
            let front = was.take(at as int);
            assert(front.last() == was[at - 1]);
            assert(front.drop_last() =~= was.take(at - 1));
            assert(risen(front, x) + was.skip(at as int) =~= risen(was.take(at - 1), x)
                + was.skip(at - 1));
        }
        at -= 1;
    }
    proof {
        let front = was.take(at as int);
        if at > 0 {
            assert(front.last() == was[at - 1]);
        }
    }
    if at > 0 && list[at - 1] == x {
        assert(was.take(at as int) + was.skip(at as int) =~= was);
        return ;
    }
    list.insert(at, x);
    assert(list@ =~= was.take(at as int).push(x) + was.skip(at as int));
}

// ---------------------------------------------------------------------------
// The envelope
// ---------------------------------------------------------------------------

/// The records that are about LC3, in their order.
pub open spec fn lc3_records(s: Seq<Record>) -> Seq<Record>
    decreases s.len(),
{
    if s.len() == 0 {
        Seq::empty()
    } else if s.last().coding_format == CODING_FORMAT_LC3 {
        lc3_records(s.drop_last()).push(s.last())
    } else {
        lc3_records(s.drop_last())
    }
}

/// The rates that frequencies stand for, in their order.
pub open spec fn hertz(s: Seq<SamplingFrequency>) -> Seq<u32>
    decreases s.len(),
{
    if s.len() == 0 {
        Seq::empty()
    } else {
        match s.last().rate() {
            Some(hz) => hertz(s.drop_last()).push(hz),
            None => hertz(s.drop_last()),
        }
    }
}

/// Channel counts as numbers.
pub open spec fn counts(s: Seq<u8>) -> Seq<u32> {
    s.map_values(|n: u8| n as u32)
}

/// Everything a device said it can accept, flattened into one shape.
#[derive(Debug, PartialEq, Eq)]
pub struct Envelope {
    pub rates: Vec<u32>,
    pub channels: Vec<u32>,
    pub supports_7_5ms: bool,
    pub supports_10ms: bool,
    pub octets_min: Option<u16>,
    pub octets_max: Option<u16>,
    pub max_frames_per_sdu: u8,
}

/// What an envelope says, whatever holds it.
pub struct Reach {
    pub rates: Seq<u32>,
    pub channels: Seq<u32>,
    pub supports_7_5ms: bool,
    pub supports_10ms: bool,
    pub octets_min: Option<u16>,
    pub octets_max: Option<u16>,
    pub max_frames_per_sdu: u8,
}

impl View for Envelope {
    type V = Reach;

    open spec fn view(&self) -> Reach {
        Reach {
            rates: self.rates@,
            channels: self.channels@,
            supports_7_5ms: self.supports_7_5ms,
            supports_10ms: self.supports_10ms,
            octets_min: self.octets_min,
            octets_max: self.octets_max,
            max_frames_per_sdu: self.max_frames_per_sdu,
        }
    }
}

/// The smaller of two bounds, where there are any.
pub open spec fn lower_bound(a: Option<u16>, b: Option<u16>) -> Option<u16> {
    match (a, b) {
        (Some(x), Some(y)) => Some(
            if y < x {
                y
            } else {
                x
            },
        ),
        (None, b) => b,
        (a, None) => a,
    }
}

/// The larger of two bounds, where there are any.
pub open spec fn upper_bound(a: Option<u16>, b: Option<u16>) -> Option<u16> {
    match (a, b) {
        (Some(x), Some(y)) => Some(
            if y > x {
                y
            } else {
                x
            },
        ),
        (None, b) => b,
        (a, None) => a,
    }
}

impl Reach {
    /// A device that accepts nothing.
    pub open spec fn nothing() -> Self {
        Reach {
            rates: Seq::empty(),
            channels: Seq::empty(),
            supports_7_5ms: false,
            supports_10ms: false,
            octets_min: None,
            octets_max: None,
            max_frames_per_sdu: 0,
        }
    }

    /// What is accepted where one more record is.
    pub open spec fn widened(self, caps: Accepts) -> Self {
        Reach {
            rates: all_risen(self.rates, hertz(caps.sampling_frequencies)),
            channels: all_risen(self.channels, counts(caps.channel_counts)),
            supports_7_5ms: self.supports_7_5ms || caps.supports_7_5ms,
            supports_10ms: self.supports_10ms || caps.supports_10ms,
            octets_min: lower_bound(self.octets_min, caps.min_octets_per_frame),
            octets_max: upper_bound(self.octets_max, caps.max_octets_per_frame),
            max_frames_per_sdu: if caps.max_frames_per_sdu > self.max_frames_per_sdu {
                caps.max_frames_per_sdu
            } else {
                self.max_frames_per_sdu
            },
        }
    }
}

/// A rising list with more numbers in their places.
pub open spec fn all_risen(s: Seq<u32>, more: Seq<u32>) -> Seq<u32>
    decreases more.len(),
{
    if more.len() == 0 {
        s
    } else {
        risen(all_risen(s, more.drop_last()), more.last())
    }
}

/// The union of what LC3 records accept.
pub open spec fn reach_of(s: Seq<Record>) -> Reach
    decreases s.len(),
{
    if s.len() == 0 {
        Reach::nothing()
    } else if s.last().coding_format == CODING_FORMAT_LC3 {
        reach_of(s.drop_last()).widened(s.last().capabilities)
    } else {
        reach_of(s.drop_last())
    }
}

fn rise_rates(list: &mut Vec<u32>, more: &[SamplingFrequency])
    ensures
        final(list)@ == all_risen(old(list)@, hertz(more@)),
{
    let ghost was = list@;
    let mut i: usize = 0;
    assert(more@.take(0) =~= Seq::empty());
    while i < more.len()
        invariant
            i <= more@.len(),
            list@ == all_risen(was, hertz(more@.take(i as int))),
        decreases more@.len() - i,
    {
        proof {
            let longer = more@.take(i + 1);
            assert(longer.drop_last() =~= more@.take(i as int));
            assert(longer.last() == more@[i as int]);
            if let Some(hz) = more@[i as int].rate() {
                let front = hertz(more@.take(i as int));
                assert(front.push(hz).drop_last() =~= front);
            }
        }
        if let Some(hz) = more[i].hz() {
            rise(list, hz);
        }
        i += 1;
    }
    assert(more@.take(more@.len() as int) =~= more@);
}

fn rise_counts(list: &mut Vec<u32>, more: &[u8])
    ensures
        final(list)@ == all_risen(old(list)@, counts(more@)),
{
    let ghost was = list@;
    let ghost all = counts(more@);
    let mut i: usize = 0;
    assert(all.take(0) =~= Seq::empty());
    while i < more.len()
        invariant
            i <= more@.len(),
            all == counts(more@),
            list@ == all_risen(was, all.take(i as int)),
        decreases more@.len() - i,
    {
        proof {
            let longer = all.take(i + 1);
            assert(longer.drop_last() =~= all.take(i as int));
            assert(longer.last() == more@[i as int] as u32);
        }
        rise(list, more[i] as u32);
        i += 1;
    }
    assert(all.take(all.len() as int) =~= all);
}

/// Everything the device said it can accept, flattened into one shape.
///
/// Each PAC record covers one part of what a device supports, and the sum of
/// them is what it will actually take. Reporting the records individually would
/// make the app do this join, and it would then have to know as much about BAP
/// as the stack does.
pub fn codec_envelope(list: &[PacRecord]) -> (r: Envelope)
    ensures
        r@ == reach_of(records(list@)),
{
    let ghost s = records(list@);
    let mut out = Envelope {
        rates: Vec::new(),
        channels: Vec::new(),
        supports_7_5ms: false,
        supports_10ms: false,
        octets_min: None,
        octets_max: None,
        max_frames_per_sdu: 0,
    };
    let mut i: usize = 0;
    proof {
        assert(s.take(0) =~= Seq::empty());
        assert(out.rates@ =~= Seq::empty());
        assert(out.channels@ =~= Seq::empty());
    }
    while i < list.len()
        invariant
            i <= list@.len(),
            s == records(list@),
            out@ == reach_of(s.take(i as int)),
        decreases list@.len() - i,
    {
        let record: &PacRecord = &list[i];
        proof {
            let longer = s.take(i + 1);
            assert(longer.drop_last() =~= s.take(i as int));
            assert(longer.last() == list@[i as int]@);
        }
        if record.is_lc3() {
            let caps = &record.capabilities;
            rise_rates(&mut out.rates, caps.sampling_frequencies.as_slice());
            rise_counts(&mut out.channels, caps.channel_counts.as_slice());
            if caps.supports_7_5ms {
                out.supports_7_5ms = true;
            }
            if caps.supports_10ms {
                out.supports_10ms = true;
            }
            // The widest range any record allows.
            if let Some(min) = caps.min_octets_per_frame {
                out.octets_min = match out.octets_min {
                    Some(current) => Some(
                        if min < current {
                            min
                        } else {
                            current
                        },
                    ),
                    None => Some(min),
                };
            }
            if let Some(max) = caps.max_octets_per_frame {
                out.octets_max = match out.octets_max {
                    Some(current) => Some(
                        if max > current {
                            max
                        } else {
                            current
                        },
                    ),
                    None => Some(max),
                };
            }
            if caps.max_frames_per_sdu > out.max_frames_per_sdu {
                out.max_frames_per_sdu = caps.max_frames_per_sdu;
            }
        }
        i += 1;
    }
    assert(s.take(s.len() as int) =~= s);
    out
}

proof fn lemma_all_risen(s: Seq<u32>, more: Seq<u32>)
    requires
        rising(s),
    ensures
        rising(all_risen(s, more)),
        forall|y: u32| #[trigger]
            all_risen(s, more).contains(y) <==> s.contains(y) || more.contains(y),
    decreases more.len(),
{
    if more.len() > 0 {
        let front = more.drop_last();
        lemma_all_risen(s, front);
        lemma_risen(all_risen(s, front), more.last());
        assert forall|y: u32| #[trigger] all_risen(s, more).contains(y) <==> s.contains(y)
            || more.contains(y) by {
            if more.contains(y) {
                let i = choose|i: int| 0 <= i < more.len() && more[i] == y;
                if i < front.len() {
                    assert(front[i] == y);
                }
            }
            if front.contains(y) {
                let i = choose|i: int| 0 <= i < front.len() && front[i] == y;
                assert(more[i] == y);
            }
            assert(more[more.len() - 1] == more.last());
        }
    }
}

/// The rates and channel counts of an envelope rise, so each is listed once, and
/// no LC3 record accepts a rate that the envelope lacks.
pub proof fn lemma_envelope_covers(s: Seq<Record>)
    ensures
        rising(reach_of(s).rates),
        rising(reach_of(s).channels),
        forall|i: int, hz: u32|
            0 <= i < s.len() && s[i].coding_format == CODING_FORMAT_LC3
                && #[trigger] hertz(s[i].capabilities.sampling_frequencies).contains(hz)
                ==> reach_of(s).rates.contains(hz),
    decreases s.len(),
{
    if s.len() > 0 {
        let front = s.drop_last();
        lemma_envelope_covers(front);
        let caps = s.last().capabilities;
        if s.last().coding_format == CODING_FORMAT_LC3 {
            lemma_all_risen(reach_of(front).rates, hertz(caps.sampling_frequencies));
            lemma_all_risen(reach_of(front).channels, counts(caps.channel_counts));
        }
        assert forall|i: int, hz: u32|
            0 <= i < s.len() && s[i].coding_format == CODING_FORMAT_LC3
                && #[trigger] hertz(s[i].capabilities.sampling_frequencies).contains(
                hz,
            ) implies reach_of(s).rates.contains(hz) by {
            if i < front.len() {
                assert(front[i] == s[i]);
                assert(hertz(front[i].capabilities.sampling_frequencies).contains(hz));
            }
        }
    }
}

// ---------------------------------------------------------------------------
// In words
// ---------------------------------------------------------------------------

/// Numbers in brackets, with commas between.
pub open spec fn listed(s: Seq<u8>) -> Seq<char> {
    "["@ + joined(s.map_values(|n: u8| decimal(n as nat)), ", "@) + "]"@
}

pub fn push_listed(out: &mut String, s: &[u8])
    ensures
        final(out)@ == old(out)@ + listed(s@),
{
    let ghost was = out@;
    let ghost wanted = s@.map_values(|n: u8| decimal(n as nat));
    let mut parts: Vec<String> = Vec::new();
    let mut i: usize = 0;
    while i < s.len()
        invariant
            i <= s@.len(),
            wanted == s@.map_values(|n: u8| decimal(n as nat)),
            texts(parts@) == wanted.take(i as int),
        decreases s@.len() - i,
    {
        let ghost before = parts@;
        let mut text = String::new();
        push_decimal(&mut text, s[i] as u64);
        assert(text@ =~= decimal(s@[i as int] as nat));
        parts.push(text);
        assert(texts(parts@) =~= texts(before).push(text@));
        assert(texts(parts@) =~= wanted.take(i + 1));
        i += 1;
    }
    assert(wanted.take(wanted.len() as int) =~= wanted);
    let list = join(parts.as_slice(), ", ");
    out.append("[");
    out.append(list.as_str());
    out.append("]");
    assert(out@ =~= was + listed(s@));
}

/// How a rate is shown.
pub open spec fn rate_text(hz: u32) -> Seq<char> {
    decimal((hz / 1_000) as nat) + " kHz"@
}

/// Whether any LC3 record lets one stream carry both ears.
pub open spec fn stereo_in_one(s: Seq<Record>) -> bool {
    exists|i: int|
        0 <= i < s.len() && (#[trigger] s[i]).coding_format == CODING_FORMAT_LC3
            && s[i].capabilities.channel_counts.contains(2)
}

/// The ears that a mask names.
pub open spec fn sides(bits: u32) -> Seq<Seq<char>> {
    let left = if bits & LOCATION_FRONT_LEFT != 0 {
        seq!["left"@]
    } else {
        Seq::empty()
    };
    if bits & LOCATION_FRONT_RIGHT != 0 {
        left.push("right"@)
    } else {
        left
    }
}

/// Which ears the device says it has.
pub open spec fn locations_text(locations: Option<u32>) -> Seq<char> {
    match locations {
        None => "neuvedeno"@,
        Some(bits) => if sides(bits).len() == 0 {
            "none ("@ + hex(bits as nat, 8) + ")"@
        } else {
            joined(sides(bits), " + "@) + " ("@ + hex(bits as nat, 8) + ")"@
        },
    }
}

/// Which ears the device says it has.
///
/// Worth printing rather than parsing once and forgetting. A device that only
/// claims one side cannot render the other however correctly the streams are
/// configured, and that failure is indistinguishable from a routing bug in the
/// host: one ear plays everything and the other stays silent.
pub fn describe_locations(locations: Option<u32>) -> (r: String)
    ensures
        r@ == locations_text(locations),
{
    let mut out = String::new();
    match locations {
        None => {
            out.append("neuvedeno");
            assert(out@ =~= locations_text(locations));
        },
        Some(bits) => {
            let mut parts: Vec<String> = Vec::new();
            if bits & LOCATION_FRONT_LEFT != 0 {
                parts.push("left".to_owned());
            }
            if bits & LOCATION_FRONT_RIGHT != 0 {
                parts.push("right".to_owned());
            }
            assert(texts(parts@) =~= sides(bits));
            if parts.len() == 0 {
                out.append("none (");
            } else {
                let list = join(parts.as_slice(), " + ");
                out.append(list.as_str());
                out.append(" (");
            }
            push_hex(&mut out, bits, 8);
            out.append(")");
            assert(out@ =~= locations_text(locations));
        },
    }
    out
}

/// What a device published, in words.
pub open spec fn capabilities_text(c: Published) -> Seq<char> {
    let reach = reach_of(c.sink_records);
    let n = lc3_records(c.sink_records).len();
    if n == 0 {
        "zadne LC3 sink capabilities"@
    } else {
        decimal(n) + " zaznamu; frekvence: "@ + joined(
            reach.rates.map_values(|hz: u32| rate_text(hz)),
            ", "@,
        ) + "; nejvyse "@ + decimal(
            match reach.octets_max {
                Some(max) => max as nat,
                None => 0,
            },
        ) + " B/ramec; "@ + (if stereo_in_one(c.sink_records) {
            "stereo in one stream: yes"@
        } else {
            "stereo na jednom streamu: ne"@
        }) + ";          sink ASE: "@ + listed(c.sink_ase_ids) + "; mikrofon (source ASE): "@
            + listed(c.source_ase_ids) + "; usi: "@ + locations_text(c.sink_locations)
    }
}

/// How many records are about LC3.
fn count_lc3(list: &[PacRecord]) -> (r: usize)
    ensures
        r == lc3_records(records(list@)).len(),
{
    let ghost s = records(list@);
    let mut n: usize = 0;
    let mut i: usize = 0;
    assert(s.take(0) =~= Seq::empty());
    while i < list.len()
        invariant
            n <= i <= list@.len(),
            s == records(list@),
            n == lc3_records(s.take(i as int)).len(),
        decreases list@.len() - i,
    {
        assert(s.take(i + 1).drop_last() =~= s.take(i as int));
        assert(s.take(i + 1).last() == list@[i as int]@);
        if list[i].is_lc3() {
            n += 1;
        }
        i += 1;
    }
    assert(s.take(s.len() as int) =~= s);
    n
}

fn any_stereo(list: &[PacRecord]) -> (r: bool)
    ensures
        r == stereo_in_one(records(list@)),
{
    let ghost s = records(list@);
    let mut i: usize = 0;
    while i < list.len()
        invariant
            i <= list@.len(),
            s == records(list@),
            forall|j: int|
                0 <= j < i ==> !((#[trigger] s[j]).coding_format == CODING_FORMAT_LC3
                    && s[j].capabilities.channel_counts.contains(2)),
        decreases list@.len() - i,
    {
        assert(s[i as int] == list@[i as int]@);
        if list[i].is_lc3() && list[i].capabilities.supports_stereo_in_one_stream() {
            return true;
        }
        i += 1;
    }
    false
}

/// Human-readable summary of what a device published.
///
/// A device publishes one record per sample rate, so summarising only the first
/// one would hide everything it can really do.
pub fn describe_capabilities(capabilities: &AudioCapabilities) -> (r: String)
    ensures
        r@ == capabilities_text(capabilities@),
{
    let mut out = String::new();
    let list = capabilities.sink_records.as_slice();
    let n: usize = count_lc3(list);
    if n == 0 {
        out.append("zadne LC3 sink capabilities");
        assert(out@ =~= capabilities_text(capabilities@));
        return out;
    }
    let envelope = codec_envelope(list);
    let ghost reach = envelope@;
    let ghost wanted = reach.rates.map_values(|hz: u32| rate_text(hz));
    let mut rates: Vec<String> = Vec::new();
    let mut i: usize = 0;
    while i < envelope.rates.len()
        invariant
            i <= envelope.rates@.len(),
            reach == envelope@,
            wanted == reach.rates.map_values(|hz: u32| rate_text(hz)),
            texts(rates@) == wanted.take(i as int),
        decreases envelope.rates@.len() - i,
    {
        let ghost before = rates@;
        let mut text = String::new();
        push_decimal(&mut text, (envelope.rates[i] / 1_000) as u64);
        text.append(" kHz");
        assert(text@ =~= rate_text(reach.rates[i as int]));
        rates.push(text);
        assert(texts(rates@) =~= texts(before).push(text@));
        assert(texts(rates@) =~= wanted.take(i + 1));
        i += 1;
    }
    assert(wanted.take(wanted.len() as int) =~= wanted);
    let rate_list = join(rates.as_slice(), ", ");
    let max_octets: u16 = match envelope.octets_max {
        Some(max) => max,
        None => 0,
    };
    let stereo: &str = if any_stereo(list) {
        "stereo in one stream: yes"
    } else {
        "stereo na jednom streamu: ne"
    };
    push_decimal(&mut out, n as u64);
    out.append(" zaznamu; frekvence: ");
    out.append(rate_list.as_str());
    out.append("; nejvyse ");
    push_decimal(&mut out, max_octets as u64);
    out.append(" B/ramec; ");
    out.append(stereo);
    out.append(";          sink ASE: ");
    push_listed(&mut out, capabilities.sink_ase_ids.as_slice());
    out.append("; mikrofon (source ASE): ");
    push_listed(&mut out, capabilities.source_ase_ids.as_slice());
    out.append("; usi: ");
    let ears = describe_locations(capabilities.sink_locations);
    out.append(ears.as_str());
    assert(out@ =~= capabilities_text(capabilities@));
    out
}

// ---------------------------------------------------------------------------
// What holds of the words
// ---------------------------------------------------------------------------

proof fn lemma_record_pushed(t: Seq<Record>, x: Record)
    ensures
        forall|r: Record| #[trigger] t.push(x).contains(r) <==> t.contains(r) || r == x,
{
    assert forall|r: Record| #[trigger] t.push(x).contains(r) <==> t.contains(r) || r == x by {
        if t.contains(r) {
            let i = choose|i: int| 0 <= i < t.len() && t[i] == r;
            assert(t.push(x)[i] == r);
        }
        assert(t.push(x)[t.len() as int] == x);
    }
}

/// Whether an LC3 record accepts a rate.
pub open spec fn offers_rate(s: Seq<Record>, hz: u32) -> bool {
    exists|r: Record| #[trigger]
        lc3_records(s).contains(r) && hertz(r.capabilities.sampling_frequencies).contains(hz)
}

/// Whether a bound is the largest that LC3 records name.
pub open spec fn is_largest(s: Seq<Record>, bound: Option<u16>) -> bool {
    match bound {
        None => forall|r: Record| #[trigger]
            lc3_records(s).contains(r) ==> r.capabilities.max_octets_per_frame is None,
        Some(max) => {
            &&& exists|r: Record| #[trigger]
                lc3_records(s).contains(r) && r.capabilities.max_octets_per_frame == Some(max)
            &&& forall|r: Record| #[trigger]
                lc3_records(s).contains(r) && r.capabilities.max_octets_per_frame is Some
                    ==> r.capabilities.max_octets_per_frame->0 <= max
        },
    }
}

/// Whether an LC3 record lets one stream carry both ears.
pub open spec fn offers_stereo(s: Seq<Record>) -> bool {
    exists|r: Record| #[trigger]
        lc3_records(s).contains(r) && r.capabilities.channel_counts.contains(2)
}

proof fn lemma_rates_are_offered(s: Seq<Record>)
    ensures
        forall|hz: u32| #[trigger] reach_of(s).rates.contains(hz) <==> offers_rate(s, hz),
    decreases s.len(),
{
    if s.len() > 0 {
        let front = s.drop_last();
        lemma_rates_are_offered(front);
        if s.last().coding_format == CODING_FORMAT_LC3 {
            let new = s.last();
            let rates = hertz(new.capabilities.sampling_frequencies);
            lemma_envelope_covers(front);
            lemma_all_risen(reach_of(front).rates, rates);
            lemma_record_pushed(lc3_records(front), new);
            assert forall|hz: u32| #[trigger]
                reach_of(s).rates.contains(hz) <==> offers_rate(s, hz) by {
                if reach_of(front).rates.contains(hz) {
                    assert(offers_rate(front, hz));
                    let r = choose|r: Record| #[trigger]
                        lc3_records(front).contains(r) && hertz(
                            r.capabilities.sampling_frequencies,
                        ).contains(hz);
                    assert(lc3_records(s).contains(r));
                }
                if rates.contains(hz) {
                    assert(lc3_records(s).contains(new));
                }
                if offers_rate(s, hz) {
                    let r = choose|r: Record| #[trigger]
                        lc3_records(s).contains(r) && hertz(
                            r.capabilities.sampling_frequencies,
                        ).contains(hz);
                    if lc3_records(front).contains(r) {
                        assert(offers_rate(front, hz));
                        assert(reach_of(front).rates.contains(hz));
                    }
                }
            }
        } else {
            assert forall|hz: u32| #[trigger]
                reach_of(s).rates.contains(hz) <==> offers_rate(s, hz) by {
                assert(offers_rate(s, hz) == offers_rate(front, hz));
                assert(reach_of(front).rates.contains(hz) <==> offers_rate(front, hz));
            }
        }
    }
}

proof fn lemma_largest_is_named(s: Seq<Record>)
    ensures
        is_largest(s, reach_of(s).octets_max),
    decreases s.len(),
{
    if s.len() > 0 {
        let front = s.drop_last();
        lemma_largest_is_named(front);
        assert(is_largest(front, reach_of(front).octets_max));
        if s.last().coding_format == CODING_FORMAT_LC3 {
            let new = s.last();
            lemma_record_pushed(lc3_records(front), new);
            assert(lc3_records(s).contains(new));
            if let Some(max) = reach_of(front).octets_max {
                let r = choose|r: Record| #[trigger]
                    lc3_records(front).contains(r) && r.capabilities.max_octets_per_frame == Some(
                        max,
                    );
                assert(lc3_records(s).contains(r));
            }
            assert(lc3_records(s) == lc3_records(front).push(new));
        } else {
            assert(lc3_records(s) == lc3_records(front));
        }
    } else {
        assert(lc3_records(s) == Seq::<Record>::empty());
    }
}

proof fn lemma_stereo_is_offered(s: Seq<Record>)
    ensures
        stereo_in_one(s) <==> offers_stereo(s),
    decreases s.len(),
{
    if s.len() > 0 {
        let front = s.drop_last();
        lemma_stereo_is_offered(front);
        let new = s.last();
        assert(s[s.len() - 1] == new);
        if stereo_in_one(front) {
            let i = choose|i: int|
                0 <= i < front.len() && (#[trigger] front[i]).coding_format == CODING_FORMAT_LC3
                    && front[i].capabilities.channel_counts.contains(2);
            assert(s[i] == front[i]);
        }
        if stereo_in_one(s) {
            let i = choose|i: int|
                0 <= i < s.len() && (#[trigger] s[i]).coding_format == CODING_FORMAT_LC3
                    && s[i].capabilities.channel_counts.contains(2);
            if i < front.len() {
                assert(front[i] == s[i]);
                assert(stereo_in_one(front));
            }
        }
        if new.coding_format == CODING_FORMAT_LC3 {
            lemma_record_pushed(lc3_records(front), new);
            assert(lc3_records(s).contains(new));
            if offers_stereo(front) {
                let r = choose|r: Record| #[trigger]
                    lc3_records(front).contains(r) && r.capabilities.channel_counts.contains(2);
                assert(lc3_records(s).contains(r));
            }
            assert(lc3_records(s) == lc3_records(front).push(new));
        } else {
            assert(lc3_records(s) == lc3_records(front));
        }
    } else {
        assert(lc3_records(s) == Seq::<Record>::empty());
    }
}

proof fn lemma_rising_lists(a: Seq<u32>, b: Seq<u32>)
    requires
        rising(a),
        rising(b),
        forall|y: u32| a.contains(y) <==> b.contains(y),
    ensures
        a == b,
    decreases a.len(),
{
    if a.len() == 0 {
        if b.len() > 0 {
            assert(b.contains(b[0]));
        }
        assert(a =~= b);
    } else {
        let x = a.last();
        assert(a[a.len() - 1] == x);
        assert(a.contains(x) && b.contains(x));
        let y = b.last();
        assert(b[b.len() - 1] == y);
        assert(b.contains(y) && a.contains(y));
        assert(x == y);
        let c = a.drop_last();
        let d = b.drop_last();
        assert forall|z: u32| c.contains(z) <==> d.contains(z) by {
            if c.contains(z) {
                let m = choose|m: int| 0 <= m < c.len() && c[m] == z;
                assert(a[m] == z && z < x);
                assert(a.contains(z) && b.contains(z));
                let n = choose|n: int| 0 <= n < b.len() && b[n] == z;
                assert(d[n] == z);
            }
            if d.contains(z) {
                let m = choose|m: int| 0 <= m < d.len() && d[m] == z;
                assert(b[m] == z && z < y);
                assert(b.contains(z) && a.contains(z));
                let n = choose|n: int| 0 <= n < a.len() && a[n] == z;
                assert(c[n] == z);
            }
        }
        lemma_rising_lists(c, d);
        assert(a =~= c.push(x));
        assert(b =~= d.push(y));
    }
}

/// All LC3 records count, and none by its place: what is said of a device stays the
/// same whatever order it publishes them in, and whatever else it publishes.
pub proof fn lemma_order_of_records_does_not_matter(a: Published, b: Published)
    requires
        a.sink_ase_ids == b.sink_ase_ids,
        a.source_ase_ids == b.source_ase_ids,
        a.sink_locations == b.sink_locations,
        lc3_records(a.sink_records).to_multiset() == lc3_records(b.sink_records).to_multiset(),
    ensures
        capabilities_text(a) == capabilities_text(b),
{
    let s = a.sink_records;
    let t = b.sink_records;
    vstd::seq_lib::to_multiset_len(lc3_records(s));
    vstd::seq_lib::to_multiset_len(lc3_records(t));
    assert forall|r: Record|
        #![trigger lc3_records(s).contains(r)]
        #![trigger lc3_records(t).contains(r)]
        lc3_records(s).contains(r) <==> lc3_records(t).contains(r) by {
        vstd::seq_lib::to_multiset_contains(lc3_records(s), r);
        vstd::seq_lib::to_multiset_contains(lc3_records(t), r);
    }
    lemma_envelope_covers(s);
    lemma_envelope_covers(t);
    lemma_rates_are_offered(s);
    lemma_rates_are_offered(t);
    assert forall|hz: u32| reach_of(s).rates.contains(hz) <==> reach_of(t).rates.contains(hz) by {
        assert(reach_of(s).rates.contains(hz) <==> offers_rate(s, hz));
        assert(reach_of(t).rates.contains(hz) <==> offers_rate(t, hz));
        assert(offers_rate(s, hz) <==> offers_rate(t, hz));
    }
    lemma_rising_lists(reach_of(s).rates, reach_of(t).rates);
    lemma_largest_is_named(s);
    lemma_largest_is_named(t);
    assert(reach_of(s).octets_max == reach_of(t).octets_max);
    lemma_stereo_is_offered(s);
    lemma_stereo_is_offered(t);
    assert(offers_stereo(s) <==> offers_stereo(t));
}

/// Whether an LC3 record of a list passes a test.
pub open spec fn some_lc3(s: Seq<Record>, test: spec_fn(Accepts) -> bool) -> bool {
    exists|i: int|
        0 <= i < s.len() && (#[trigger] s[i]).coding_format == 6 && test(s[i].capabilities)
}

proof fn lemma_some_lc3(s: Seq<Record>, test: spec_fn(Accepts) -> bool)
    requires
        s.len() > 0,
    ensures
        some_lc3(s, test) <==> some_lc3(s.drop_last(), test) || s.last().coding_format == 6 && test(
            s.last().capabilities,
        ),
{
    let front = s.drop_last();
    if some_lc3(front, test) {
        let i = choose|i: int|
            0 <= i < front.len() && (#[trigger] front[i]).coding_format == 6 && test(
                front[i].capabilities,
            );
        assert(s[i] == front[i]);
    }
    if some_lc3(s, test) {
        let i = choose|i: int|
            0 <= i < s.len() && (#[trigger] s[i]).coding_format == 6 && test(s[i].capabilities);
        if i < front.len() {
            assert(front[i] == s[i]);
        }
    }
    assert(s[s.len() - 1] == s.last());
}

/// An envelope invents nothing and drops nothing. It has a frame duration exactly if some
/// LC3 record has it. Its bounds are bounds that some record names, and none goes beyond
/// them. It packs as many frames as the record that packs most.
pub proof fn lemma_envelope_is_what_the_records_say(s: Seq<Record>, octets: u16, frames: u8)
    ensures
        reach_of(s).supports_7_5ms <==> some_lc3(s, |c: Accepts| c.supports_7_5ms),
        reach_of(s).supports_10ms <==> some_lc3(s, |c: Accepts| c.supports_10ms),
        (reach_of(s).octets_min is Some && reach_of(s).octets_min->0 <= octets) <==> some_lc3(
            s,
            |c: Accepts| c.min_octets_per_frame is Some && c.min_octets_per_frame->0 <= octets,
        ),
        (reach_of(s).octets_max is Some && reach_of(s).octets_max->0 >= octets) <==> some_lc3(
            s,
            |c: Accepts| c.max_octets_per_frame is Some && c.max_octets_per_frame->0 >= octets,
        ),
        frames > 0 ==> (reach_of(s).max_frames_per_sdu >= frames <==> some_lc3(
            s,
            |c: Accepts| c.max_frames_per_sdu >= frames,
        )),
    decreases s.len(),
{
    if s.len() > 0 {
        lemma_envelope_is_what_the_records_say(s.drop_last(), octets, frames);
        lemma_some_lc3(s, |c: Accepts| c.supports_7_5ms);
        lemma_some_lc3(s, |c: Accepts| c.supports_10ms);
        lemma_some_lc3(
            s,
            |c: Accepts| c.min_octets_per_frame is Some && c.min_octets_per_frame->0 <= octets,
        );
        lemma_some_lc3(
            s,
            |c: Accepts| c.max_octets_per_frame is Some && c.max_octets_per_frame->0 >= octets,
        );
        lemma_some_lc3(s, |c: Accepts| c.max_frames_per_sdu >= frames);
    }
}

/// The lowest bit of a mask is the left ear and the next one the right, and each ear is
/// named exactly if its bit is set.
pub proof fn lemma_ears_are_named_by_their_bits(bits: u32)
    ensures
        sides(bits).contains("left"@) <==> bits & 1 != 0,
        sides(bits).contains("right"@) <==> bits & 2 != 0,
        sides(bits).len() <= 2,
        sides(bits).len() == 2 ==> sides(bits)[0] == "left"@,
{
    reveal_strlit("left");
    reveal_strlit("right");
    assert("left"@.len() == 4 && "right"@.len() == 5);
    let s = sides(bits);
    if bits & 1 != 0 {
        assert(s[0] == "left"@);
    }
    if bits & 2 != 0 {
        assert(s[s.len() - 1] == "right"@);
    }
}

} // verus!
