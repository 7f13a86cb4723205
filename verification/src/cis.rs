//! Isochronous channels: which came up, and what to make of it.

use vstd::prelude::*;

use crate::bytes::{holds_word, word, word_at};
use crate::hci::{
    cis_established, command_bytes, iso_path_params, le_setup_iso_data_path, parse_cis_established,
    Event, EventView, ISO_PATH_INPUT, ISO_PATH_OUTPUT, LE_SETUP_ISO_DATA_PATH,
};
use crate::text::{decimal, hex, join, joined, push_decimal, push_hex, push_wide_decimal, texts};

verus! {

/// Which isochronous channels came up, and which did not.
///
/// A partial result is a real outcome, not a failure. One working ear beats
/// silence, and the whole reason this project exists is that Windows treats a
/// failed second CIS as a failed connection: it tears down the channel that did
/// work and retries the identical request, forever.
#[derive(Debug, PartialEq, Eq)]
pub struct CisOutcome {
    pub established: Vec<u16>,
    /// Handle and status of each channel that refused to come up.
    pub failed: Vec<(u16, u8)>,
}

/// The status that stands for a channel that said nothing.
pub const NO_ANSWER: u8 = 0xFF;

/// What became of the channels, whatever holds it.
pub struct Channels {
    pub established: Seq<u16>,
    pub failed: Seq<(u16, u8)>,
}

impl View for CisOutcome {
    type V = Channels;

    open spec fn view(&self) -> Channels {
        Channels { established: self.established@, failed: self.failed@ }
    }
}

impl Default for CisOutcome {
    fn default() -> (r: Self)
        ensures
            r@.established.len() == 0,
            r@.failed.len() == 0,
    {
        CisOutcome { established: Vec::new(), failed: Vec::new() }
    }
}

/// How one failure is shown.
pub open spec fn failure_text(failure: (u16, u8)) -> Seq<char> {
    if failure.1 == NO_ANSWER {
        hex(failure.0 as nat, 4) + " did not respond"@
    } else {
        hex(failure.0 as nat, 4) + " status "@ + hex(failure.1 as nat, 2)
    }
}

impl Channels {
    /// The sentence for a person.
    pub open spec fn description(self) -> Seq<char> {
        if self.failed.len() == 0 {
            decimal(self.established.len()) + " channels established"@
        } else {
            "ustaveno "@ + decimal(self.established.len()) + " z "@ + decimal(
                self.established.len() + self.failed.len(),
            ) + ", nepovedlo se: "@ + joined(
                self.failed.map_values(|f: (u16, u8)| failure_text(f)),
                ", "@,
            )
        }
    }
}

impl CisOutcome {
    /// True when every channel that was asked for came up.
    pub fn complete(&self) -> (r: bool)
        ensures
            r == (self@.failed.len() == 0),
    {
        self.failed.len() == 0
    }

    /// A sentence for a person, naming what is missing.
    pub fn describe(&self) -> (r: String)
        ensures
            r@ == self@.description(),
    {
        let mut out = String::new();
        if self.complete() {
            push_decimal(&mut out, self.established.len() as u64);
            out.append(" channels established");
            assert(out@ =~= self@.description());
            return out;
        }
        let mut failures: Vec<String> = Vec::new();
        let ghost wanted = self.failed@.map_values(|f: (u16, u8)| failure_text(f));
        let mut i: usize = 0;
        while i < self.failed.len()
            invariant
                i <= self.failed@.len(),
                wanted == self.failed@.map_values(|f: (u16, u8)| failure_text(f)),
                texts(failures@) == wanted.take(i as int),
            decreases self.failed@.len() - i,
        {
            let (handle, status): (u16, u8) = self.failed[i];
            let ghost was = failures@;
            let mut text = String::new();
            push_hex(&mut text, handle as u32, 4);
            if status == NO_ANSWER {
                text.append(" did not respond");
            } else {
                text.append(" status ");
                push_hex(&mut text, status as u32, 2);
            }
            assert(text@ =~= failure_text((handle, status)));
            failures.push(text);
            assert(texts(failures@) =~= texts(was).push(text@));
            assert(texts(failures@) =~= wanted.take(i + 1));
            i += 1;
        }
        assert(wanted.take(wanted.len() as int) =~= wanted);
        out.append("ustaveno ");
        push_decimal(&mut out, self.established.len() as u64);
        out.append(" z ");
        push_wide_decimal(
            &mut out,
            self.established.len() as u128 + self.failed.len() as u128,
        );
        out.append(", nepovedlo se: ");
        let list = join(failures.as_slice(), ", ");
        out.append(list.as_str());
        assert(out@ =~= self@.description());
        out
    }
}

// ---------------------------------------------------------------------------
// Bringing channels up
// ---------------------------------------------------------------------------

/// How many whole handles an answer has room for behind its first three bytes,
/// up to the number that it names.
pub open spec fn handle_count(response: Seq<u8>) -> int {
    if response.len() < 3 {
        0
    } else {
        let room = (response.len() - 3) / 2;
        if (response[2] as int) < room {
            response[2] as int
        } else {
            room
        }
    }
}

/// The channels that the controller offers: status, group, count, handles.
pub open spec fn offered(response: Seq<u8>) -> Seq<u16> {
    Seq::new(handle_count(response) as nat, |i: int| word_at(response, 3 + 2 * i))
}

/// Reads which channels the controller offers.
pub fn parse_offered(response: &[u8]) -> (r: Vec<u16>)
    ensures
        r@ == offered(response@),
        r@.len() <= 255,
{
    let mut out: Vec<u16> = Vec::new();
    if response.len() < 3 {
        assert(out@ =~= offered(response@));
        return out;
    }
    let count: usize = response[2] as usize;
    let mut i: usize = 0;
    while i < count && 3 + i * 2 + 2 <= response.len()
        invariant
            3 <= response@.len(),
            count == response@[2],
            i <= count <= 255,
            i <= handle_count(response@),
            out@ == offered(response@).take(i as int),
        decreases count - i,
    {
        let at: usize = 3 + i * 2;
        out.push(word(response[at], response[at + 1]));
        assert(out@ =~= offered(response@).take(i + 1));
        i += 1;
    }
    assert(i == handle_count(response@));
    assert(out@ =~= offered(response@));
    out
}

/// What the reports of the controller say, one after the other. A wait that ends
/// without a report ends the list.
pub open spec fn reported(reports: Seq<EventView>) -> Channels
    decreases reports.len(),
{
    if reports.len() == 0 {
        Channels { established: Seq::empty(), failed: Seq::empty() }
    } else {
        let before = reported(reports.drop_last());
        match cis_established(reports.last()) {
            None => before,
            Some((status, handle)) => if status == 0 {
                Channels { established: before.established.push(handle), ..before }
            } else {
                Channels { failed: before.failed.push((handle, status)), ..before }
            },
        }
    }
}

/// The place of a handle in the group, and one past the end for a stranger.
pub open spec fn place_in(group: Seq<u16>, handle: u16) -> int
    decreases group.len(),
{
    if group.len() == 0 || group[0] == handle {
        0
    } else {
        1 + place_in(group.skip(1), handle)
    }
}

/// A handle of the group stands at its place, and before it nothing equals it; any
/// other is placed behind the group.
pub proof fn lemma_place_in(group: Seq<u16>, handle: u16)
    ensures
        0 <= place_in(group, handle) <= group.len(),
        place_in(group, handle) < group.len() <==> group.contains(handle),
        place_in(group, handle) < group.len() ==> group[place_in(group, handle)] == handle,
        forall|i: int| 0 <= i < place_in(group, handle) ==> group[i] != handle,
    decreases group.len(),
{
    if group.len() > 0 && group[0] != handle {
        lemma_place_in(group.skip(1), handle);
        if group.contains(handle) {
            let i = choose|i: int| 0 <= i < group.len() && group[i] == handle;
            assert(group.skip(1)[i - 1] == handle);
        }
        let p = place_in(group.skip(1), handle);
        if p < group.skip(1).len() {
            assert(group[p + 1] == handle);
        }
        assert forall|i: int| 0 <= i < p + 1 implies group[i] != handle by {
            if i > 0 {
                assert(group.skip(1)[i - 1] == group[i]);
            }
        }
    }
}

/// Where a handle goes among handles that are in the order of the group: behind
/// everything that does not come after it there.
pub open spec fn slot_for(sorted: Seq<u16>, group: Seq<u16>, handle: u16) -> int
    decreases sorted.len(),
{
    if sorted.len() == 0 || place_in(group, sorted.last()) <= place_in(group, handle) {
        sorted.len() as int
    } else {
        slot_for(sorted.drop_last(), group, handle)
    }
}

/// Handles in the order that the group defines, each put in its turn.
pub open spec fn in_group_order(handles: Seq<u16>, group: Seq<u16>) -> Seq<u16>
    decreases handles.len(),
{
    if handles.len() == 0 {
        Seq::empty()
    } else {
        let front = in_group_order(handles.drop_last(), group);
        front.insert(slot_for(front, group, handles.last()), handles.last())
    }
}

/// Whether a channel has said anything.
pub open spec fn has_spoken(c: Channels, handle: u16) -> bool {
    c.established.contains(handle) || exists|i: int|
        0 <= i < c.failed.len() && (#[trigger] c.failed[i]).0 == handle
}

/// The outcome with every channel of the group that said nothing added to the
/// failures.
pub open spec fn with_silent(c: Channels, group: Seq<u16>) -> Channels
    decreases group.len(),
{
    if group.len() == 0 {
        c
    } else {
        let before = with_silent(c, group.drop_last());
        if has_spoken(before, group.last()) {
            before
        } else {
            Channels { failed: before.failed.push((group.last(), NO_ANSWER)), ..before }
        }
    }
}

/// What became of a group, from what the controller reported.
pub open spec fn outcome_of(group: Seq<u16>, reports: Seq<EventView>) -> Channels {
    let said = reported(reports);
    with_silent(
        Channels { established: in_group_order(said.established, group), ..said },
        group,
    )
}

pub fn place(group: &[u16], handle: u16) -> (r: usize)
    ensures
        r == place_in(group@, handle),
        r <= group@.len(),
{
    let mut i: usize = 0;
    assert(group@.skip(0) =~= group@);
    while i < group.len() && group[i] != handle
        invariant
            i <= group@.len(),
            place_in(group@, handle) == i + place_in(group@.skip(i as int), handle),
        decreases group@.len() - i,
    {
        assert(group@.skip(i as int)[0] == group@[i as int]);
        assert(group@.skip(i as int).skip(1) =~= group@.skip(i + 1));
        i += 1;
    }
    proof {
        if i < group@.len() {
            assert(group@.skip(i as int)[0] == group@[i as int]);
        }
    }
    i
}

/// Puts handles in the order of the group.
fn sort_by_group(handles: &[u16], group: &[u16]) -> (r: Vec<u16>)
    ensures
        r@ == in_group_order(handles@, group@),
{
    let mut out: Vec<u16> = Vec::new();
    let mut i: usize = 0;
    assert(handles@.take(0) =~= Seq::empty());
    while i < handles.len()
        invariant
            i <= handles@.len(),
            out@ == in_group_order(handles@.take(i as int), group@),
        decreases handles@.len() - i,
    {
        let handle: u16 = handles[i];
        let own: usize = place(group, handle);
        let ghost was = out@;
        let mut at: usize = out.len();
        assert(was.take(at as int) =~= was);
        while at > 0 && place(group, out[at - 1]) > own
            invariant
                out@ == was,
                at <= was.len(),
                own == place_in(group@, handle),
                slot_for(was, group@, handle) == slot_for(was.take(at as int), group@, handle),
            decreases at,
        {
            assert(was.take(at as int).last() == was[at - 1]);
            assert(was.take(at as int).drop_last() =~= was.take(at - 1));
            at -= 1;
        }
        proof {
            if at > 0 {
                assert(was.take(at as int).last() == was[at - 1]);
            }
            assert(handles@.take(i + 1).drop_last() =~= handles@.take(i as int));
        }
        out.insert(at, handle);
        i += 1;
    }
    assert(handles@.take(handles@.len() as int) =~= handles@);
    out
}

fn spoke(outcome: &CisOutcome, handle: u16) -> (r: bool)
    ensures
        r == has_spoken(outcome@, handle),
{
    if holds_word(outcome.established.as_slice(), handle) {
        return true;
    }
    let mut i: usize = 0;
    while i < outcome.failed.len()
        invariant
            i <= outcome.failed@.len(),
            forall|j: int| 0 <= j < i ==> (#[trigger] outcome.failed@[j]).0 != handle,
        decreases outcome.failed@.len() - i,
    {
        if outcome.failed[i].0 == handle {
            assert(outcome@.failed[i as int].0 == handle);
            return true;
        }
        i += 1;
    }
    false
}

/// What the reports of the controller mean for a group.
///
/// The channels come back in the order that the group defines, not the order in
/// which the controller happened to report them. Channel n of the audio goes to
/// CIS n, so sorting by arrival would silently swap left and right whenever the
/// second channel came up first. Anything that never reported at all counts as
/// failed, so nobody is told a channel is fine because the controller went quiet.
pub fn judge_group(group: &[u16], reports: &[Event]) -> (r: CisOutcome)
    ensures
        r@ == outcome_of(group@, crate::link::events(reports@)),
{
    let ghost s = crate::link::events(reports@);
    let mut outcome = CisOutcome::default();
    let mut i: usize = 0;
    proof {
        assert(s.take(0) =~= Seq::empty());
        assert(outcome.established@ =~= Seq::empty());
        assert(outcome.failed@ =~= Seq::empty());
    }
    while i < reports.len()
        invariant
            i <= reports@.len(),
            s == crate::link::events(reports@),
            outcome@ == reported(s.take(i as int)),
        decreases reports@.len() - i,
    {
        assert(s.take(i + 1).drop_last() =~= s.take(i as int));
        assert(s.take(i + 1).last() == reports@[i as int]@);
        match parse_cis_established(&reports[i]) {
            Some((0x00, handle)) => {
                outcome.established.push(handle);
            },
            Some((status, handle)) => {
                outcome.failed.push((handle, status));
            },
            None => {},
        }
        i += 1;
    }
    assert(s.take(s.len() as int) =~= s);
    outcome.established = sort_by_group(outcome.established.as_slice(), group);
    let ghost start = outcome@;
    let mut k: usize = 0;
    assert(group@.take(0) =~= Seq::empty());
    while k < group.len()
        invariant
            k <= group@.len(),
            outcome@ == with_silent(start, group@.take(k as int)),
        decreases group@.len() - k,
    {
        let handle: u16 = group[k];
        assert(group@.take(k + 1).drop_last() =~= group@.take(k as int));
        if !spoke(&outcome, handle) {
            outcome.failed.push((handle, NO_ANSWER));
        }
        k += 1;
    }
    assert(group@.take(group@.len() as int) =~= group@);
    outcome
}

// ---------------------------------------------------------------------------
// What holds of an outcome
// ---------------------------------------------------------------------------

proof fn lemma_slot(sorted: Seq<u16>, group: Seq<u16>, handle: u16)
    ensures
        0 <= slot_for(sorted, group, handle) <= sorted.len(),
        forall|i: int|
            slot_for(sorted, group, handle) <= i < sorted.len() ==> place_in(group, handle)
                < place_in(group, #[trigger] sorted[i]),
        slot_for(sorted, group, handle) > 0 ==> place_in(
            group,
            sorted[slot_for(sorted, group, handle) - 1],
        ) <= place_in(group, handle),
    decreases sorted.len(),
{
    if sorted.len() > 0 && place_in(group, sorted.last()) > place_in(group, handle) {
        let front = sorted.drop_last();
        lemma_slot(front, group, handle);
        assert forall|i: int| slot_for(sorted, group, handle) <= i < sorted.len() implies place_in(
            group,
            handle,
        ) < place_in(group, #[trigger] sorted[i]) by {
            if i < front.len() {
                assert(front[i] == sorted[i]);
            }
        }
    }
}

/// The established channels are in the order of the group, whatever order they
/// were reported in, and none is lost or invented by sorting them.
pub proof fn lemma_group_order(handles: Seq<u16>, group: Seq<u16>)
    ensures
        forall|i: int, j: int|
            0 <= i < j < in_group_order(handles, group).len() ==> place_in(
                group,
                #[trigger] in_group_order(handles, group)[i],
            ) <= place_in(group, #[trigger] in_group_order(handles, group)[j]),
        in_group_order(handles, group).to_multiset() == handles.to_multiset(),
    decreases handles.len(),
{
    if handles.len() > 0 {
        let front = in_group_order(handles.drop_last(), group);
        let h = handles.last();
        let at = slot_for(front, group, h);
        lemma_group_order(handles.drop_last(), group);
        lemma_slot(front, group, h);
        let now = in_group_order(handles, group);
        vstd::seq_lib::to_multiset_insert(front, at, h);
        vstd::seq_lib::to_multiset_build(handles.drop_last(), h);
        assert(handles.drop_last().push(h) =~= handles);
        assert forall|i: int, j: int| 0 <= i < j < now.len() implies place_in(
            group,
            #[trigger] now[i],
        ) <= place_in(group, #[trigger] now[j]) by {
            let a = if i < at {
                i
            } else {
                i - 1
            };
            let b = if j < at {
                j
            } else {
                j - 1
            };
            if i == at {
                assert(now[j] == front[b]);
            } else if j == at {
                assert(now[i] == front[i]);
                if i < at - 1 {
                    assert(place_in(group, front[i]) <= place_in(group, front[at - 1]));
                }
            } else {
                assert(now[i] == front[a]);
                assert(now[j] == front[b]);
            }
        }
    } else {
        assert(handles =~= Seq::empty());
    }
}

proof fn lemma_with_silent(c: Channels, group: Seq<u16>)
    ensures
        forall|i: int| 0 <= i < group.len() ==> has_spoken(with_silent(c, group), #[trigger] group[i]),
        with_silent(c, group).established == c.established,
        with_silent(c, group).failed.len() >= c.failed.len(),
        forall|i: int|
            0 <= i < c.failed.len() ==> #[trigger] with_silent(c, group).failed[i] == c.failed[i],
    decreases group.len(),
{
    if group.len() > 0 {
        let front = group.drop_last();
        let before = with_silent(c, front);
        let now = with_silent(c, group);
        lemma_with_silent(c, front);
        assert forall|i: int| 0 <= i < group.len() implies has_spoken(now, #[trigger] group[i]) by {
            if i < front.len() {
                assert(front[i] == group[i]);
                assert(has_spoken(before, front[i]));
                if !before.established.contains(group[i]) {
                    let k = choose|k: int|
                        0 <= k < before.failed.len() && (#[trigger] before.failed[k]).0 == group[i];
                    assert(now.failed[k] == before.failed[k]);
                }
            } else if !has_spoken(before, group.last()) {
                assert(now.failed[before.failed.len() as int].0 == group.last());
            }
        }
    }
}

/// Every channel of the group is accounted for: it came up, or it is among the
/// failures. What the controller reported stays as it was.
pub proof fn lemma_every_channel_is_accounted_for(group: Seq<u16>, reports: Seq<EventView>)
    ensures
        forall|i: int| 0 <= i < group.len() ==> has_spoken(
            outcome_of(group, reports),
            #[trigger] group[i],
        ),
        outcome_of(group, reports).established.to_multiset() == reported(
            reports,
        ).established.to_multiset(),
        outcome_of(group, reports).failed.len() == 0 ==> forall|i: int|
            0 <= i < group.len() ==> outcome_of(group, reports).established.contains(
                #[trigger] group[i],
            ),
{
    let said = reported(reports);
    let sorted = in_group_order(said.established, group);
    lemma_group_order(said.established, group);
    lemma_with_silent(Channels { established: sorted, ..said }, group);
    let now = outcome_of(group, reports);
    if now.failed.len() == 0 {
        assert forall|i: int| 0 <= i < group.len() implies now.established.contains(
            #[trigger] group[i],
        ) by {
            assert(has_spoken(now, group[i]));
        }
    }
}

/// Whether an event reports that a channel is up, byte by byte.
pub open spec fn reported_up(e: EventView, handle: u16) -> bool {
    &&& e.code == 0x3E
    &&& e.params.len() >= 4
    &&& e.params[0] == 0x19
    &&& e.params[1] == 0
    &&& e.params[2] as int + 256 * (e.params[3] as int) == handle
}

/// Whether an event reports that a channel failed, byte by byte.
pub open spec fn reported_down(e: EventView, handle: u16, status: u8) -> bool {
    &&& e.code == 0x3E
    &&& e.params.len() >= 4
    &&& e.params[0] == 0x19
    &&& e.params[1] == status
    &&& status != 0
    &&& e.params[2] as int + 256 * (e.params[3] as int) == handle
}

proof fn lemma_reported(reports: Seq<EventView>, h: u16, status: u8)
    ensures
        reported(reports).established.contains(h) <==> exists|q: int|
            0 <= q < reports.len() && reported_up(#[trigger] reports[q], h),
        reported(reports).failed.contains((h, status)) <==> exists|q: int|
            0 <= q < reports.len() && reported_down(#[trigger] reports[q], h, status),
    decreases reports.len(),
{
    if reports.len() > 0 {
        let front = reports.drop_last();
        let last = reports.last();
        lemma_reported(front, h, status);
        let before = reported(front);
        let now = reported(reports);
        assert(reports[reports.len() - 1] == last);
        if exists|q: int| 0 <= q < front.len() && reported_up(#[trigger] front[q], h) {
            let q = choose|q: int| 0 <= q < front.len() && reported_up(#[trigger] front[q], h);
            assert(reported_up(reports[q], h));
        }
        if exists|q: int| 0 <= q < front.len() && reported_down(#[trigger] front[q], h, status) {
            let q = choose|q: int|
                0 <= q < front.len() && reported_down(#[trigger] front[q], h, status);
            assert(reported_down(reports[q], h, status));
        }
        if exists|q: int| 0 <= q < reports.len() && reported_up(#[trigger] reports[q], h) {
            let q = choose|q: int| 0 <= q < reports.len() && reported_up(#[trigger] reports[q], h);
            if q < front.len() {
                assert(reported_up(front[q], h));
            }
        }
        if exists|q: int| 0 <= q < reports.len() && reported_down(
            #[trigger] reports[q],
            h,
            status,
        ) {
            let q = choose|q: int|
                0 <= q < reports.len() && reported_down(#[trigger] reports[q], h, status);
            if q < front.len() {
                assert(reported_down(front[q], h, status));
            }
        }
        let said = cis_established(last);
        if said is Some {
            let (st, handle) = said->0;
            if st == 0 {
                assert(now.established == before.established.push(handle));
                assert(now.established[before.established.len() as int] == handle);
                assert forall|x: u16| before.established.contains(x) implies #[trigger]
                    now.established.contains(x) by {
                    let i = choose|i: int|
                        0 <= i < before.established.len() && before.established[i] == x;
                    assert(now.established[i] == x);
                }
            } else {
                assert(now.failed == before.failed.push((handle, st)));
                assert(now.failed[before.failed.len() as int] == (handle, st));
                assert forall|x: (u16, u8)| before.failed.contains(x) implies #[trigger]
                    now.failed.contains(x) by {
                    let i = choose|i: int| 0 <= i < before.failed.len() && before.failed[i] == x;
                    assert(now.failed[i] == x);
                }
            }
        }
    }
}

/// A channel is said to be up exactly where the controller reported it to be up.
pub proof fn lemma_up_was_reported(group: Seq<u16>, reports: Seq<EventView>, h: u16)
    ensures
        outcome_of(group, reports).established.contains(h) <==> exists|q: int|
            0 <= q < reports.len() && reported_up(#[trigger] reports[q], h),
{
    lemma_reported(reports, h, 0);
    lemma_every_channel_is_accounted_for(group, reports);
    let a = outcome_of(group, reports).established;
    let b = reported(reports).established;
    vstd::seq_lib::to_multiset_contains(a, h);
    vstd::seq_lib::to_multiset_contains(b, h);
}

/// Every failure is real: it was reported with its status, or the channel belongs to
/// the group and nothing was heard of it; and every reported failure is kept.
pub proof fn lemma_failures_are_real(
    group: Seq<u16>,
    reports: Seq<EventView>,
    h: u16,
    status: u8,
)
    ensures
        outcome_of(group, reports).failed.contains((h, status)) <==> {
            ||| exists|q: int|
                0 <= q < reports.len() && reported_down(#[trigger] reports[q], h, status)
            ||| status == 0xFF && group.contains(h) && forall|q: int|
                0 <= q < reports.len() ==> !reported_up(#[trigger] reports[q], h)
                    && forall|other: u8| !reported_down(reports[q], h, other)
        },
{
    let said = reported(reports);
    let c = Channels { established: in_group_order(said.established, group), ..said };
    lemma_reported(reports, h, status);
    lemma_silent(c, group, h, status);
    lemma_group_order(said.established, group);
    vstd::seq_lib::to_multiset_contains(c.established, h);
    vstd::seq_lib::to_multiset_contains(said.established, h);
    assert(has_spoken(c, h) <==> exists|q: int|
        0 <= q < reports.len() && (reported_up(#[trigger] reports[q], h) || exists|other: u8|
            reported_down(reports[q], h, other))) by {
        if exists|i: int| 0 <= i < c.failed.len() && (#[trigger] c.failed[i]).0 == h {
            let i = choose|i: int| 0 <= i < c.failed.len() && (#[trigger] c.failed[i]).0 == h;
            lemma_reported(reports, h, c.failed[i].1);
            assert(said.failed.contains((h, c.failed[i].1))) by {
                assert(said.failed[i] == (h, c.failed[i].1));
            }
            let q = choose|q: int|
                0 <= q < reports.len() && reported_down(#[trigger] reports[q], h, c.failed[i].1);
            assert(reported_down(reports[q], h, c.failed[i].1));
        }
        if exists|q: int| 0 <= q < reports.len() && (reported_up(#[trigger] reports[q], h) || exists|
            other: u8,
        | reported_down(reports[q], h, other)) {
            let q = choose|q: int|
                0 <= q < reports.len() && (reported_up(#[trigger] reports[q], h) || exists|
                    other: u8,
                | reported_down(reports[q], h, other));
            if !reported_up(reports[q], h) {
                let other = choose|other: u8| reported_down(reports[q], h, other);
                lemma_reported(reports, h, other);
                let i = choose|i: int|
                    0 <= i < said.failed.len() && said.failed[i] == (h, other);
                assert(c.failed[i].0 == h);
            }
        }
    }
}

proof fn lemma_silent(c: Channels, group: Seq<u16>, h: u16, status: u8)
    ensures
        with_silent(c, group).failed.contains((h, status)) <==> c.failed.contains((h, status)) || (
        status == NO_ANSWER && group.contains(h) && !has_spoken(c, h)),
        has_spoken(with_silent(c, group), h) <==> has_spoken(c, h) || group.contains(h),
        with_silent(c, group).established == c.established,
    decreases group.len(),
{
    if group.len() > 0 {
        let front = group.drop_last();
        let before = with_silent(c, front);
        let now = with_silent(c, group);
        lemma_silent(c, front, h, status);
        lemma_silent(c, front, group.last(), status);
        assert(group.contains(h) <==> front.contains(h) || group.last() == h) by {
            assert(group[group.len() - 1] == group.last());
            if front.contains(h) {
                let i = choose|i: int| 0 <= i < front.len() && front[i] == h;
                assert(group[i] == h);
            }
            if group.contains(h) && group.last() != h {
                let i = choose|i: int| 0 <= i < group.len() && group[i] == h;
                assert(front[i] == h);
            }
        }
        if !has_spoken(before, group.last()) {
            let new = (group.last(), NO_ANSWER);
            assert(now.failed == before.failed.push(new));
            assert(now.failed[before.failed.len() as int] == new);
            if before.failed.contains((h, status)) {
                let i = choose|i: int|
                    0 <= i < before.failed.len() && before.failed[i] == (h, status);
                assert(now.failed[i] == (h, status));
            }
            if has_spoken(before, h) && !before.established.contains(h) {
                let i = choose|i: int|
                    0 <= i < before.failed.len() && (#[trigger] before.failed[i]).0 == h;
                assert(now.failed[i].0 == h);
            }
            if now.failed.contains((h, status)) && !before.failed.contains((h, status)) {
                let i = choose|i: int| 0 <= i < now.failed.len() && now.failed[i] == (h, status);
                if i < before.failed.len() {
                    assert(before.failed[i] == (h, status));
                }
            }
        }
    }
}

// ---------------------------------------------------------------------------
// Data paths
// ---------------------------------------------------------------------------

/// The commands that open the data paths of the channel at a place: towards the
/// headphones where it carries playback, from them where it is the microphone's.
pub open spec fn path_commands(
    handle: u16,
    index: int,
    playback_channels: int,
    microphone: Option<int>,
) -> Seq<Seq<u8>> {
    let toward = if index < playback_channels {
        seq![
            command_bytes(LE_SETUP_ISO_DATA_PATH, iso_path_params(handle, ISO_PATH_INPUT, 0)),
        ]
    } else {
        Seq::empty()
    };
    if microphone == Some(index) {
        toward.push(
            command_bytes(LE_SETUP_ISO_DATA_PATH, iso_path_params(handle, ISO_PATH_OUTPUT, 0)),
        )
    } else {
        toward
    }
}

/// The commands that open the data paths of the first `n` channels.
pub open spec fn all_path_commands(
    established: Seq<u16>,
    n: nat,
    playback_channels: int,
    microphone: Option<int>,
) -> Seq<Seq<u8>>
    decreases n,
{
    if n == 0 {
        Seq::empty()
    } else {
        all_path_commands(established, (n - 1) as nat, playback_channels, microphone)
            + path_commands(established[n - 1], n - 1, playback_channels, microphone)
    }
}

/// The commands that open the data paths of the channels that came up.
///
/// Transparent: the controller forwards our LC3 bytes untouched.
pub fn data_path_commands(
    established: &[u16],
    playback_channels: usize,
    microphone: Option<usize>,
) -> (r: Vec<Vec<u8>>)
    ensures
        crate::bytes::packets(r@) == all_path_commands(
            established@,
            established@.len(),
            playback_channels as int,
            match microphone {
                Some(i) => Some(i as int),
                None => None,
            },
        ),
{
    let ghost mic = match microphone {
        Some(i) => Some(i as int),
        None => None,
    };
    let mut out: Vec<Vec<u8>> = Vec::new();
    let mut i: usize = 0;
    assert(crate::bytes::packets(out@) =~= Seq::empty());
    while i < established.len()
        invariant
            i <= established@.len(),
            mic == (match microphone {
                Some(i) => Some(i as int),
                None => None,
            }),
            crate::bytes::packets(out@) == all_path_commands(
                established@,
                i as nat,
                playback_channels as int,
                mic,
            ),
        decreases established@.len() - i,
    {
        let handle: u16 = established[i];
        let ghost was = crate::bytes::packets(out@);
        if i < playback_channels {
            let ghost before = out@;
            let setup = le_setup_iso_data_path(handle, ISO_PATH_INPUT, 0);
            out.push(setup);
            assert(crate::bytes::packets(out@) =~= crate::bytes::packets(before).push(setup@));
        }
        let is_microphone: bool = match microphone {
            Some(m) => m == i,
            None => false,
        };
        if is_microphone {
            let ghost before = out@;
            let setup = le_setup_iso_data_path(handle, ISO_PATH_OUTPUT, 0);
            out.push(setup);
            assert(crate::bytes::packets(out@) =~= crate::bytes::packets(before).push(setup@));
        }
        assert(crate::bytes::packets(out@) =~= was + path_commands(
            handle,
            i as int,
            playback_channels as int,
            mic,
        ));
        i += 1;
    }
    out
}

} // verus!
