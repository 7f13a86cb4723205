//! GATT over an established LE connection.
//!
//! Nothing here waits or sends. What arrives is queued in a pump, a link says
//! what each packet means and what has to be sent because of it, and a procedure
//! is a function of the answers that have come so far: it is finished, it has
//! failed, or it names the request whose answer it needs next.

pub mod pacs_uuid;
pub mod procedure;

pub use crate::link::procedure::{
    AudioCapabilities, Reply, Step, VolumeControlHandles,
};

use vstd::prelude::*;

use crate::att::{
    absent_answer, absent_local_attribute_response, absorbed, acl_packets, agree_on_mtu,
    agreed_mtu, build_acl_packets, exchange_mtu_response, l2cap_bytes, mtu_in, mtu_response,
    parse_mtu_response, AclReassembler, AttError, Characteristic, Frame, L2capFrame, Partial,
    ServiceRange, ATT_DEFAULT_MTU, ATT_PREFERRED_MTU, CID_ATT, CID_LE_SIGNALING, CID_SMP,
    EXCHANGE_MTU_REQUEST, HANDLE_VALUE_CONFIRMATION, HANDLE_VALUE_INDICATION,
    HANDLE_VALUE_NOTIFICATION,
};
use crate::bytes::{copied, high, low, packets, part, word, word_at};
use crate::hci::{disconnected, parse_disconnection_complete, reason_text, Event, EventView};
use crate::l2cap::{
    parameter_update_response, signal_in, update_response, ConnectionParameters, Signal,
    RESULT_ACCEPTED,
};
use crate::safety::{Approved, SafetyViolation, WritePolicy};
use crate::text::{hex, push_hex};
use crate::time::{shown, Duration};

verus! {

/// How long any single ATT exchange may take before it is given up.
pub fn att_timeout() -> (r: Duration)
    ensures
        r.nanos == 5_000_000_000,
{
    Duration::from_secs(5)
}

/// How long a wait for a packet lasts before the link is looked at again.
pub const POLL_NANOS: u128 = 100_000_000;

// ---------------------------------------------------------------------------
// Errors
// ---------------------------------------------------------------------------

#[derive(Debug, PartialEq, Eq)]
pub enum LinkError {
    Att(AttError),
    Timeout(Duration),
    Closed,
    Transport(String),
    ServiceMissing(u16),
    CharacteristicMissing(u16),
    Unsafe(SafetyViolation),
    Disconnected { reason: u8 },
}

/// What an error says, whatever holds its text.
pub enum Fault {
    Att(AttError),
    Timeout(Duration),
    Closed,
    Transport(Seq<char>),
    ServiceMissing(u16),
    CharacteristicMissing(u16),
    Unsafe(SafetyViolation),
    Disconnected { reason: u8 },
}

impl View for LinkError {
    type V = Fault;

    open spec fn view(&self) -> Fault {
        match self {
            LinkError::Att(e) => Fault::Att(*e),
            LinkError::Timeout(d) => Fault::Timeout(*d),
            LinkError::Closed => Fault::Closed,
            LinkError::Transport(text) => Fault::Transport(text@),
            LinkError::ServiceMissing(uuid) => Fault::ServiceMissing(*uuid),
            LinkError::CharacteristicMissing(uuid) => Fault::CharacteristicMissing(*uuid),
            LinkError::Unsafe(v) => Fault::Unsafe(*v),
            LinkError::Disconnected { reason } => Fault::Disconnected { reason: *reason },
        }
    }
}

impl Fault {
    /// Whether the peer refused a request with a given code.
    pub open spec fn says(self, code: u8) -> bool {
        match self {
            Fault::Att(e) => e.says(code),
            _ => false,
        }
    }

    pub open spec fn message(self) -> Seq<char> {
        match self {
            Fault::Att(e) => e.message(),
            Fault::Timeout(d) => "no response within "@ + shown(d.nanos as nat),
            Fault::Closed => "link closed"@,
            Fault::Transport(text) => "transport error: "@ + text,
            Fault::ServiceMissing(uuid) => "service "@ + hex(uuid as nat, 4)
                + " not found on this device"@,
            Fault::CharacteristicMissing(uuid) => "characteristic "@ + hex(uuid as nat, 4)
                + " not found"@,
            Fault::Unsafe(v) => v.message(),
            Fault::Disconnected { reason } => "protejsek spojeni ukoncil: "@ + reason_text(reason)
                + " (kod "@ + hex(reason as nat, 2) + ")"@,
        }
    }
}

impl Clone for LinkError {
    fn clone(&self) -> (r: Self)
        ensures
            r@ == self@,
    {
        match self {
            LinkError::Att(e) => LinkError::Att(*e),
            LinkError::Timeout(d) => LinkError::Timeout(*d),
            LinkError::Closed => LinkError::Closed,
            LinkError::Transport(text) => LinkError::Transport(text.as_str().to_owned()),
            LinkError::ServiceMissing(uuid) => LinkError::ServiceMissing(*uuid),
            LinkError::CharacteristicMissing(uuid) => LinkError::CharacteristicMissing(*uuid),
            LinkError::Unsafe(v) => LinkError::Unsafe(*v),
            LinkError::Disconnected { reason } => LinkError::Disconnected { reason: *reason },
        }
    }
}

impl LinkError {
    pub fn is_code(&self, code: u8) -> (r: bool)
        ensures
            r == self@.says(code),
    {
        match self {
            LinkError::Att(e) => e.is_code(code),
            _ => false,
        }
    }

    /// A sentence for a person.
    pub fn text(&self) -> (r: String)
        ensures
            r@ == self@.message(),
    {
        let mut out = String::new();
        match self {
            LinkError::Att(e) => {
                return e.text();
            },
            LinkError::Timeout(d) => {
                out.append("no response within ");
                d.push_shown(&mut out);
            },
            LinkError::Closed => {
                out.append("link closed");
            },
            LinkError::Transport(text) => {
                out.append("transport error: ");
                out.append(text.as_str());
            },
            LinkError::ServiceMissing(uuid) => {
                out.append("service ");
                push_hex(&mut out, *uuid as u32, 4);
                out.append(" not found on this device");
            },
            LinkError::CharacteristicMissing(uuid) => {
                out.append("characteristic ");
                push_hex(&mut out, *uuid as u32, 4);
                out.append(" not found");
            },
            LinkError::Unsafe(v) => {
                return v.text();
            },
            LinkError::Disconnected { reason } => {
                out.append("protejsek spojeni ukoncil: ");
                out.append(crate::hci::disconnect_reason(*reason));
                out.append(" (kod ");
                push_hex(&mut out, *reason as u32, 2);
                out.append(")");
            },
        }
        assert(out@ =~= self@.message());
        out
    }
}

// ---------------------------------------------------------------------------
// What has arrived
// ---------------------------------------------------------------------------

/// Everything that has arrived and nobody has taken.
///
/// Events and ACL data are kept apart on purpose. When they shared one queue,
/// whichever layer happened to be waiting consumed whatever arrived - so an SMP
/// response could be pulled out by the command loop, which discards ACL, and
/// then waited for forever by the layer that actually wanted it.
///
/// There must be exactly one pump per adapter.
#[derive(Debug)]
pub struct HciPump {
    events: Vec<Event>,
    acl: Vec<Vec<u8>>,
    closed: bool,
}

/// What a pump holds, oldest first.
pub struct Arrived {
    pub events: Seq<EventView>,
    pub acl: Seq<Seq<u8>>,
    pub closed: bool,
}

/// What events say.
pub open spec fn events(v: Seq<Event>) -> Seq<EventView> {
    v.map_values(|e: Event| e@)
}

impl View for HciPump {
    type V = Arrived;

    closed spec fn view(&self) -> Arrived {
        Arrived { events: events(self.events@), acl: packets(self.acl@), closed: self.closed }
    }
}

/// Whether an event reports the end of a connection.
pub open spec fn ends(e: EventView, handle: u16) -> bool {
    match disconnected(e) {
        Some((closed, reason)) => closed == handle,
        None => false,
    }
}

/// The reason that an event gives for the end of a connection.
pub open spec fn end_reason(e: EventView) -> u8 {
    match disconnected(e) {
        Some((closed, reason)) => reason,
        None => 0,
    }
}

/// The first event that reports the end of a connection, if one does.
pub open spec fn end_of(s: Seq<EventView>, handle: u16) -> Option<int>
    decreases s.len(),
{
    if s.len() == 0 {
        None
    } else if ends(s[0], handle) {
        Some(0)
    } else {
        match end_of(s.skip(1), handle) {
            Some(i) => Some(i + 1),
            None => None,
        }
    }
}

impl HciPump {
    /// A pump that nothing has reached yet.
    pub fn new() -> (r: Self)
        ensures
            r@.events.len() == 0,
            r@.acl.len() == 0,
            !r@.closed,
    {
        let r = HciPump { events: Vec::new(), acl: Vec::new(), closed: false };
        assert(events(r.events@).len() == 0);
        assert(packets(r.acl@).len() == 0);
        r
    }

    /// Queues what the event pipe delivered. Something malformed is skipped.
    pub fn deliver_event(&mut self, raw: &[u8])
        ensures
            final(self)@ == (Arrived {
                events: match crate::hci::event_in(raw@) {
                    Some(e) => old(self)@.events.push(e),
                    None => old(self)@.events,
                },
                ..old(self)@
            }),
    {
        if let Some(event) = Event::parse(raw) {
            let ghost was = self.events@;
            self.events.push(event);
            assert(events(self.events@) =~= events(was).push(event@));
        }
    }

    /// Queues what the data pipe delivered.
    pub fn deliver_acl(&mut self, raw: &[u8])
        ensures
            final(self)@ == (Arrived { acl: old(self)@.acl.push(raw@), ..old(self)@ }),
    {
        let ghost was = self.acl@;
        let packet = copied(raw);
        self.acl.push(packet);
        assert(packets(self.acl@) =~= packets(was).push(packet@));
    }

    /// Notes that the device went away and nothing more will come.
    pub fn close(&mut self)
        ensures
            final(self)@ == (Arrived { closed: true, ..old(self)@ }),
    {
        self.closed = true;
    }

    /// Why nothing was taken after waiting for `timeout`.
    fn take(&self, timeout: Duration) -> (r: LinkError)
        ensures
            r@ == nothing_taken(self@, timeout),
    {
        if self.closed {
            LinkError::Closed
        } else {
            LinkError::Timeout(timeout)
        }
    }

    /// Next HCI event. Never consumes ACL data.
    pub fn recv_event(&mut self, timeout: Duration) -> (r: Result<Event, LinkError>)
        ensures
            r is Ok <==> old(self)@.events.len() > 0,
            r is Ok ==> r->Ok_0@ == old(self)@.events[0] && final(self)@ == (Arrived {
                events: old(self)@.events.skip(1),
                ..old(self)@
            }),
            r is Err ==> r->Err_0@ == nothing_taken(old(self)@, timeout) && final(self)@ == old(
                self,
            )@,
    {
        match self.try_recv_event() {
            Some(event) => Ok(event),
            None => Err(self.take(timeout)),
        }
    }

    /// An event if one is already waiting.
    pub fn try_recv_event(&mut self) -> (r: Option<Event>)
        ensures
            r is Some <==> old(self)@.events.len() > 0,
            r is Some ==> r->0@ == old(self)@.events[0] && final(self)@ == (Arrived {
                events: old(self)@.events.skip(1),
                ..old(self)@
            }),
            r is None ==> final(self)@ == old(self)@,
    {
        if self.events.len() == 0 {
            return None;
        }
        let ghost was = self.events@;
        let event = self.events.remove(0);
        assert(events(self.events@) =~= events(was).skip(1));
        Some(event)
    }

    /// Returns events to the queue for whoever actually wants them.
    ///
    /// They go to the front, in order, so a caller that looked at the queue and
    /// handed it back leaves it exactly as it found it.
    pub fn put_back_events(&mut self, events: Vec<Event>)
        ensures
            final(self)@ == (Arrived {
                events: self::events(events@) + old(self)@.events,
                ..old(self)@
            }),
    {
        let ghost back = events@;
        let ghost held = self.events@;
        let mut all = events;
        let mut later: Vec<Event> = Vec::new();
        std::mem::swap(&mut later, &mut self.events);
        all.append(&mut later);
        assert(all@ =~= back + held);
        assert(self::events(all@) =~= self::events(back) + self::events(held));
        self.events = all;
    }

    /// Next ACL packet. Never consumes events.
    pub fn recv_acl(&mut self, timeout: Duration) -> (r: Result<Vec<u8>, LinkError>)
        ensures
            r is Ok <==> old(self)@.acl.len() > 0,
            r is Ok ==> r->Ok_0@ == old(self)@.acl[0] && final(self)@ == (Arrived {
                acl: old(self)@.acl.skip(1),
                ..old(self)@
            }),
            r is Err ==> r->Err_0@ == nothing_taken(old(self)@, timeout) && final(self)@ == old(
                self,
            )@,
    {
        if self.acl.len() == 0 {
            return Err(self.take(timeout));
        }
        let ghost was = self.acl@;
        let packet = self.acl.remove(0);
        assert(packets(self.acl@) =~= packets(was).skip(1));
        Ok(packet)
    }

    /// Looks for the end of a connection among the events that wait.
    ///
    /// The event that reports it is taken. Everything else is handed back,
    /// because later steps are waiting for it: the queue is drained into a local
    /// list first, since an event that went straight back would be served again
    /// at once.
    pub fn find_end(&mut self, handle: u16) -> (r: Option<u8>)
        ensures
            match end_of(old(self)@.events, handle) {
                Some(i) => {
                    &&& 0 <= i < old(self)@.events.len()
                    &&& r == Some(end_reason(old(self)@.events[i]))
                    &&& final(self)@ == (Arrived {
                        events: old(self)@.events.remove(i),
                        ..old(self)@
                    })
                },
                None => r is None && final(self)@ == old(self)@,
            },
    {
        let ghost start = self@;
        let mut inspected: Vec<Event> = Vec::new();
        let mut dropped: Option<u8> = None;
        let ghost mut taken: int = 0;
        proof {
            assert(start.events.skip(0) =~= start.events);
            lemma_end_of(start.events, handle);
        }
        loop
            invariant_except_break
                dropped is None,
                0 <= taken <= start.events.len(),
                end_of(start.events, handle) == (match end_of(start.events.skip(taken), handle) {
                    Some(i) => Some(i + taken),
                    None => None::<int>,
                }),
                end_of(start.events.skip(taken), handle) is Some ==> end_of(
                    start.events.skip(taken),
                    handle,
                )->0 >= 0,
                self@ == (Arrived { events: start.events.skip(taken), ..start }),
            invariant
                0 <= taken <= start.events.len(),
                events(inspected@) == start.events.take(taken),
            ensures
                match end_of(start.events, handle) {
                    Some(i) => {
                        &&& i == taken
                        &&& taken < start.events.len()
                        &&& dropped == Some(end_reason(start.events[i]))
                        &&& self@ == (Arrived { events: start.events.skip(taken + 1), ..start })
                    },
                    None => {
                        &&& dropped is None
                        &&& taken == start.events.len()
                        &&& self@ == (Arrived { events: start.events.skip(taken), ..start })
                    },
                },
            decreases start.events.len() - taken,
        {
            let ghost rest = start.events.skip(taken);
            let event: Event = match self.try_recv_event() {
                Some(event) => event,
                None => {
                    break ;
                },
            };
            assert(rest[0] == start.events[taken]);
            assert(rest.skip(1) =~= start.events.skip(taken + 1));
            if let Some((closed, reason)) = parse_disconnection_complete(&event) {
                if closed == handle {
                    dropped = Some(reason);
                    break ;
                }
            }
            let ghost was = inspected@;
            inspected.push(event);
            proof {
                assert(events(inspected@) =~= events(was).push(event@));
                assert(events(inspected@) =~= start.events.take(taken + 1));
                lemma_end_of(rest.skip(1), handle);
                taken = taken + 1;
            }
        }
        self.put_back_events(inspected);
        proof {
            lemma_end_of(start.events, handle);
            if end_of(start.events, handle) is Some {
                assert(start.events.take(taken) + start.events.skip(taken + 1)
                    =~= start.events.remove(taken));
            } else {
                assert(start.events.take(taken) + start.events.skip(taken) =~= start.events);
            }
        }
        dropped
    }
}

proof fn lemma_end_of(s: Seq<EventView>, handle: u16)
    ensures
        end_of(s, handle) is Some ==> 0 <= end_of(s, handle)->0 < s.len(),
    decreases s.len(),
{
    if s.len() > 0 {
        lemma_end_of(s.skip(1), handle);
    }
}

/// Why nothing was taken from a pump.
pub open spec fn nothing_taken(a: Arrived, timeout: Duration) -> Fault {
    if a.closed {
        Fault::Closed
    } else {
        Fault::Timeout(timeout)
    }
}

// ---------------------------------------------------------------------------
// One connection
// ---------------------------------------------------------------------------

/// A discovered service with its characteristics.
#[derive(Debug)]
pub struct DiscoveredService {
    pub range: ServiceRange,
    pub characteristics: Vec<Characteristic>,
}

/// The first characteristic with an assigned number.
pub open spec fn first_characteristic(s: Seq<Characteristic>, uuid: u16) -> Option<Characteristic>
    decreases s.len(),
{
    if s.len() == 0 {
        None
    } else if s[0].uuid.short() == Some(uuid) {
        Some(s[0])
    } else {
        first_characteristic(s.skip(1), uuid)
    }
}

/// The first service with an assigned number.
pub open spec fn first_service(s: Seq<ServiceRange>, uuid: u16) -> Option<ServiceRange>
    decreases s.len(),
{
    if s.len() == 0 {
        None
    } else if s[0].uuid.short() == Some(uuid) {
        Some(s[0])
    } else {
        first_service(s.skip(1), uuid)
    }
}

pub fn find_characteristic(s: &[Characteristic], uuid: u16) -> (r: Option<Characteristic>)
    ensures
        r == first_characteristic(s@, uuid),
{
    let mut i: usize = 0;
    assert(s@.skip(0) =~= s@);
    while i < s.len()
        invariant
            i <= s@.len(),
            first_characteristic(s@, uuid) == first_characteristic(s@.skip(i as int), uuid),
        decreases s@.len() - i,
    {
        assert(s@.skip(i as int)[0] == s@[i as int]);
        assert(s@.skip(i as int).skip(1) =~= s@.skip(i + 1));
        if s[i].uuid.is_short(uuid) {
            return Some(s[i]);
        }
        i += 1;
    }
    None
}

pub fn find_service(s: &[ServiceRange], uuid: u16) -> (r: Option<ServiceRange>)
    ensures
        r == first_service(s@, uuid),
{
    let mut i: usize = 0;
    assert(s@.skip(0) =~= s@);
    while i < s.len()
        invariant
            i <= s@.len(),
            first_service(s@, uuid) == first_service(s@.skip(i as int), uuid),
        decreases s@.len() - i,
    {
        assert(s@.skip(i as int)[0] == s@[i as int]);
        assert(s@.skip(i as int).skip(1) =~= s@.skip(i + 1));
        if s[i].uuid.is_short(uuid) {
            return Some(s[i]);
        }
        i += 1;
    }
    None
}

impl DiscoveredService {
    pub fn characteristic(&self, uuid: u16) -> (r: Option<Characteristic>)
        ensures
            r == first_characteristic(self.characteristics@, uuid),
    {
        find_characteristic(self.characteristics.as_slice(), uuid)
    }
}

/// A GATT client bound to one connection handle.
#[derive(Debug)]
pub struct Link {
    handle: u16,
    reassembler: AclReassembler,
    mtu: u16,
    /// Whether the request that is out settles the MTU.
    asked_mtu: bool,
    max_acl_payload: usize,
    write_policy: WritePolicy,
    /// Unsolicited values the device sent, in arrival order.
    notifications: Vec<(u16, Vec<u8>)>,
    att_timeout: Duration,
}

/// What a link knows.
pub struct LinkState {
    pub handle: u16,
    pub partial: Option<Partial>,
    pub mtu: u16,
    pub asked_mtu: bool,
    pub max_acl_payload: int,
    pub approved: Approved,
    pub notifications: Seq<(u16, Seq<u8>)>,
    pub att_timeout: Duration,
}

/// What values that were notified say.
pub open spec fn notified(v: Seq<(u16, Vec<u8>)>) -> Seq<(u16, Seq<u8>)> {
    v.map_values(|n: (u16, Vec<u8>)| (n.0, n.1@))
}

impl View for Link {
    type V = LinkState;

    closed spec fn view(&self) -> LinkState {
        LinkState {
            handle: self.handle,
            partial: self.reassembler@,
            mtu: self.mtu,
            asked_mtu: self.asked_mtu,
            max_acl_payload: self.max_acl_payload as int,
            approved: self.write_policy@,
            notifications: notified(self.notifications@),
            att_timeout: self.att_timeout,
        }
    }
}

impl LinkState {
    /// A link over a connection on which nothing has happened yet.
    pub open spec fn fresh(handle: u16) -> Self {
        LinkState {
            handle,
            partial: None,
            mtu: ATT_DEFAULT_MTU,
            asked_mtu: false,
            max_acl_payload: 27,
            approved: Approved::nothing(),
            notifications: Seq::empty(),
            att_timeout: Duration { nanos: 5_000_000_000 },
        }
    }

    /// Whether whole headers fit into packets, and the MTU is one that exists.
    pub open spec fn wf(self) -> bool {
        4 <= self.max_acl_payload <= 65_535 && self.mtu >= ATT_DEFAULT_MTU
    }

    /// The packets that carry a PDU on a channel of this connection.
    pub open spec fn sent(self, cid: u16, pdu: Seq<u8>) -> Seq<Seq<u8>> {
        acl_packets(self.handle, true, l2cap_bytes(cid, pdu), self.max_acl_payload)
    }
}

/// What a packet means to whoever waits for an answer.
#[derive(Debug)]
pub enum Reaction {
    /// Nothing yet: go on waiting.
    Wait,
    /// Nothing yet, but these packets have to be sent.
    Send(Vec<Vec<u8>>),
    /// The answer.
    Response(Vec<u8>),
}

/// What a packet means, whatever holds it.
pub enum Meaning {
    Wait,
    Send(Seq<Seq<u8>>),
    Response(Seq<u8>),
}

impl View for Reaction {
    type V = Meaning;

    open spec fn view(&self) -> Meaning {
        match self {
            Reaction::Wait => Meaning::Wait,
            Reaction::Send(p) => Meaning::Send(packets(p@)),
            Reaction::Response(p) => Meaning::Response(p@),
        }
    }
}

/// The parameters that a frame asks for, if it is a request on the signalling
/// channel.
pub open spec fn asked_parameters(frame: Frame) -> Option<Signal> {
    if frame.cid == CID_LE_SIGNALING {
        signal_in(frame.payload)
    } else {
        None
    }
}

/// The packets that accept what a frame asks for, if it asks for anything.
pub open spec fn acceptance(handle: u16, max: int, frame: Frame) -> Option<Seq<Seq<u8>>> {
    match asked_parameters(frame) {
        Some(Signal::ParameterUpdateRequest { identifier, parameters }) => Some(
            acl_packets(
                handle,
                true,
                l2cap_bytes(CID_LE_SIGNALING, update_response(identifier, RESULT_ACCEPTED)),
                max,
            ),
        ),
        None => None,
    }
}

/// The packets that a frame on another channel calls for.
pub open spec fn signalling_answer(link: LinkState, frame: Frame) -> Meaning {
    match acceptance(link.handle, link.max_acl_payload, frame) {
        Some(answer) => Meaning::Send(answer),
        None => Meaning::Wait,
    }
}

/// Whether a PDU is a value that nobody asked for.
pub open spec fn is_unsolicited(p: Seq<u8>) -> bool {
    p.len() > 0 && (p[0] == HANDLE_VALUE_NOTIFICATION || p[0] == HANDLE_VALUE_INDICATION)
}

/// The values kept after a PDU that nobody asked for.
pub open spec fn with_notification(kept: Seq<(u16, Seq<u8>)>, p: Seq<u8>) -> Seq<
    (u16, Seq<u8>),
> {
    if p.len() >= 3 {
        kept.push((word_at(p, 1), p.skip(3)))
    } else {
        kept
    }
}

/// What a PDU means while an answer is awaited, and what the link knows after it.
pub open spec fn att_meaning(link: LinkState, p: Seq<u8>) -> (LinkState, Meaning) {
    if is_unsolicited(p) {
        (
            LinkState { notifications: with_notification(link.notifications, p), ..link },
            if p[0] == HANDLE_VALUE_INDICATION {
                Meaning::Send(link.sent(CID_ATT, seq![HANDLE_VALUE_CONFIRMATION]))
            } else {
                Meaning::Wait
            },
        )
    } else if p.len() >= 3 && p[0] == EXCHANGE_MTU_REQUEST {
        (
            LinkState { mtu: agreed_mtu(ATT_PREFERRED_MTU, word_at(p, 1)), ..link },
            Meaning::Send(link.sent(CID_ATT, mtu_response(ATT_PREFERRED_MTU))),
        )
    } else {
        match absent_answer(p) {
            Some(answer) => (link, Meaning::Send(link.sent(CID_ATT, answer))),
            None => (
                match mtu_in(p, ATT_PREFERRED_MTU) {
                    Ok(mtu) => if link.asked_mtu {
                        LinkState { mtu, ..link }
                    } else {
                        link
                    },
                    Err(_) => link,
                },
                Meaning::Response(p),
            ),
        }
    }
}

/// What a packet means while an answer to an ATT request is awaited.
pub open spec fn request_meaning(link: LinkState, raw: Seq<u8>) -> (LinkState, Meaning) {
    let (partial, result) = absorbed(link.partial, raw);
    let next = LinkState { partial, ..link };
    match result {
        Ok(Some(frame)) => if frame.cid == CID_ATT {
            att_meaning(next, frame.payload)
        } else {
            (next, signalling_answer(next, frame))
        },
        _ => (next, Meaning::Wait),
    }
}

/// What a packet means while a pairing PDU is awaited.
pub open spec fn smp_meaning(link: LinkState, raw: Seq<u8>) -> (LinkState, Meaning) {
    let (partial, result) = absorbed(link.partial, raw);
    let next = LinkState { partial, ..link };
    match result {
        Ok(Some(frame)) => if frame.cid == CID_SMP {
            (next, Meaning::Response(frame.payload))
        } else {
            (next, signalling_answer(next, frame))
        },
        _ => (next, Meaning::Wait),
    }
}

/// What a packet means while only values that nobody asked for are awaited.
pub open spec fn listening_meaning(link: LinkState, raw: Seq<u8>) -> (LinkState, Meaning) {
    let (partial, result) = absorbed(link.partial, raw);
    let next = LinkState { partial, ..link };
    match result {
        Ok(Some(frame)) => if asked_parameters(frame) is Some {
            (next, signalling_answer(next, frame))
        } else if frame.cid == CID_ATT && is_unsolicited(frame.payload) {
            (
                LinkState {
                    notifications: with_notification(next.notifications, frame.payload),
                    ..next
                },
                Meaning::Wait,
            )
        } else {
            (next, Meaning::Wait)
        },
        _ => (next, Meaning::Wait),
    }
}

/// What whoever waits for a packet gets, or has to do.
#[derive(Debug)]
pub enum Watch {
    Packet(Vec<u8>),
    /// Nothing is there: wait this long for something to arrive, then look again.
    Wait(Duration),
    Failed(LinkError),
}

impl Link {
    pub fn new(handle: u16) -> (r: Self)
        ensures
            r@ == LinkState::fresh(handle),
            r@.wf(),
    {
        let r = Link {
            handle,
            reassembler: AclReassembler::new(),
            mtu: ATT_DEFAULT_MTU,
            asked_mtu: false,
            max_acl_payload: 27,
            write_policy: WritePolicy::new(),
            notifications: Vec::new(),
            att_timeout: att_timeout(),
        };
        assert(notified(r.notifications@) =~= Seq::empty());
        r
    }

    pub fn mtu(&self) -> (r: u16)
        ensures
            r == self@.mtu,
    {
        self.mtu
    }

    /// How long a request waits for its answer.
    pub fn patience(&self) -> (r: Duration)
        ensures
            r == self@.att_timeout,
    {
        self.att_timeout
    }

    /// The packets that carry a PDU on a channel.
    fn carry(&self, cid: u16, pdu: &[u8]) -> (r: Vec<Vec<u8>>)
        requires
            self@.wf(),
            pdu@.len() <= 65_535,
        ensures
            packets(r@) == self@.sent(cid, pdu@),
    {
        build_acl_packets(self.handle, cid, pdu, self.max_acl_payload)
    }

    /// The packets of one ATT PDU that nobody answers.
    fn send_att_without_wait(&self, pdu: &[u8]) -> (r: Vec<Vec<u8>>)
        requires
            self@.wf(),
            pdu@.len() <= 65_535,
        ensures
            packets(r@) == self@.sent(CID_ATT, pdu@),
    {
        self.carry(CID_ATT, pdu)
    }

    /// The packets of one ATT request. Whatever arrives from then on goes to
    /// `take_packet`, until that gives the response.
    pub fn request(&mut self, pdu: &[u8]) -> (r: Vec<Vec<u8>>)
        requires
            old(self)@.wf(),
            pdu@.len() <= 65_535,
        ensures
            packets(r@) == old(self)@.sent(CID_ATT, pdu@),
            final(self)@ == (LinkState {
                asked_mtu: pdu@.len() > 0 && pdu@[0] == EXCHANGE_MTU_REQUEST,
                ..old(self)@
            }),
    {
        self.asked_mtu = pdu.len() > 0 && pdu[0] == EXCHANGE_MTU_REQUEST;
        self.carry(CID_ATT, pdu)
    }

    /// Answers an LE signalling request, if this frame is one.
    ///
    /// Called from every path that pulls ACL frames apart, because the request
    /// arrives unprompted and the peer starts a one-minute timer the moment it
    /// sends it. Silence there costs the whole connection, so this is never
    /// something to leave for a later step.
    pub fn answer_signalling(handle: u16, max_acl_payload: usize, frame: &L2capFrame) -> (r: Option<
        (ConnectionParameters, Vec<Vec<u8>>),
    >)
        requires
            0 < max_acl_payload <= 65_535,
        ensures
            r is Some <==> asked_parameters(frame@) is Some,
            r is Some ==> ({
                let (parameters, answer) = r->0;
                &&& asked_parameters(frame@)->0->parameters == parameters
                &&& acceptance(handle, max_acl_payload as int, frame@) == Some(packets(answer@))
            }),
    {
        if frame.cid != CID_LE_SIGNALING {
            return None;
        }
        match crate::l2cap::parse(frame.payload.as_slice()) {
            None => None,
            Some(Signal::ParameterUpdateRequest { identifier, parameters }) => {
                let pdu = parameter_update_response(identifier, RESULT_ACCEPTED);
                let answer = build_acl_packets(
                    handle,
                    CID_LE_SIGNALING,
                    pdu.as_slice(),
                    max_acl_payload,
                );
                Some((parameters, answer))
            },
        }
    }

    /// What a frame on a channel that nobody waits for calls for.
    fn answer_other(&self, frame: &L2capFrame) -> (r: Reaction)
        requires
            self@.wf(),
        ensures
            r@ == signalling_answer(self@, frame@),
    {
        match Self::answer_signalling(self.handle, self.max_acl_payload, frame) {
            Some((_, answer)) => Reaction::Send(answer),
            None => Reaction::Wait,
        }
    }

    /// Keeps a value that nobody asked for.
    ///
    /// It is the device's own answer to what was last written. Discarding it is
    /// how a rejected configuration comes to look exactly like an accepted one.
    fn keep(&mut self, p: &[u8])
        ensures
            final(self)@ == (LinkState {
                notifications: with_notification(old(self)@.notifications, p@),
                ..old(self)@
            }),
    {
        if p.len() >= 3 {
            let ghost was = self.notifications@;
            let item: (u16, Vec<u8>) = (word(p[1], p[2]), part(p, 3, p.len()));
            assert(item.1@ =~= p@.skip(3));
            self.notifications.push(item);
            assert(notified(self.notifications@) =~= notified(was).push((item.0, item.1@)));
        }
    }

    /// Takes one packet while the answer to a request is awaited.
    ///
    /// Traffic that is not the answer is dealt with rather than treated as one,
    /// so a notification arriving mid-request does not derail the read. An
    /// indication owns the bearer until it is confirmed; a peer may ask for the
    /// MTU or for attributes of ours while our own request is out.
    pub fn take_packet(&mut self, raw: &[u8]) -> (r: Reaction)
        requires
            old(self)@.wf(),
        ensures
            (final(self)@, r@) == request_meaning(old(self)@, raw@),
            final(self)@.wf(),
    {
        let frame: L2capFrame = match self.reassembler.push(raw) {
            Ok(Some(frame)) => frame,
            _ => {
                return Reaction::Wait;
            },
        };
        if frame.cid != CID_ATT {
            return self.answer_other(&frame);
        }
        let p = &frame.payload;
        if p.len() > 0 && (p[0] == HANDLE_VALUE_NOTIFICATION || p[0] == HANDLE_VALUE_INDICATION) {
            self.keep(p.as_slice());
            if p[0] == HANDLE_VALUE_INDICATION {
                let pdu: Vec<u8> = vec![HANDLE_VALUE_CONFIRMATION];
                assert(pdu@ =~= seq![HANDLE_VALUE_CONFIRMATION]);
                return Reaction::Send(self.send_att_without_wait(pdu.as_slice()));
            }
            return Reaction::Wait;
        }
        if p.len() >= 3 && p[0] == EXCHANGE_MTU_REQUEST {
            self.mtu = agree_on_mtu(ATT_PREFERRED_MTU, word(p[1], p[2]));
            let pdu = exchange_mtu_response(ATT_PREFERRED_MTU);
            return Reaction::Send(self.send_att_without_wait(pdu.as_slice()));
        }
        if let Some(answer) = absent_local_attribute_response(p.as_slice()) {
            return Reaction::Send(self.send_att_without_wait(answer.as_slice()));
        }
        if self.asked_mtu {
            if let Ok(mtu) = parse_mtu_response(p.as_slice(), ATT_PREFERRED_MTU) {
                self.mtu = mtu;
            }
        }
        Reaction::Response(frame.payload)
    }

    /// Decides what whoever waits for a packet until `deadline` gets at `now`.
    ///
    /// A dropped connection is otherwise indistinguishable from a peer that is
    /// merely slow: the stack sits out the whole timeout and then reports
    /// silence, pointing the investigation at the peer instead of the link.
    /// Events that are not about this handle stay where they are, because later
    /// steps are waiting for them.
    pub fn recv_acl_watching_link(
        &self,
        pump: &mut HciPump,
        now: Duration,
        deadline: Duration,
        budget: Duration,
    ) -> (r: Watch)
        ensures
            match end_of(old(pump)@.events, self@.handle) {
                Some(i) => {
                    &&& 0 <= i < old(pump)@.events.len()
                    &&& r is Failed
                    &&& r->Failed_0@ == (Fault::Disconnected {
                        reason: end_reason(old(pump)@.events[i]),
                    })
                    &&& final(pump)@ == (Arrived {
                        events: old(pump)@.events.remove(i),
                        ..old(pump)@
                    })
                },
                None => if now.nanos >= deadline.nanos {
                    &&& r is Failed
                    &&& r->Failed_0@ == Fault::Timeout(budget)
                    &&& final(pump)@ == old(pump)@
                } else if old(pump)@.acl.len() > 0 {
                    &&& r is Packet
                    &&& r->Packet_0@ == old(pump)@.acl[0]
                    &&& final(pump)@ == (Arrived {
                        acl: old(pump)@.acl.skip(1),
                        ..old(pump)@
                    })
                } else if old(pump)@.closed {
                    &&& r is Failed
                    &&& r->Failed_0@ == Fault::Closed
                    &&& final(pump)@ == old(pump)@
                } else {
                    &&& r is Wait
                    &&& r->Wait_0.nanos == if deadline.nanos - now.nanos <= POLL_NANOS {
                        deadline.nanos - now.nanos
                    } else {
                        POLL_NANOS as int
                    }
                    &&& final(pump)@ == old(pump)@
                },
            },
    {
        if let Some(reason) = pump.find_end(self.handle) {
            return Watch::Failed(LinkError::Disconnected { reason });
        }
        let remaining = deadline.saturating_sub(now);
        if remaining.nanos == 0 {
            return Watch::Failed(LinkError::Timeout(budget));
        }
        let wait = remaining.min(Duration { nanos: POLL_NANOS });
        match pump.recv_acl(wait) {
            Ok(raw) => Watch::Packet(raw),
            Err(LinkError::Timeout(_)) => Watch::Wait(wait),
            Err(e) => Watch::Failed(e),
        }
    }

    /// The packets of one pairing PDU. Whatever arrives from then on goes to
    /// `smp_receive`, until that gives the answer.
    ///
    /// Pairing runs on a channel of its own, separate from ATT.
    pub fn smp_exchange(&self, pdu: &[u8]) -> (r: Vec<Vec<u8>>)
        requires
            self@.wf(),
            pdu@.len() <= 65_535,
        ensures
            packets(r@) == self@.sent(CID_SMP, pdu@),
    {
        self.carry(CID_SMP, pdu)
    }

    /// Takes one packet while a pairing PDU is awaited, whether or not anything
    /// was sent first: the peripheral sends its confirm value unprompted.
    pub fn smp_receive(&mut self, raw: &[u8]) -> (r: Reaction)
        requires
            old(self)@.wf(),
        ensures
            (final(self)@, r@) == smp_meaning(old(self)@, raw@),
            final(self)@.wf(),
    {
        match self.reassembler.push(raw) {
            Ok(Some(frame)) => {
                if frame.cid == CID_SMP {
                    Reaction::Response(frame.payload)
                } else {
                    self.answer_other(&frame)
                }
            },
            _ => Reaction::Wait,
        }
    }

    /// Takes one packet while only notifications are awaited.
    ///
    /// The device answers a control point write after the write response, so
    /// asking for notifications at once would always come back empty.
    pub fn collect_notifications(&mut self, raw: &[u8]) -> (r: Reaction)
        requires
            old(self)@.wf(),
        ensures
            (final(self)@, r@) == listening_meaning(old(self)@, raw@),
            final(self)@.wf(),
    {
        let frame: L2capFrame = match self.reassembler.push(raw) {
            Ok(Some(frame)) => frame,
            _ => {
                return Reaction::Wait;
            },
        };
        if let Some((_, answer)) = Self::answer_signalling(
            self.handle,
            self.max_acl_payload,
            &frame,
        ) {
            return Reaction::Send(answer);
        }
        let p = &frame.payload;
        if frame.cid == CID_ATT && p.len() > 0 && (p[0] == HANDLE_VALUE_NOTIFICATION || p[0]
            == HANDLE_VALUE_INDICATION) {
            self.keep(p.as_slice());
        }
        Reaction::Wait
    }

    /// Everything the device has notified since this was last called.
    pub fn take_notifications(&mut self) -> (r: Vec<(u16, Vec<u8>)>)
        ensures
            notified(r@) == old(self)@.notifications,
            final(self)@ == (LinkState { notifications: Seq::empty(), ..old(self)@ }),
    {
        let mut taken: Vec<(u16, Vec<u8>)> = Vec::new();
        std::mem::swap(&mut taken, &mut self.notifications);
        assert(notified(self.notifications@) =~= Seq::empty());
        taken
    }

    /// Shortens how long a request waits, for teardown.
    ///
    /// A peer that is going away, or has stopped answering after a failed
    /// channel, will never reply - and waiting the full timeout for each of
    /// several writes is why disconnecting looked like the program had hung.
    pub fn set_att_timeout(&mut self, timeout: Duration)
        ensures
            final(self)@ == (LinkState { att_timeout: timeout, ..old(self)@ }),
    {
        self.att_timeout = timeout;
    }

    /// Records which handle the stack may write to, learned from discovery.
    pub fn allow_writes_to(&mut self, handle: u16)
        ensures
            final(self)@ == (LinkState {
                approved: Approved {
                    ase_control_point: Some(handle),
                    ..old(self)@.approved
                },
                ..old(self)@
            }),
    {
        self.write_policy.allow_ase_control_point(handle);
    }

    /// Approves a descriptor for subscription.
    pub fn allow_subscription(&mut self, handle: u16)
        ensures
            final(self)@ == (LinkState {
                approved: Approved {
                    subscriptions: old(self)@.approved.subscriptions.insert(handle),
                    ..old(self)@.approved
                },
                ..old(self)@
            }),
    {
        self.write_policy.allow_subscription(handle);
    }

    /// Refuses a write to any handle that was not approved.
    pub fn check_write(&self, handle: u16) -> (r: Result<(), SafetyViolation>)
        ensures
            r is Ok <==> self@.approved.permits(handle),
            r is Err ==> r->Err_0 == (SafetyViolation { handle }),
    {
        self.write_policy.check_write(handle)
    }

    /// Approves the volume control point, so writes to it stop being refused.
    pub fn allow_volume_writes_to(&mut self, handle: u16)
        ensures
            final(self)@ == (LinkState {
                approved: Approved {
                    volume_control_point: Some(handle),
                    ..old(self)@.approved
                },
                ..old(self)@
            }),
    {
        self.write_policy.allow_volume_control_point(handle);
    }
}

// ---------------------------------------------------------------------------
// What holds of a link
// ---------------------------------------------------------------------------

/// Looking at the queue changes nothing: events that were taken one after the other
/// and handed back leave it exactly as it was, in its order.
pub proof fn lemma_inspecting_keeps_the_queue(before: Arrived, count: int)
    requires
        0 <= count <= before.events.len(),
    ensures
        ({
            let drained = Arrived { events: before.events.skip(count), ..before };
            Arrived { events: before.events.take(count) + drained.events, ..drained } == before
        }),
        count < before.events.len() ==> before.events.skip(count).skip(1) == before.events.skip(
            count + 1,
        ) && before.events.take(count).push(before.events.skip(count)[0]) == before.events.take(
            count + 1,
        ),
{
    assert(before.events.take(count) + before.events.skip(count) =~= before.events);
    if count < before.events.len() {
        assert(before.events.skip(count).skip(1) =~= before.events.skip(count + 1));
        assert(before.events.take(count).push(before.events.skip(count)[0])
            =~= before.events.take(count + 1));
    }
}

/// Nothing that arrives unasked is mistaken for an answer: what is taken as the
/// response is no notification, no indication and no request of the peer, and it
/// leaves the notifications as they were.
pub proof fn lemma_response_is_an_answer(link: LinkState, raw: Seq<u8>)
    ensures
        ({
            let (next, meaning) = request_meaning(link, raw);
            meaning matches Meaning::Response(p) ==> {
                &&& !is_unsolicited(p)
                &&& !(p.len() >= 3 && p[0] == EXCHANGE_MTU_REQUEST)
                &&& absent_answer(p) is None
                &&& next.notifications == link.notifications
            }
        }),
{
}

/// A value that arrives unasked in the middle of a request is kept, behind those
/// that came before it, and an indication is confirmed.
pub proof fn lemma_unsolicited_is_kept(link: LinkState, raw: Seq<u8>, frame: Frame)
    requires
        absorbed(link.partial, raw) matches (_, Ok(Some(f))) && f == frame,
        frame.cid == CID_ATT,
        is_unsolicited(frame.payload),
        frame.payload.len() >= 3,
    ensures
        ({
            let (next, meaning) = request_meaning(link, raw);
            let p = frame.payload;
            &&& next.notifications == link.notifications.push((word_at(p, 1), p.skip(3)))
            &&& p[0] == HANDLE_VALUE_INDICATION ==> meaning == Meaning::Send(
                link.sent(CID_ATT, seq![HANDLE_VALUE_CONFIRMATION]),
            )
            &&& p[0] == HANDLE_VALUE_NOTIFICATION ==> meaning == Meaning::Wait
        }),
{
    let (partial, result) = absorbed(link.partial, raw);
    let next = LinkState { partial, ..link };
    assert(next.sent(CID_ATT, seq![HANDLE_VALUE_CONFIRMATION]) == link.sent(
        CID_ATT,
        seq![HANDLE_VALUE_CONFIRMATION],
    ));
}

/// A request for connection parameters is accepted at once, whatever else is
/// being waited for.
pub proof fn lemma_signalling_is_answered(link: LinkState, raw: Seq<u8>, frame: Frame)
    requires
        absorbed(link.partial, raw) matches (_, Ok(Some(f))) && f == frame,
        asked_parameters(frame) is Some,
    ensures
        ({
            let answer = Meaning::Send(
                link.sent(
                    CID_LE_SIGNALING,
                    update_response(asked_parameters(frame)->0->identifier, RESULT_ACCEPTED),
                ),
            );
            let (a, during_request) = request_meaning(link, raw);
            let (b, during_pairing) = smp_meaning(link, raw);
            let (c, while_listening) = listening_meaning(link, raw);
            during_request == answer && during_pairing == answer && while_listening == answer
        }),
{
    let (partial, result) = absorbed(link.partial, raw);
    let next = LinkState { partial, ..link };
    let pdu = update_response(asked_parameters(frame)->0->identifier, RESULT_ACCEPTED);
    assert(next.sent(CID_LE_SIGNALING, pdu) == link.sent(CID_LE_SIGNALING, pdu));
}

/// A whole PDU in one packet, byte by byte: the connection in twelve bits with a mark
/// that says whether it starts a frame, the length of the packet, the length of the PDU,
/// its channel, and then the PDU.
pub open spec fn carries(raw: Seq<u8>, handle: u16, cid: u16, pdu: Seq<u8>) -> bool {
    &&& raw.len() == 8 + pdu.len()
    &&& raw[0] as int + 256 * (raw[1] as int % 16) == handle as int % 4096
    &&& raw[1] as int / 16 % 4 != 1
    &&& raw[2] as int + 256 * (raw[3] as int) == 4 + pdu.len()
    &&& raw[4] as int + 256 * (raw[5] as int) == pdu.len()
    &&& raw[6] as int + 256 * (raw[7] as int) == cid
    &&& raw.skip(8) == pdu
}

/// What is sent is on the air as it should be: a PDU that fits goes out in one packet
/// over this connection, on its channel.
pub proof fn lemma_pdu_is_carried(link: LinkState, cid: u16, pdu: Seq<u8>)
    requires
        link.wf(),
        pdu.len() + 4 <= link.max_acl_payload,
    ensures
        link.sent(cid, pdu).len() == 1,
        carries(link.sent(cid, pdu)[0], link.handle, cid, pdu),
{
    let raw = link.sent(cid, pdu)[0];
    let data = l2cap_bytes(cid, pdu);
    assert(data.len() == 4 + pdu.len());
    let flags = (link.handle as int % 4096) as u16;
    assert(raw[0] == low(flags) && raw[1] == high(flags));
    assert(raw[2] == low(data.len() as u16) && raw[3] == high(data.len() as u16));
    assert(raw[4] == low(pdu.len() as u16) && raw[5] == high(pdu.len() as u16));
    assert(raw[6] == low(cid) && raw[7] == high(cid));
    assert(raw.skip(8) =~= pdu);
}

/// What arrives in one packet is taken apart as it is on the air, whatever was left of
/// the frame before.
pub proof fn lemma_whole_frame_is_taken(
    state: Option<Partial>,
    raw: Seq<u8>,
    handle: u16,
    cid: u16,
    pdu: Seq<u8>,
)
    requires
        carries(raw, handle, cid, pdu),
    ensures
        absorbed(state, raw) == (
            None::<Partial>,
            Ok::<Option<Frame>, AttError>(Some(Frame { cid, payload: pdu })),
        ),
{
    let data = raw.subrange(4, 4 + word_at(raw, 2));
    assert(word_at(raw, 2) == 4 + pdu.len());
    assert(data =~= raw.skip(4));
    assert(data[0] == raw[4] && data[1] == raw[5] && data[2] == raw[6] && data[3] == raw[7]);
    assert(data.skip(4) =~= raw.skip(8));
    let w = word_at(raw, 0) as int;
    assert(w == raw[0] + 256 * raw[1]);
    assert(w / 4096 == raw[1] as int / 16);
}

/// What a PDU means while an answer is awaited, by its first byte: a notification is
/// kept, an indication is kept and confirmed; the peer's wish for a packet size is
/// granted as far as both can, and answered; whatever else the peer asks for is answered
/// with "not found"; and everything else is the answer.
pub proof fn lemma_pdu_is_dealt_with_by_its_kind(link: LinkState, p: Seq<u8>)
    requires
        p.len() >= 3,
    ensures
        ({
            let (next, meaning) = att_meaning(link, p);
            let peer = p[1] as int + 256 * (p[2] as int);
            let asks = p[0] == 0x04 || p[0] == 0x06 || p[0] == 0x08 || p[0] == 0x0A || p[0] == 0x0C
                || p[0] == 0x0E || p[0] == 0x10 || p[0] == 0x12;
            &&& p[0] == 0x1B || p[0] == 0x1D ==> {
                &&& next.notifications.len() == link.notifications.len() + 1
                &&& next.notifications.last().0 == peer
                &&& next.notifications.last().1 == p.skip(3)
                &&& next.notifications.drop_last() == link.notifications
                &&& next.mtu == link.mtu
            }
            &&& p[0] == 0x1B ==> meaning == Meaning::Wait
            &&& p[0] == 0x1D ==> meaning == Meaning::Send(link.sent(4, seq![0x1Eu8]))
            &&& p[0] == 0x02 ==> {
                &&& meaning == Meaning::Send(link.sent(4, seq![0x03u8, 0x05, 0x02]))
                &&& peer < 23 ==> next.mtu == 23
                &&& 23 <= peer <= 517 ==> next.mtu == peer
                &&& peer > 517 ==> next.mtu == 517
            }
            &&& asks ==> next == link && meaning == Meaning::Send(
                link.sent(4, seq![0x01u8, p[0], p[1], p[2], 0x0A]),
            )
            &&& !asks && p[0] != 0x1B && p[0] != 0x1D && p[0] != 0x02 ==> meaning
                == Meaning::Response(p)
            &&& p[0] == 0x03 && link.asked_mtu ==> {
                &&& peer < 23 ==> next.mtu == 23
                &&& 23 <= peer <= 517 ==> next.mtu == peer
                &&& peer > 517 ==> next.mtu == 517
            }
            &&& p[0] != 0x02 && p[0] != 0x03 ==> next.mtu == link.mtu
            &&& next.handle == link.handle && next.approved == link.approved
        }),
{
    let (next, meaning) = att_meaning(link, p);
    if p[0] == 0x1B || p[0] == 0x1D {
        assert(next.notifications.drop_last() =~= link.notifications);
    }
    assert(seq![0x03u8, 0x05, 0x02] =~= mtu_response(ATT_PREFERRED_MTU));
    let refusal = seq![0x01u8, p[0], p[1], p[2], 0x0A];
    if absent_answer(p) is Some {
        assert(absent_answer(p)->0 =~= refusal);
    }
}

/// A wish for connection parameters is a request on channel five, and it is granted in
/// the words of the specification: the answer with its number, and yes.
pub proof fn lemma_wish_for_parameters_is_granted(link: LinkState, frame: Frame)
    ensures
        asked_parameters(frame) is Some <==> frame.cid == 5 && frame.payload.len() >= 12
            && frame.payload[0] == 0x12 && frame.payload[2] as int + 256 * (
        frame.payload[3] as int) == 8,
        asked_parameters(frame) matches Some(Signal::ParameterUpdateRequest {
            identifier,
            parameters,
        }) ==> {
            let p = frame.payload;
            &&& identifier == p[1]
            &&& parameters.interval_min == p[4] + 256 * p[5]
            &&& parameters.interval_max == p[6] + 256 * p[7]
            &&& parameters.latency == p[8] + 256 * p[9]
            &&& parameters.supervision_timeout == p[10] + 256 * p[11]
            &&& acceptance(link.handle, link.max_acl_payload, frame) == Some(
                link.sent(5, seq![0x13u8, p[1], 2, 0, 0, 0]),
            )
        },
{
    if let Some(Signal::ParameterUpdateRequest { identifier, parameters }) = asked_parameters(
        frame,
    ) {
        let answer = update_response(identifier, RESULT_ACCEPTED);
        assert(answer =~= seq![0x13u8, frame.payload[1], 2, 0, 0, 0]);
    }
}

/// Pairing has a channel of its own, six, and takes nothing else for an answer.
pub proof fn lemma_pairing_has_its_own_channel(
    link: LinkState,
    raw: Seq<u8>,
    cid: u16,
    pdu: Seq<u8>,
)
    requires
        carries(raw, link.handle, cid, pdu),
    ensures
        cid == 6 ==> smp_meaning(link, raw).1 == Meaning::Response(pdu),
        cid != 6 ==> !(smp_meaning(link, raw).1 is Response),
        cid != 4 ==> !(request_meaning(link, raw).1 is Response),
        cid == 4 ==> request_meaning(link, raw).1 == att_meaning(
            LinkState { partial: None, ..link },
            pdu,
        ).1,
        cid == 4 && pdu.len() >= 3 && (pdu[0] == 0x1B || pdu[0] == 0x1D) ==> listening_meaning(
            link,
            raw,
        ).0.notifications == link.notifications.push(
            ((pdu[1] as int + 256 * (pdu[2] as int)) as u16, pdu.skip(3)),
        ),
{
    lemma_whole_frame_is_taken(link.partial, raw, link.handle, cid, pdu);
}

/// The end of a connection is the first event that says so of this connection, byte by
/// byte, with its reason; the end of another one is none.
pub proof fn lemma_end_is_the_first_of_its_connection(s: Seq<EventView>, handle: u16)
    ensures
        end_of(s, handle) matches Some(i) ==> {
            &&& 0 <= i < s.len()
            &&& is_end(s[i], handle)
            &&& end_reason(s[i]) == s[i].params[3]
            &&& forall|k: int| 0 <= k < i ==> !is_end(#[trigger] s[k], handle)
        },
        end_of(s, handle) is None ==> forall|k: int|
            0 <= k < s.len() ==> !is_end(#[trigger] s[k], handle),
    decreases s.len(),
{
    if s.len() > 0 && !ends(s[0], handle) {
        let rest = s.skip(1);
        lemma_end_is_the_first_of_its_connection(rest, handle);
        assert forall|k: int| 0 < k < s.len() implies (#[trigger] s[k]) == rest[k - 1] by {}
        match end_of(rest, handle) {
            Some(i) => {
                assert(s[i + 1] == rest[i]);
                assert forall|k: int| 0 <= k < i + 1 implies !is_end(#[trigger] s[k], handle) by {
                    if k > 0 {
                        assert(!is_end(rest[k - 1], handle));
                    }
                }
            },
            None => {
                assert forall|k: int| 0 <= k < s.len() implies !is_end(#[trigger] s[k], handle) by {
                    if k > 0 {
                        assert(!is_end(rest[k - 1], handle));
                    }
                }
            },
        }
    }
}

/// Whether an event says that a connection ended, byte by byte.
pub open spec fn is_end(e: EventView, handle: u16) -> bool {
    &&& e.code == 0x05
    &&& e.params.len() >= 4
    &&& e.params[0] == 0
    &&& e.params[1] as int + 256 * (e.params[2] as int) == handle
}

/// Nothing may be written on a fresh link, and it is patient for five seconds, at the
/// smallest size of packets.
pub proof fn lemma_fresh_link_is_harmless(handle: u16, other: u16)
    ensures
        !LinkState::fresh(handle).approved.permits(other),
        LinkState::fresh(handle).wf(),
        LinkState::fresh(handle).handle == handle,
        LinkState::fresh(handle).mtu == 23,
        LinkState::fresh(handle).att_timeout.nanos == 5_000_000_000,
        LinkState::fresh(handle).notifications.len() == 0,
{
}

} // verus!
