//! GATT procedures, as functions of the answers that have come so far.
//!
//! A procedure is handed every answer it has had and works through them from
//! the start. Where they run out it names the next request; there is nothing to
//! remember between two calls, and nothing that could disagree with what the
//! peer really said.

use vstd::prelude::*;

use crate::att::{
    blob_pdu, characteristics_fault, characteristics_in, check_error, exchange_mtu_request,
    group_request, mtu_in, mtu_request, parse_characteristics, parse_mtu_response,
    parse_read_response, parse_service_ranges, read_blob_request, read_by_group_type_request,
    read_by_type_request, read_pdu, read_request, refusal, services_fault, services_in,
    type_request, value_in, write_pdu, write_request, Characteristic, ServiceRange, Uuid,
    ATTRIBUTE_NOT_FOUND, ATT_DEFAULT_MTU, ATT_PREFERRED_MTU, CHARACTERISTIC, INVALID_OFFSET,
    PRIMARY_SERVICE,
};
use crate::bap::{ase_in, parse_state, published, records, PacRecord, Record};
use crate::bytes::{quad, quad_of, word, word_at};
use crate::link::pacs_uuid;
use crate::link::{
    find_characteristic, find_service, first_characteristic, first_service, DiscoveredService,
    Fault, Link, LinkError, LinkState,
};
use crate::safety::{Approved, SafetyViolation};
use crate::vcs::{parse_volume_state, volume_in, VolumeState};

verus! {

/// One answer: what the peer said, or why it said nothing, and the MTU in force
/// when it came.
#[derive(Debug)]
pub struct Reply {
    pub mtu: u16,
    pub answer: Result<Vec<u8>, LinkError>,
}

/// What an answer says, whatever holds it.
pub struct Said {
    pub mtu: u16,
    pub answer: Result<Seq<u8>, Fault>,
}

impl View for Reply {
    type V = Said;

    open spec fn view(&self) -> Said {
        Said {
            mtu: self.mtu,
            answer: match self.answer {
                Ok(p) => Ok(p@),
                Err(e) => Err(e@),
            },
        }
    }
}

/// What answers say.
pub open spec fn said(v: Seq<Reply>) -> Seq<Said> {
    v.map_values(|r: Reply| r@)
}

/// How far a procedure has come.
#[derive(Debug)]
pub enum Step<T> {
    /// It needs the answer to this request.
    Ask(Vec<u8>),
    /// It is finished, with a number of answers used up.
    Done(T, usize),
    /// It has failed, with a number of answers used up.
    Failed(LinkError, usize),
}

/// How far a procedure has come, whatever holds the details.
pub enum Stage<V> {
    Ask(Seq<u8>),
    Done(V, int),
    Failed(Fault, int),
}

impl<T: View> View for Step<T> {
    type V = Stage<T::V>;

    open spec fn view(&self) -> Stage<T::V> {
        match self {
            Step::Ask(pdu) => Stage::Ask(pdu@),
            Step::Done(value, used) => Stage::Done(value@, *used as int),
            Step::Failed(e, used) => Stage::Failed(e@, *used as int),
        }
    }
}

/// Where volume lives on a device that has a Volume Control Service.
#[derive(Debug, Clone, Copy, PartialEq, Eq, Structural)]
pub struct VolumeControlHandles {
    pub state: u16,
    pub state_cccd: u16,
    pub control_point: u16,
}

/// Everything read out of a device's PACS.
#[derive(Debug)]
pub struct AudioCapabilities {
    pub sink_records: Vec<PacRecord>,
    pub source_records: Vec<PacRecord>,
    pub sink_locations: Option<u32>,
    pub available_contexts: Option<u16>,
    pub supported_contexts: Option<u16>,
    pub sink_ase_ids: Vec<u8>,
    pub source_ase_ids: Vec<u8>,
}

/// What capabilities say, whatever holds them.
pub struct Published {
    pub sink_records: Seq<Record>,
    pub source_records: Seq<Record>,
    pub sink_locations: Option<u32>,
    pub available_contexts: Option<u16>,
    pub supported_contexts: Option<u16>,
    pub sink_ase_ids: Seq<u8>,
    pub source_ase_ids: Seq<u8>,
}

impl View for AudioCapabilities {
    type V = Published;

    open spec fn view(&self) -> Published {
        Published {
            sink_records: records(self.sink_records@),
            source_records: records(self.source_records@),
            sink_locations: self.sink_locations,
            available_contexts: self.available_contexts,
            supported_contexts: self.supported_contexts,
            sink_ase_ids: self.sink_ase_ids@,
            source_ase_ids: self.source_ase_ids@,
        }
    }
}

impl Published {
    /// A device that says nothing.
    pub open spec fn nothing() -> Self {
        Published {
            sink_records: Seq::empty(),
            source_records: Seq::empty(),
            sink_locations: None,
            available_contexts: None,
            supported_contexts: None,
            sink_ase_ids: Seq::empty(),
            source_ase_ids: Seq::empty(),
        }
    }
}

impl Default for AudioCapabilities {
    fn default() -> (r: Self)
        ensures
            r@ == Published::nothing(),
    {
        let r = AudioCapabilities {
            sink_records: Vec::new(),
            source_records: Vec::new(),
            sink_locations: None,
            available_contexts: None,
            supported_contexts: None,
            sink_ase_ids: Vec::new(),
            source_ase_ids: Vec::new(),
        };
        assert(records(r.sink_records@) =~= Seq::empty());
        assert(records(r.source_records@) =~= Seq::empty());
        r
    }
}

// ---------------------------------------------------------------------------
// Discovery
// ---------------------------------------------------------------------------

pub open spec fn mtu_stage(s: Seq<Said>, at: int) -> Stage<u16> {
    if at >= s.len() {
        Stage::Ask(mtu_request(ATT_PREFERRED_MTU))
    } else {
        match s[at].answer {
            Err(e) => Stage::Failed(e, at + 1),
            Ok(p) => match mtu_in(p, ATT_PREFERRED_MTU) {
                Ok(mtu) => Stage::Done(mtu, at + 1),
                Err(e) => Stage::Failed(Fault::Att(e), at + 1),
            },
        }
    }
}

/// The service table is asked for from `start` on, one batch after the other,
/// until the peer has nothing more, an empty batch comes or the last handle is
/// reached.
pub open spec fn services_stage(
    s: Seq<Said>,
    at: int,
    start: u16,
    found: Seq<ServiceRange>,
) -> Stage<Seq<ServiceRange>>
    decreases s.len() - at,
{
    if at >= s.len() {
        Stage::Ask(group_request(start, 0xFFFF, PRIMARY_SERVICE))
    } else {
        match s[at].answer {
            Err(e) => if e.says(ATTRIBUTE_NOT_FOUND) {
                Stage::Done(found, at + 1)
            } else {
                Stage::Failed(e, at + 1)
            },
            Ok(p) => match services_fault(p) {
                Some(e) => if e.says(ATTRIBUTE_NOT_FOUND) {
                    Stage::Done(found, at + 1)
                } else {
                    Stage::Failed(Fault::Att(e), at + 1)
                },
                None => {
                    let batch = services_in(p);
                    if batch.len() == 0 {
                        Stage::Done(found, at + 1)
                    } else if batch.last().end_handle == 0xFFFF {
                        Stage::Done(found + batch, at + 1)
                    } else {
                        services_stage(
                            s,
                            at + 1,
                            (batch.last().end_handle + 1) as u16,
                            found + batch,
                        )
                    }
                },
            },
        }
    }
}

/// The characteristics of a service are asked for in the same way, up to the end
/// of the service.
pub open spec fn characteristics_stage(
    s: Seq<Said>,
    at: int,
    start: u16,
    end: u16,
    found: Seq<Characteristic>,
) -> Stage<Seq<Characteristic>>
    decreases s.len() - at,
{
    if start > end {
        Stage::Done(found, at)
    } else if at >= s.len() {
        Stage::Ask(type_request(start, end, CHARACTERISTIC))
    } else {
        match s[at].answer {
            Err(e) => if e.says(ATTRIBUTE_NOT_FOUND) {
                Stage::Done(found, at + 1)
            } else {
                Stage::Failed(e, at + 1)
            },
            Ok(p) => match characteristics_fault(p) {
                Some(e) => if e.says(ATTRIBUTE_NOT_FOUND) {
                    Stage::Done(found, at + 1)
                } else {
                    Stage::Failed(Fault::Att(e), at + 1)
                },
                None => {
                    let batch = characteristics_in(p);
                    if batch.len() == 0 {
                        Stage::Done(found, at + 1)
                    } else if batch.last().declaration_handle >= end {
                        Stage::Done(found + batch, at + 1)
                    } else {
                        characteristics_stage(
                            s,
                            at + 1,
                            (batch.last().declaration_handle + 1) as u16,
                            end,
                            found + batch,
                        )
                    }
                },
            },
        }
    }
}

// ---------------------------------------------------------------------------
// Reading and writing
// ---------------------------------------------------------------------------

/// A chunk that fills the MTU may have been cut, so what lies behind it is asked
/// for. `last` is the length of the chunk that came last. Reading past the end is
/// how a server says that it is done.
pub open spec fn blob_stage(
    s: Seq<Said>,
    at: int,
    handle: u16,
    mtu: u16,
    last: nat,
    value: Seq<u8>,
) -> Stage<Seq<u8>>
    decreases s.len() - at,
{
    if last + 1 != mtu {
        Stage::Done(value, at)
    } else if at >= s.len() {
        Stage::Ask(blob_pdu(handle, value.len() as u16))
    } else {
        match s[at].answer {
            Err(e) => if e.says(INVALID_OFFSET) {
                Stage::Done(value, at + 1)
            } else {
                Stage::Failed(e, at + 1)
            },
            Ok(p) => match value_in(p) {
                Err(e) => if e.says(INVALID_OFFSET) {
                    Stage::Done(value, at + 1)
                } else {
                    Stage::Failed(Fault::Att(e), at + 1)
                },
                Ok(chunk) => if chunk.len() == 0 {
                    Stage::Done(value, at + 1)
                } else {
                    blob_stage(s, at + 1, handle, s[at].mtu, chunk.len(), value + chunk)
                },
            },
        }
    }
}

pub open spec fn read_stage(s: Seq<Said>, at: int, handle: u16) -> Stage<Seq<u8>> {
    if at >= s.len() {
        Stage::Ask(read_pdu(handle))
    } else {
        match s[at].answer {
            Err(e) => Stage::Failed(e, at + 1),
            Ok(p) => match value_in(p) {
                Err(e) => Stage::Failed(Fault::Att(e), at + 1),
                Ok(value) => blob_stage(s, at + 1, handle, s[at].mtu, value.len(), value),
            },
        }
    }
}

/// A write that was sent is judged by its answer.
pub open spec fn sent_stage(s: Seq<Said>, at: int, handle: u16, value: Seq<u8>) -> Stage<()> {
    if at >= s.len() {
        Stage::Ask(write_pdu(handle, value))
    } else {
        match s[at].answer {
            Err(e) => Stage::Failed(e, at + 1),
            Ok(p) => match refusal(p) {
                Some(e) => Stage::Failed(Fault::Att(e), at + 1),
                None => Stage::Done((), at + 1),
            },
        }
    }
}

/// A write is refused before anything is asked, or sent.
pub open spec fn write_stage(
    approved: Approved,
    s: Seq<Said>,
    at: int,
    handle: u16,
    value: Seq<u8>,
) -> Stage<()> {
    if !approved.permits(handle) {
        Stage::Failed(Fault::Unsafe(SafetyViolation { handle }), at)
    } else {
        sent_stage(s, at, handle, value)
    }
}

impl Link {
    /// Negotiates the largest PDU both sides accept, so PAC records arrive whole.
    pub fn exchange_mtu(replies: &[Reply], at: usize) -> (r: Step<u16>)
        ensures
            r@ == mtu_stage(said(replies@), at as int),
    {
        if at >= replies.len() {
            return Step::Ask(exchange_mtu_request(ATT_PREFERRED_MTU));
        }
        assert(said(replies@)[at as int] == replies@[at as int]@);
        match &replies[at].answer {
            Err(e) => Step::Failed(e.clone(), at + 1),
            Ok(p) => match parse_mtu_response(p.as_slice(), ATT_PREFERRED_MTU) {
                Ok(mtu) => Step::Done(mtu, at + 1),
                Err(e) => Step::Failed(LinkError::Att(e), at + 1),
            },
        }
    }

    /// Walks the whole primary service table.
    pub fn discover_services(replies: &[Reply], at: usize) -> (r: Step<Vec<ServiceRange>>)
        ensures
            r@ == services_stage(said(replies@), at as int, 1, Seq::empty()),
    {
        let mut services: Vec<ServiceRange> = Vec::new();
        let mut start: u16 = 1;
        let mut next: usize = at;
        let ghost s = said(replies@);
        let ghost goal = services_stage(s, at as int, 1, Seq::empty());
        while next < replies.len()
            invariant
                s == said(replies@),
                s.len() == replies@.len(),
                goal == services_stage(s, next as int, start, services@),
                goal == services_stage(said(replies@), at as int, 1, Seq::empty()),
            decreases replies@.len() - next,
        {
            assert(s[next as int] == replies@[next as int]@);
            let p = match &replies[next].answer {
                Err(e) => {
                    if e.is_code(ATTRIBUTE_NOT_FOUND) {
                        return Step::Done(services, next + 1);
                    }
                    return Step::Failed(e.clone(), next + 1);
                },
                Ok(p) => p,
            };
            let mut batch: Vec<ServiceRange> = match parse_service_ranges(p.as_slice()) {
                Err(e) => {
                    if e.is_code(ATTRIBUTE_NOT_FOUND) {
                        return Step::Done(services, next + 1);
                    }
                    return Step::Failed(LinkError::Att(e), next + 1);
                },
                Ok(batch) => batch,
            };
            if batch.len() == 0 {
                return Step::Done(services, next + 1);
            }
            let last: u16 = batch[batch.len() - 1].end_handle;
            services.append(&mut batch);
            next += 1;
            if last == 0xFFFF {
                return Step::Done(services, next);
            }
            start = last + 1;
        }
        Step::Ask(read_by_group_type_request(start, 0xFFFF, PRIMARY_SERVICE))
    }

    /// Lists the characteristics inside one service.
    pub fn discover_characteristics(range: &ServiceRange, replies: &[Reply], at: usize) -> (r: Step<
        Vec<Characteristic>,
    >)
        ensures
            r@ == characteristics_stage(
                said(replies@),
                at as int,
                range.start_handle,
                range.end_handle,
                Seq::empty(),
            ),
    {
        let mut characteristics: Vec<Characteristic> = Vec::new();
        let mut start: u16 = range.start_handle;
        let end: u16 = range.end_handle;
        let mut next: usize = at;
        let ghost s = said(replies@);
        let ghost goal = characteristics_stage(
            s,
            at as int,
            range.start_handle,
            range.end_handle,
            Seq::empty(),
        );
        while start <= end && next < replies.len()
            invariant
                s == said(replies@),
                s.len() == replies@.len(),
                end == range.end_handle,
                goal == characteristics_stage(s, next as int, start, end, characteristics@),
                goal == characteristics_stage(
                    said(replies@),
                    at as int,
                    range.start_handle,
                    range.end_handle,
                    Seq::empty(),
                ),
            decreases replies@.len() - next,
        {
            assert(s[next as int] == replies@[next as int]@);
            let p = match &replies[next].answer {
                Err(e) => {
                    if e.is_code(ATTRIBUTE_NOT_FOUND) {
                        return Step::Done(characteristics, next + 1);
                    }
                    return Step::Failed(e.clone(), next + 1);
                },
                Ok(p) => p,
            };
            let mut batch: Vec<Characteristic> = match parse_characteristics(p.as_slice()) {
                Err(e) => {
                    if e.is_code(ATTRIBUTE_NOT_FOUND) {
                        return Step::Done(characteristics, next + 1);
                    }
                    return Step::Failed(LinkError::Att(e), next + 1);
                },
                Ok(batch) => batch,
            };
            if batch.len() == 0 {
                return Step::Done(characteristics, next + 1);
            }
            let last: u16 = batch[batch.len() - 1].declaration_handle;
            characteristics.append(&mut batch);
            next += 1;
            if last >= end {
                return Step::Done(characteristics, next);
            }
            start = last + 1;
        }
        if start > end {
            return Step::Done(characteristics, next);
        }
        Step::Ask(read_by_type_request(start, end, CHARACTERISTIC))
    }

    /// Reads a characteristic, continuing with Read Blob when the value is long.
    pub fn read_characteristic(value_handle: u16, replies: &[Reply], at: usize) -> (r: Step<Vec<u8>>)
        ensures
            r@ == read_stage(said(replies@), at as int, value_handle),
    {
        let ghost s = said(replies@);
        let ghost goal = read_stage(s, at as int, value_handle);
        if at >= replies.len() {
            return Step::Ask(read_request(value_handle));
        }
        assert(s[at as int] == replies@[at as int]@);
        let p = match &replies[at].answer {
            Err(e) => {
                return Step::Failed(e.clone(), at + 1);
            },
            Ok(p) => p,
        };
        let mut value: Vec<u8> = match parse_read_response(p.as_slice()) {
            Err(e) => {
                return Step::Failed(LinkError::Att(e), at + 1);
            },
            Ok(value) => value,
        };
        let mut mtu: u16 = replies[at].mtu;
        let mut last: usize = value.len();
        let mut next: usize = at + 1;
        // A response that exactly fills the MTU may have been truncated.
        while mtu > 0 && last == (mtu - 1) as usize && next < replies.len()
            invariant
                s == said(replies@),
                s.len() == replies@.len(),
                goal == blob_stage(s, next as int, value_handle, mtu, last as nat, value@),
                goal == read_stage(said(replies@), at as int, value_handle),
            decreases replies@.len() - next,
        {
            assert(s[next as int] == replies@[next as int]@);
            let p = match &replies[next].answer {
                Err(e) => {
                    if e.is_code(INVALID_OFFSET) {
                        return Step::Done(value, next + 1);
                    }
                    return Step::Failed(e.clone(), next + 1);
                },
                Ok(p) => p,
            };
            let mut chunk: Vec<u8> = match parse_read_response(p.as_slice()) {
                Err(e) => {
                    if e.is_code(INVALID_OFFSET) {
                        return Step::Done(value, next + 1);
                    }
                    return Step::Failed(LinkError::Att(e), next + 1);
                },
                Ok(chunk) => chunk,
            };
            if chunk.len() == 0 {
                return Step::Done(value, next + 1);
            }
            last = chunk.len();
            value.append(&mut chunk);
            mtu = replies[next].mtu;
            next += 1;
        }
        if mtu == 0 || last != (mtu - 1) as usize {
            return Step::Done(value, next);
        }
        Step::Ask(read_blob_request(value_handle, value.len() as u16))
    }

    /// Writes to a characteristic, refusing any handle discovery did not approve.
    ///
    /// The check lives here rather than at the call site so no caller can reach
    /// the device without passing it. Writing to a guessed handle is how you
    /// change a setting on someone's headphones that was never meant to be touched.
    pub fn write_characteristic(
        &self,
        value_handle: u16,
        value: &[u8],
        replies: &[Reply],
        at: usize,
    ) -> (r: Step<()>)
        ensures
            r@ == write_stage(self@.approved, said(replies@), at as int, value_handle, value@),
    {
        if let Err(violation) = self.check_write(value_handle) {
            return Step::Failed(LinkError::Unsafe(violation), at);
        }
        if at >= replies.len() {
            return Step::Ask(write_request(value_handle, value));
        }
        assert(said(replies@)[at as int] == replies@[at as int]@);
        match &replies[at].answer {
            Err(e) => Step::Failed(e.clone(), at + 1),
            Ok(p) => match check_error(p.as_slice()) {
                Err(e) => Step::Failed(LinkError::Att(e), at + 1),
                Ok(()) => Step::Done((), at + 1),
            },
        }
    }
}

// ---------------------------------------------------------------------------
// Procedures made of others
// ---------------------------------------------------------------------------

/// One procedure, and another that starts from its result and from the answers
/// that it left.
pub open spec fn chain<V, W>(first: Stage<V>, second: spec_fn(V, int) -> Stage<W>) -> Stage<W> {
    match first {
        Stage::Ask(pdu) => Stage::Ask(pdu),
        Stage::Failed(e, used) => Stage::Failed(e, used),
        Stage::Done(value, used) => second(value, used),
    }
}

/// All services, from the first handle on.
pub open spec fn all_services_stage(s: Seq<Said>, at: int) -> Stage<Seq<ServiceRange>> {
    services_stage(s, at, 1, Seq::empty())
}

/// All characteristics of a service.
pub open spec fn all_characteristics_stage(s: Seq<Said>, at: int, range: ServiceRange) -> Stage<
    Seq<Characteristic>,
> {
    characteristics_stage(s, at, range.start_handle, range.end_handle, Seq::empty())
}

/// The characteristics of a service that the device must have.
pub open spec fn service_stage(s: Seq<Said>, at: int, uuid: u16) -> Stage<Seq<Characteristic>> {
    chain(
        all_services_stage(s, at),
        |services: Seq<ServiceRange>, n: int|
            match first_service(services, uuid) {
                None => Stage::Failed(Fault::ServiceMissing(uuid), n),
                Some(range) => all_characteristics_stage(s, n, range),
            },
    )
}

/// The endpoints of one kind: each is read, and one that cannot be read is left
/// out.
pub open spec fn endpoints_stage(
    s: Seq<Said>,
    at: int,
    cs: Seq<Characteristic>,
    wanted: u16,
    found: Seq<(u8, u16)>,
) -> Stage<Seq<(u8, u16)>>
    decreases cs.len(),
{
    if cs.len() == 0 {
        Stage::Done(found, at)
    } else if cs[0].uuid.short() != Some(wanted) {
        endpoints_stage(s, at, cs.skip(1), wanted, found)
    } else {
        match read_stage(s, at, cs[0].value_handle) {
            Stage::Ask(pdu) => Stage::Ask(pdu),
            Stage::Failed(_, n) => endpoints_stage(s, n, cs.skip(1), wanted, found),
            Stage::Done(value, n) => endpoints_stage(
                s,
                n,
                cs.skip(1),
                wanted,
                with_endpoint(found, value, cs[0].value_handle),
            ),
        }
    }
}

/// The endpoints after one more value was read.
pub open spec fn with_endpoint(found: Seq<(u8, u16)>, value: Seq<u8>, handle: u16) -> Seq<
    (u8, u16),
> {
    match ase_in(value) {
        Some(ase) => found.push((ase.ase_id, handle)),
        None => found,
    }
}

/// Whether a characteristic of the ASCS service notifies what its endpoint does.
pub open spec fn is_ase_related(c: Characteristic) -> bool {
    c.uuid.short() == Some(pacs_uuid::SINK_ASE) || c.uuid.short() == Some(pacs_uuid::SOURCE_ASE)
        || c.uuid.short() == Some(pacs_uuid::ASE_CONTROL_POINT)
}

/// The descriptor that sits immediately behind a value.
pub open spec fn descriptor_of(value_handle: u16) -> u16 {
    ((value_handle + 1) % 0x1_0000) as u16
}

/// Each endpoint and the control point are subscribed to, whatever comes of it;
/// then a sink is read, and one that cannot be read is left out.
pub open spec fn subscriptions_stage(
    s: Seq<Said>,
    at: int,
    cs: Seq<Characteristic>,
    found: Seq<(u8, u16)>,
) -> Stage<Seq<(u8, u16)>>
    decreases cs.len(),
{
    if cs.len() == 0 {
        Stage::Done(found, at)
    } else if !is_ase_related(cs[0]) {
        subscriptions_stage(s, at, cs.skip(1), found)
    } else {
        match sent_stage(s, at, descriptor_of(cs[0].value_handle), seq![1, 0]) {
            Stage::Ask(pdu) => Stage::Ask(pdu),
            Stage::Failed(_, n) | Stage::Done(_, n) => if cs[0].uuid.short() != Some(
                pacs_uuid::SINK_ASE,
            ) {
                subscriptions_stage(s, n, cs.skip(1), found)
            } else {
                match read_stage(s, n, cs[0].value_handle) {
                    Stage::Ask(pdu) => Stage::Ask(pdu),
                    Stage::Failed(_, m) => subscriptions_stage(s, m, cs.skip(1), found),
                    Stage::Done(value, m) => subscriptions_stage(
                        s,
                        m,
                        cs.skip(1),
                        with_endpoint(found, value, cs[0].value_handle),
                    ),
                }
            },
        }
    }
}

/// The descriptors that are approved on the way, as far as the answers reach.
pub open spec fn approved_on_the_way(s: Seq<Said>, at: int, cs: Seq<Characteristic>) -> Set<u16>
    decreases cs.len(),
{
    if cs.len() == 0 {
        Set::empty()
    } else if !is_ase_related(cs[0]) {
        approved_on_the_way(s, at, cs.skip(1))
    } else {
        let descriptor = descriptor_of(cs[0].value_handle);
        match sent_stage(s, at, descriptor, seq![1, 0]) {
            Stage::Ask(_) => Set::empty().insert(descriptor),
            Stage::Failed(_, n) | Stage::Done(_, n) => if cs[0].uuid.short() != Some(
                pacs_uuid::SINK_ASE,
            ) {
                approved_on_the_way(s, n, cs.skip(1)).insert(descriptor)
            } else {
                match read_stage(s, n, cs[0].value_handle) {
                    Stage::Ask(_) => Set::empty().insert(descriptor),
                    Stage::Failed(_, m) | Stage::Done(_, m) => approved_on_the_way(
                        s,
                        m,
                        cs.skip(1),
                    ).insert(descriptor),
                }
            },
        }
    }
}

/// The handles of the volume, where a service has all of them.
pub open spec fn volume_handles(cs: Seq<Characteristic>) -> Option<VolumeControlHandles> {
    match (
        first_characteristic(cs, crate::vcs::VOLUME_STATE),
        first_characteristic(cs, crate::vcs::VOLUME_CONTROL_POINT),
    ) {
        (Some(state), Some(control_point)) => Some(
            VolumeControlHandles {
                state: state.value_handle,
                state_cccd: descriptor_of(state.value_handle),
                control_point: control_point.value_handle,
            },
        ),
        _ => None,
    }
}

pub open spec fn volume_control_stage(s: Seq<Said>, at: int) -> Stage<
    Option<VolumeControlHandles>,
> {
    chain(
        all_services_stage(s, at),
        |services: Seq<ServiceRange>, n: int|
            match first_service(services, crate::vcs::VOLUME_CONTROL_SERVICE) {
                None => Stage::Done(None, n),
                Some(range) => chain(
                    all_characteristics_stage(s, n, range),
                    |cs: Seq<Characteristic>, m: int| Stage::Done(volume_handles(cs), m),
                ),
            },
    )
}

pub open spec fn volume_state_stage(s: Seq<Said>, at: int, handle: u16) -> Stage<
    Option<VolumeState>,
> {
    chain(read_stage(s, at, handle), |value: Seq<u8>, n: int| Stage::Done(volume_in(value), n))
}

/// A characteristic that a device may lack: its value, where it has it.
pub open spec fn optional_stage(s: Seq<Said>, at: int, c: Option<Characteristic>) -> Stage<
    Option<Seq<u8>>,
> {
    match c {
        None => Stage::Done(None, at),
        Some(c) => chain(
            read_stage(s, at, c.value_handle),
            |value: Seq<u8>, n: int| Stage::Done(Some(value), n),
        ),
    }
}

/// The records in a value that was read, if it was.
pub open spec fn records_read(v: Option<Seq<u8>>) -> Seq<Record> {
    match v {
        Some(value) => published(value),
        None => Seq::empty(),
    }
}

/// The mask in a value that was read, if it was and is long enough.
pub open spec fn locations_read(v: Option<Seq<u8>>) -> Option<u32> {
    match v {
        Some(b) => if b.len() >= 4 {
            Some(quad_of(b[0], b[1], b[2], b[3]))
        } else {
            None
        },
        None => None,
    }
}

/// The contexts in a value that was read, if it was and is long enough.
pub open spec fn contexts_read(v: Option<Seq<u8>>) -> Option<u16> {
    match v {
        Some(b) => if b.len() >= 2 {
            Some(word_at(b, 0))
        } else {
            None
        },
        None => None,
    }
}

/// What the PACS service says, read value by value.
pub open spec fn pacs_stage(s: Seq<Said>, at: int, cs: Seq<Characteristic>) -> Stage<Published> {
    chain(
        optional_stage(s, at, first_characteristic(cs, pacs_uuid::SINK_PAC)),
        |sink: Option<Seq<u8>>, a: int|
            chain(
                optional_stage(s, a, first_characteristic(cs, pacs_uuid::SOURCE_PAC)),
                |source: Option<Seq<u8>>, b: int|
                    chain(
                        optional_stage(
                            s,
                            b,
                            first_characteristic(cs, pacs_uuid::SINK_AUDIO_LOCATIONS),
                        ),
                        |locations: Option<Seq<u8>>, c: int|
                            chain(
                                optional_stage(
                                    s,
                                    c,
                                    first_characteristic(cs, pacs_uuid::AVAILABLE_CONTEXTS),
                                ),
                                |available: Option<Seq<u8>>, d: int|
                                    chain(
                                        optional_stage(
                                            s,
                                            d,
                                            first_characteristic(
                                                cs,
                                                pacs_uuid::SUPPORTED_CONTEXTS,
                                            ),
                                        ),
                                        |supported: Option<Seq<u8>>, e: int|
                                            Stage::Done(
                                                Published {
                                                    sink_records: records_read(sink),
                                                    source_records: records_read(source),
                                                    sink_locations: locations_read(locations),
                                                    available_contexts: contexts_read(available),
                                                    supported_contexts: contexts_read(supported),
                                                    sink_ase_ids: Seq::empty(),
                                                    source_ase_ids: Seq::empty(),
                                                },
                                                e,
                                            ),
                                    ),
                            ),
                    ),
            ),
    )
}

/// The capabilities after one more endpoint was read.
pub open spec fn with_ase(caps: Published, c: Characteristic, value: Seq<u8>) -> Published {
    if value.len() == 0 {
        caps
    } else if c.uuid.short() == Some(pacs_uuid::SINK_ASE) {
        Published { sink_ase_ids: caps.sink_ase_ids.push(value[0]), ..caps }
    } else {
        Published { source_ase_ids: caps.source_ase_ids.push(value[0]), ..caps }
    }
}

/// The endpoints of both kinds, by the first byte of their values; one that
/// cannot be read is left out.
pub open spec fn ase_ids_stage(
    s: Seq<Said>,
    at: int,
    cs: Seq<Characteristic>,
    caps: Published,
) -> Stage<Published>
    decreases cs.len(),
{
    if cs.len() == 0 {
        Stage::Done(caps, at)
    } else if cs[0].uuid.short() != Some(pacs_uuid::SINK_ASE) && cs[0].uuid.short() != Some(
        pacs_uuid::SOURCE_ASE,
    ) {
        ase_ids_stage(s, at, cs.skip(1), caps)
    } else {
        match read_stage(s, at, cs[0].value_handle) {
            Stage::Ask(pdu) => Stage::Ask(pdu),
            Stage::Failed(_, n) => ase_ids_stage(s, n, cs.skip(1), caps),
            Stage::Done(value, n) => ase_ids_stage(
                s,
                n,
                cs.skip(1),
                with_ase(caps, cs[0], value),
            ),
        }
    }
}

/// What the ASCS service adds, where the device has it.
pub open spec fn ascs_stage(
    s: Seq<Said>,
    at: int,
    services: Seq<ServiceRange>,
    caps: Published,
) -> Stage<Published> {
    match first_service(services, pacs_uuid::SERVICE_ASCS) {
        None => Stage::Done(caps, at),
        Some(ascs) => chain(
            all_characteristics_stage(s, at, ascs),
            |cs: Seq<Characteristic>, n: int| ase_ids_stage(s, n, cs, caps),
        ),
    }
}

/// Full discovery plus a read of everything PACS and ASCS expose.
pub open spec fn capabilities_stage(s: Seq<Said>, at: int) -> Stage<Published> {
    chain(
        mtu_stage(s, at),
        |mtu: u16, a: int|
            chain(
                all_services_stage(s, a),
                |services: Seq<ServiceRange>, b: int|
                    match first_service(services, pacs_uuid::SERVICE_PACS) {
                        None => Stage::Failed(Fault::ServiceMissing(pacs_uuid::SERVICE_PACS), b),
                        Some(pacs) => chain(
                            all_characteristics_stage(s, b, pacs),
                            |cs: Seq<Characteristic>, c: int|
                                chain(
                                    pacs_stage(s, c, cs),
                                    |caps: Published, d: int| ascs_stage(s, d, services, caps),
                                ),
                        ),
                    },
            ),
    )
}

/// A value that a device may lack.
#[derive(Debug)]
pub struct OptionalValue {
    pub value: Option<Vec<u8>>,
}

impl View for OptionalValue {
    type V = Option<Seq<u8>>;

    open spec fn view(&self) -> Option<Seq<u8>> {
        match self.value {
            Some(v) => Some(v@),
            None => None,
        }
    }
}

impl OptionalValue {
    fn records(&self) -> (r: Vec<PacRecord>)
        ensures
            records(r@) == records_read(self@),
    {
        match &self.value {
            Some(v) => PacRecord::parse_characteristic(v.as_slice()),
            None => {
                let none: Vec<PacRecord> = Vec::new();
                assert(records(none@) =~= Seq::empty());
                none
            },
        }
    }

    fn locations(&self) -> (r: Option<u32>)
        ensures
            r == locations_read(self@),
    {
        match &self.value {
            Some(b) => if b.len() >= 4 {
                Some(quad(b[0], b[1], b[2], b[3]))
            } else {
                None
            },
            None => None,
        }
    }

    fn contexts(&self) -> (r: Option<u16>)
        ensures
            r == contexts_read(self@),
    {
        match &self.value {
            Some(b) => if b.len() >= 2 {
                Some(word(b[0], b[1]))
            } else {
                None
            },
            None => None,
        }
    }
}

impl Link {
    /// The characteristics of a service that the device must have.
    pub fn discover_service(uuid: u16, replies: &[Reply], at: usize) -> (r: Step<
        Vec<Characteristic>,
    >)
        ensures
            r@ == service_stage(said(replies@), at as int, uuid),
    {
        let (services, next): (Vec<ServiceRange>, usize) = match Self::discover_services(
            replies,
            at,
        ) {
            Step::Ask(pdu) => {
                return Step::Ask(pdu);
            },
            Step::Failed(e, n) => {
                return Step::Failed(e, n);
            },
            Step::Done(services, n) => (services, n),
        };
        match find_service(services.as_slice(), uuid) {
            None => Step::Failed(LinkError::ServiceMissing(uuid), next),
            Some(range) => Self::discover_characteristics(&range, replies, next),
        }
    }

    /// Finds each Sink ASE, without subscribing to anything.
    ///
    /// Reading is the quiet way to ask. Subscribing puts a notification on the
    /// air for every state change, and those arriving during setup are what
    /// stopped the second isochronous channel from coming up at all.
    pub fn sink_ase_handles(replies: &[Reply], at: usize) -> (r: Step<Vec<(u8, u16)>>)
        ensures
            r@ == ase_handles_stage(said(replies@), at as int, pacs_uuid::SINK_ASE),
    {
        Self::ase_handles(pacs_uuid::SINK_ASE, replies, at)
    }

    pub fn source_ase_handles(replies: &[Reply], at: usize) -> (r: Step<Vec<(u8, u16)>>)
        ensures
            r@ == ase_handles_stage(said(replies@), at as int, pacs_uuid::SOURCE_ASE),
    {
        Self::ase_handles(pacs_uuid::SOURCE_ASE, replies, at)
    }

    fn ase_handles(wanted: u16, replies: &[Reply], at: usize) -> (r: Step<Vec<(u8, u16)>>)
        ensures
            r@ == ase_handles_stage(said(replies@), at as int, wanted),
    {
        let (cs, mut next): (Vec<Characteristic>, usize) = match Self::discover_service(
            pacs_uuid::SERVICE_ASCS,
            replies,
            at,
        ) {
            Step::Ask(pdu) => {
                return Step::Ask(pdu);
            },
            Step::Failed(e, n) => {
                return Step::Failed(e, n);
            },
            Step::Done(cs, n) => (cs, n),
        };
        let ghost s = said(replies@);
        let ghost goal = endpoints_stage(s, next as int, cs@, wanted, Seq::empty());
        let mut found: Vec<(u8, u16)> = Vec::new();
        let mut i: usize = 0;
        assert(cs@.skip(0) =~= cs@);
        while i < cs.len()
            invariant
                i <= cs@.len(),
                s == said(replies@),
                goal == endpoints_stage(s, next as int, cs@.skip(i as int), wanted, found@),
                goal == ase_handles_stage(s, at as int, wanted),
            decreases cs@.len() - i,
        {
            let c: Characteristic = cs[i];
            assert(cs@.skip(i as int)[0] == c);
            assert(cs@.skip(i as int).skip(1) =~= cs@.skip(i + 1));
            if c.uuid.is_short(wanted) {
                match Self::read_characteristic(c.value_handle, replies, next) {
                    Step::Ask(pdu) => {
                        return Step::Ask(pdu);
                    },
                    Step::Failed(_, n) => {
                        next = n;
                    },
                    Step::Done(value, n) => {
                        if let Some(ase) = parse_state(value.as_slice()) {
                            found.push((ase.ase_id, c.value_handle));
                        }
                        next = n;
                    },
                }
            }
            i += 1;
        }
        Step::Done(found, next)
    }

    /// Approves a descriptor for subscription and turns notifications on.
    pub fn subscribe(&mut self, cccd_handle: u16, replies: &[Reply], at: usize) -> (r: Step<()>)
        ensures
            r@ == sent_stage(said(replies@), at as int, cccd_handle, seq![1, 0]),
            final(self)@ == (LinkState {
                approved: Approved {
                    subscriptions: old(self)@.approved.subscriptions.insert(cccd_handle),
                    ..old(self)@.approved
                },
                ..old(self)@
            }),
    {
        self.allow_subscription(cccd_handle);
        let value: Vec<u8> = vec![1, 0];
        assert(value@ =~= seq![1u8, 0u8]);
        self.write_characteristic(cccd_handle, value.as_slice(), replies, at)
    }

    /// Subscribes to every ASE the device exposes, plus the control point.
    ///
    /// Gives the value handle of each Sink ASE, so a later notification can be
    /// tied back to the ASE it belongs to.
    pub fn subscribe_to_ase_state(&mut self, replies: &[Reply], at: usize) -> (r: Step<
        Vec<(u8, u16)>,
    >)
        ensures
            r@ == ase_subscription_stage(said(replies@), at as int),
            final(self)@ == (LinkState {
                approved: Approved {
                    subscriptions: old(self)@.approved.subscriptions.union(
                        match service_stage(said(replies@), at as int, pacs_uuid::SERVICE_ASCS) {
                            Stage::Done(cs, n) => approved_on_the_way(said(replies@), n, cs),
                            _ => Set::empty(),
                        },
                    ),
                    ..old(self)@.approved
                },
                ..old(self)@
            }),
    {
        let ghost start = self@;
        let ghost had = self@.approved.subscriptions;
        let (cs, mut next): (Vec<Characteristic>, usize) = match Self::discover_service(
            pacs_uuid::SERVICE_ASCS,
            replies,
            at,
        ) {
            Step::Ask(pdu) => {
                assert(had.union(Set::empty()) =~= had);
                return Step::Ask(pdu);
            },
            Step::Failed(e, n) => {
                assert(had.union(Set::empty()) =~= had);
                return Step::Failed(e, n);
            },
            Step::Done(cs, n) => (cs, n),
        };
        let ghost s = said(replies@);
        let ghost goal = subscriptions_stage(s, next as int, cs@, Seq::empty());
        let ghost all = had.union(approved_on_the_way(s, next as int, cs@));
        let mut found: Vec<(u8, u16)> = Vec::new();
        let mut i: usize = 0;
        assert(cs@.skip(0) =~= cs@);
        while i < cs.len()
            invariant
                i <= cs@.len(),
                s == said(replies@),
                goal == subscriptions_stage(s, next as int, cs@.skip(i as int), found@),
                goal == ase_subscription_stage(s, at as int),
                self@ == (LinkState {
                    approved: Approved {
                        subscriptions: self@.approved.subscriptions,
                        ..start.approved
                    },
                    ..start
                }),
                all =~= self@.approved.subscriptions.union(
                    approved_on_the_way(s, next as int, cs@.skip(i as int)),
                ),
                start == old(self)@,
                all == start.approved.subscriptions.union(
                    match service_stage(said(replies@), at as int, pacs_uuid::SERVICE_ASCS) {
                        Stage::Done(cs, n) => approved_on_the_way(said(replies@), n, cs),
                        _ => Set::empty(),
                    },
                ),
            decreases cs@.len() - i,
        {
            let c: Characteristic = cs[i];
            assert(cs@.skip(i as int)[0] == c);
            assert(cs@.skip(i as int).skip(1) =~= cs@.skip(i + 1));
            let sink: bool = c.uuid.is_short(pacs_uuid::SINK_ASE);
            if sink || c.uuid.is_short(pacs_uuid::SOURCE_ASE) || c.uuid.is_short(
                pacs_uuid::ASE_CONTROL_POINT,
            ) {
                let descriptor: u16 = c.value_handle.wrapping_add(1);
                assert(descriptor == descriptor_of(c.value_handle));
                let ghost before = self@.approved.subscriptions;
                match self.subscribe(descriptor, replies, next) {
                    Step::Ask(pdu) => {
                        assert(self@.approved.subscriptions =~= all);
                        return Step::Ask(pdu);
                    },
                    Step::Failed(_, n) => {
                        next = n;
                    },
                    Step::Done(_, n) => {
                        next = n;
                    },
                }
                if sink {
                    match Self::read_characteristic(c.value_handle, replies, next) {
                        Step::Ask(pdu) => {
                            assert(self@.approved.subscriptions =~= all);
                            return Step::Ask(pdu);
                        },
                        Step::Failed(_, n) => {
                            next = n;
                        },
                        Step::Done(value, n) => {
                            if let Some(ase) = parse_state(value.as_slice()) {
                                found.push((ase.ase_id, c.value_handle));
                            }
                            next = n;
                        },
                    }
                }
            }
            i += 1;
        }
        assert(self@.approved.subscriptions =~= all);
        Step::Done(found, next)
    }

    /// Finds the Volume Control Service, if the device has one.
    ///
    /// Absence is no error: plenty of LE Audio devices carry no VCS, and that is
    /// a device without remote volume, not a broken connection.
    pub fn discover_volume_control(replies: &[Reply], at: usize) -> (r: Step<
        Option<VolumeControlHandles>,
    >)
        ensures
            r@ == volume_control_stage(said(replies@), at as int),
    {
        let (services, next): (Vec<ServiceRange>, usize) = match Self::discover_services(
            replies,
            at,
        ) {
            Step::Ask(pdu) => {
                return Step::Ask(pdu);
            },
            Step::Failed(e, n) => {
                return Step::Failed(e, n);
            },
            Step::Done(services, n) => (services, n),
        };
        let range: ServiceRange = match find_service(
            services.as_slice(),
            crate::vcs::VOLUME_CONTROL_SERVICE,
        ) {
            None => {
                return Step::Done(None, next);
            },
            Some(range) => range,
        };
        let (cs, last): (Vec<Characteristic>, usize) = match Self::discover_characteristics(
            &range,
            replies,
            next,
        ) {
            Step::Ask(pdu) => {
                return Step::Ask(pdu);
            },
            Step::Failed(e, n) => {
                return Step::Failed(e, n);
            },
            Step::Done(cs, n) => (cs, n),
        };
        match (
            find_characteristic(cs.as_slice(), crate::vcs::VOLUME_STATE),
            find_characteristic(cs.as_slice(), crate::vcs::VOLUME_CONTROL_POINT),
        ) {
            (Some(state), Some(control_point)) => {
                let descriptor: u16 = state.value_handle.wrapping_add(1);
                assert(descriptor == descriptor_of(state.value_handle));
                Step::Done(
                    Some(
                        VolumeControlHandles {
                            state: state.value_handle,
                            state_cccd: descriptor,
                            control_point: control_point.value_handle,
                        },
                    ),
                    last,
                )
            },
            _ => Step::Done(None, last),
        }
    }

    /// Reads the volume the headphones currently hold.
    pub fn read_volume_state(handle: u16, replies: &[Reply], at: usize) -> (r: Step<
        Option<VolumeState>,
    >)
        ensures
            r@ == volume_state_stage(said(replies@), at as int, handle),
    {
        match Self::read_characteristic(handle, replies, at) {
            Step::Ask(pdu) => Step::Ask(pdu),
            Step::Failed(e, n) => Step::Failed(e, n),
            Step::Done(value, n) => Step::Done(parse_volume_state(value.as_slice()), n),
        }
    }

    /// Reads a characteristic that the device may lack.
    fn read_optional(c: Option<Characteristic>, replies: &[Reply], at: usize) -> (r: Step<
        OptionalValue,
    >)
        ensures
            r@ == optional_stage(said(replies@), at as int, c),
    {
        match c {
            None => Step::Done(OptionalValue { value: None }, at),
            Some(c) => match Self::read_characteristic(c.value_handle, replies, at) {
                Step::Ask(pdu) => Step::Ask(pdu),
                Step::Failed(e, n) => Step::Failed(e, n),
                Step::Done(value, n) => Step::Done(OptionalValue { value: Some(value) }, n),
            },
        }
    }

    /// Reads what PACS publishes.
    fn read_pacs(service: &DiscoveredService, replies: &[Reply], at: usize) -> (r: Step<
        AudioCapabilities,
    >)
        ensures
            r@ == pacs_stage(said(replies@), at as int, service.characteristics@),
    {
        let mut next: usize = at;
        let sink: OptionalValue = match Self::read_optional(
            service.characteristic(pacs_uuid::SINK_PAC),
            replies,
            next,
        ) {
            Step::Ask(pdu) => {
                return Step::Ask(pdu);
            },
            Step::Failed(e, n) => {
                return Step::Failed(e, n);
            },
            Step::Done(value, n) => {
                next = n;
                value
            },
        };
        let source: OptionalValue = match Self::read_optional(
            service.characteristic(pacs_uuid::SOURCE_PAC),
            replies,
            next,
        ) {
            Step::Ask(pdu) => {
                return Step::Ask(pdu);
            },
            Step::Failed(e, n) => {
                return Step::Failed(e, n);
            },
            Step::Done(value, n) => {
                next = n;
                value
            },
        };
        let locations: OptionalValue = match Self::read_optional(
            service.characteristic(pacs_uuid::SINK_AUDIO_LOCATIONS),
            replies,
            next,
        ) {
            Step::Ask(pdu) => {
                return Step::Ask(pdu);
            },
            Step::Failed(e, n) => {
                return Step::Failed(e, n);
            },
            Step::Done(value, n) => {
                next = n;
                value
            },
        };
        let available: OptionalValue = match Self::read_optional(
            service.characteristic(pacs_uuid::AVAILABLE_CONTEXTS),
            replies,
            next,
        ) {
            Step::Ask(pdu) => {
                return Step::Ask(pdu);
            },
            Step::Failed(e, n) => {
                return Step::Failed(e, n);
            },
            Step::Done(value, n) => {
                next = n;
                value
            },
        };
        let supported: OptionalValue = match Self::read_optional(
            service.characteristic(pacs_uuid::SUPPORTED_CONTEXTS),
            replies,
            next,
        ) {
            Step::Ask(pdu) => {
                return Step::Ask(pdu);
            },
            Step::Failed(e, n) => {
                return Step::Failed(e, n);
            },
            Step::Done(value, n) => {
                next = n;
                value
            },
        };
        let capabilities = AudioCapabilities {
            sink_records: sink.records(),
            source_records: source.records(),
            sink_locations: locations.locations(),
            available_contexts: available.contexts(),
            supported_contexts: supported.contexts(),
            sink_ase_ids: Vec::new(),
            source_ase_ids: Vec::new(),
        };
        assert(capabilities.sink_ase_ids@ =~= Seq::empty());
        assert(capabilities.source_ase_ids@ =~= Seq::empty());
        Step::Done(capabilities, next)
    }

    /// Full discovery plus a read of everything PACS and ASCS expose.
    ///
    /// This is the call that finally answers what the headphones can actually do,
    /// which the Windows GATT client refuses to tell us.
    pub fn read_audio_capabilities(replies: &[Reply], at: usize) -> (r: Step<AudioCapabilities>)
        ensures
            r@ == capabilities_stage(said(replies@), at as int),
    {
        let ghost s = said(replies@);
        let mut next: usize = match Self::exchange_mtu(replies, at) {
            Step::Ask(pdu) => {
                return Step::Ask(pdu);
            },
            Step::Failed(e, n) => {
                return Step::Failed(e, n);
            },
            Step::Done(_, n) => n,
        };
        let services: Vec<ServiceRange> = match Self::discover_services(replies, next) {
            Step::Ask(pdu) => {
                return Step::Ask(pdu);
            },
            Step::Failed(e, n) => {
                return Step::Failed(e, n);
            },
            Step::Done(services, n) => {
                next = n;
                services
            },
        };
        let pacs: ServiceRange = match find_service(
            services.as_slice(),
            pacs_uuid::SERVICE_PACS,
        ) {
            None => {
                return Step::Failed(LinkError::ServiceMissing(pacs_uuid::SERVICE_PACS), next);
            },
            Some(pacs) => pacs,
        };
        let characteristics: Vec<Characteristic> = match Self::discover_characteristics(
            &pacs,
            replies,
            next,
        ) {
            Step::Ask(pdu) => {
                return Step::Ask(pdu);
            },
            Step::Failed(e, n) => {
                return Step::Failed(e, n);
            },
            Step::Done(characteristics, n) => {
                next = n;
                characteristics
            },
        };
        let service = DiscoveredService { range: pacs, characteristics };
        let mut capabilities: AudioCapabilities = match Self::read_pacs(&service, replies, next) {
            Step::Ask(pdu) => {
                return Step::Ask(pdu);
            },
            Step::Failed(e, n) => {
                return Step::Failed(e, n);
            },
            Step::Done(capabilities, n) => {
                next = n;
                capabilities
            },
        };
        assert(capabilities_stage(s, at as int) == ascs_stage(
            s,
            next as int,
            services@,
            capabilities@,
        ));
        // ASCS tells how many streams can run at once, and their ids.
        let ascs: ServiceRange = match find_service(
            services.as_slice(),
            pacs_uuid::SERVICE_ASCS,
        ) {
            None => {
                return Step::Done(capabilities, next);
            },
            Some(ascs) => ascs,
        };
        let cs: Vec<Characteristic> = match Self::discover_characteristics(&ascs, replies, next) {
            Step::Ask(pdu) => {
                return Step::Ask(pdu);
            },
            Step::Failed(e, n) => {
                return Step::Failed(e, n);
            },
            Step::Done(cs, n) => {
                next = n;
                cs
            },
        };
        let ghost goal = ase_ids_stage(s, next as int, cs@, capabilities@);
        let mut i: usize = 0;
        assert(cs@.skip(0) =~= cs@);
        while i < cs.len()
            invariant
                i <= cs@.len(),
                s == said(replies@),
                goal == ase_ids_stage(s, next as int, cs@.skip(i as int), capabilities@),
                goal == capabilities_stage(s, at as int),
            decreases cs@.len() - i,
        {
            let c: Characteristic = cs[i];
            assert(cs@.skip(i as int)[0] == c);
            assert(cs@.skip(i as int).skip(1) =~= cs@.skip(i + 1));
            let sink: bool = c.uuid.is_short(pacs_uuid::SINK_ASE);
            if sink || c.uuid.is_short(pacs_uuid::SOURCE_ASE) {
                match Self::read_characteristic(c.value_handle, replies, next) {
                    Step::Ask(pdu) => {
                        return Step::Ask(pdu);
                    },
                    Step::Failed(_, n) => {
                        next = n;
                    },
                    Step::Done(value, n) => {
                        // First byte of an ASE value is its id.
                        if value.len() > 0 {
                            if sink {
                                capabilities.sink_ase_ids.push(value[0]);
                            } else {
                                capabilities.source_ase_ids.push(value[0]);
                            }
                        }
                        next = n;
                    },
                }
            }
            i += 1;
        }
        Step::Done(capabilities, next)
    }
}

/// The endpoints of one kind that the device has.
pub open spec fn ase_handles_stage(s: Seq<Said>, at: int, wanted: u16) -> Stage<Seq<(u8, u16)>> {
    chain(
        service_stage(s, at, pacs_uuid::SERVICE_ASCS),
        |cs: Seq<Characteristic>, n: int| endpoints_stage(s, n, cs, wanted, Seq::empty()),
    )
}

/// The subscription to everything that endpoints notify.
pub open spec fn ase_subscription_stage(s: Seq<Said>, at: int) -> Stage<Seq<(u8, u16)>> {
    chain(
        service_stage(s, at, pacs_uuid::SERVICE_ASCS),
        |cs: Seq<Characteristic>, n: int| subscriptions_stage(s, n, cs, Seq::empty()),
    )
}

// ---------------------------------------------------------------------------
// What holds of procedures
// ---------------------------------------------------------------------------

/// Whether an answer carries a chunk of a value.
pub open spec fn is_chunk(a: Said) -> bool {
    a.answer is Ok && value_in(a.answer->Ok_0) is Ok
}

/// The chunk of a value that an answer carries.
pub open spec fn chunk_in(a: Said) -> Seq<u8> {
    value_in(a.answer->Ok_0)->Ok_0
}

/// Whether a chunk fills the MTU, so that more may lie behind it.
pub open spec fn fills(a: Said) -> bool {
    is_chunk(a) && chunk_in(a).len() + 1 == a.mtu
}

/// Whether an answer says that there is nothing at an offset.
pub open spec fn is_past_the_end(a: Said) -> bool {
    match a.answer {
        Err(e) => e.says(INVALID_OFFSET),
        Ok(p) => value_in(p) matches Err(e) && e.says(INVALID_OFFSET),
    }
}

/// Chunks put together, in their order.
pub open spec fn put_together(s: Seq<Said>, at: int, count: nat) -> Seq<u8>
    decreases count,
{
    if count == 0 {
        Seq::empty()
    } else {
        put_together(s, at, (count - 1) as nat) + chunk_in(s[at + count - 1])
    }
}

proof fn lemma_full_chunks(s: Seq<Said>, at: int, handle: u16, count: nat)
    requires
        0 <= at,
        1 <= count,
        at + count <= s.len(),
        forall|i: int| at <= i < at + count ==> is_chunk(#[trigger] s[i]),
        forall|i: int| at <= i < at + count - 1 ==> fills(#[trigger] s[i]),
        forall|i: int| at < i < at + count ==> chunk_in(#[trigger] s[i]).len() > 0,
    ensures
        read_stage(s, at, handle) == blob_stage(
            s,
            at + count,
            handle,
            s[at + count - 1].mtu,
            chunk_in(s[at + count - 1]).len(),
            put_together(s, at, count),
        ),
    decreases count,
{
    assert(is_chunk(s[at + count - 1]));
    if count == 1 {
        assert(put_together(s, at, 0) =~= Seq::empty());
        assert(put_together(s, at, 1) =~= chunk_in(s[at]));
    } else {
        lemma_full_chunks(s, at, handle, (count - 1) as nat);
        assert(fills(s[at + count - 2]));
    }
}

/// A long value is read to its end, whatever number of requests it takes: the result
/// is every chunk up to the first that does not fill the MTU, put together.
pub proof fn lemma_long_value_is_read_whole(s: Seq<Said>, at: int, handle: u16, count: nat)
    requires
        0 <= at,
        1 <= count,
        at + count <= s.len(),
        forall|i: int| at <= i < at + count ==> (#[trigger] s[i]).mtu >= ATT_DEFAULT_MTU,
        forall|i: int| at <= i < at + count ==> is_chunk(#[trigger] s[i]),
        forall|i: int| at <= i < at + count - 1 ==> fills(#[trigger] s[i]),
        !fills(s[at + count - 1]),
    ensures
        read_stage(s, at, handle) == Stage::Done(put_together(s, at, count), at + count),
{
    assert forall|i: int| at < i < at + count - 1 implies chunk_in(#[trigger] s[i]).len() > 0 by {
        assert(fills(s[i]) && s[i].mtu >= ATT_DEFAULT_MTU);
    }
    let last = s[at + count - 1];
    assert(is_chunk(last));
    if count > 1 && chunk_in(last).len() == 0 {
        lemma_full_chunks(s, at, handle, (count - 1) as nat);
        assert(fills(s[at + count - 2]));
        assert(put_together(s, at, count) =~= put_together(s, at, (count - 1) as nat));
    } else {
        lemma_full_chunks(s, at, handle, count);
    }
}

/// A server that has nothing behind the last full chunk says so, and that is the end
/// of the value and no failure.
pub proof fn lemma_end_of_value_is_no_failure(s: Seq<Said>, at: int, handle: u16, count: nat)
    requires
        0 <= at,
        1 <= count,
        at + count < s.len(),
        forall|i: int| at <= i < at + count ==> (#[trigger] s[i]).mtu >= ATT_DEFAULT_MTU,
        forall|i: int| at <= i < at + count ==> fills(#[trigger] s[i]),
        is_past_the_end(s[at + count as int]),
    ensures
        read_stage(s, at, handle) == Stage::Done(put_together(s, at, count), at + count + 1),
{
    assert forall|i: int| at <= i < at + count implies is_chunk(#[trigger] s[i]) && chunk_in(
        s[i],
    ).len() > 0 by {
        assert(fills(s[i]) && s[i].mtu >= ATT_DEFAULT_MTU);
    }
    lemma_full_chunks(s, at, handle, count);
    assert(fills(s[at + count - 1]));
}

/// A write to a handle that discovery did not approve never leaves: nothing is
/// asked of the peer, and the violation is the answer.
pub proof fn lemma_refused_write_is_not_sent(
    approved: Approved,
    s: Seq<Said>,
    at: int,
    handle: u16,
    value: Seq<u8>,
)
    ensures
        !approved.permits(handle) ==> write_stage(approved, s, at, handle, value)
            == Stage::<()>::Failed(Fault::Unsafe(SafetyViolation { handle }), at),
        write_stage(approved, s, at, handle, value) is Ask ==> approved.permits(handle),
{
}

/// Whether a procedure still needs an answer.
pub open spec fn is_open<V>(stage: Stage<V>) -> bool {
    stage is Ask
}

proof fn lemma_services_stay(
    s: Seq<Said>,
    more: Seq<Said>,
    at: int,
    start: u16,
    found: Seq<ServiceRange>,
)
    requires
        0 <= at,
    ensures
        !is_open(services_stage(s, at, start, found)) ==> services_stage(
            s + more,
            at,
            start,
            found,
        ) == services_stage(s, at, start, found),
        services_stage(s, at, start, found) matches Stage::Done(_, n) ==> n >= 0,
    decreases s.len() - at,
{
    if at < s.len() {
        assert((s + more)[at] == s[at]);
        if s[at].answer is Ok {
            let p = s[at].answer->Ok_0;
            let batch = services_in(p);
            if services_fault(p) is None && batch.len() > 0 && batch.last().end_handle != 0xFFFF {
                lemma_services_stay(
                    s,
                    more,
                    at + 1,
                    (batch.last().end_handle + 1) as u16,
                    found + batch,
                );
            }
        }
    }
}

proof fn lemma_characteristics_stay(
    s: Seq<Said>,
    more: Seq<Said>,
    at: int,
    start: u16,
    end: u16,
    found: Seq<Characteristic>,
)
    requires
        0 <= at,
    ensures
        !is_open(characteristics_stage(s, at, start, end, found)) ==> characteristics_stage(
            s + more,
            at,
            start,
            end,
            found,
        ) == characteristics_stage(s, at, start, end, found),
        characteristics_stage(s, at, start, end, found) matches Stage::Done(_, n) ==> n >= 0,
    decreases s.len() - at,
{
    if start <= end && at < s.len() {
        assert((s + more)[at] == s[at]);
        if s[at].answer is Ok {
            let p = s[at].answer->Ok_0;
            let batch = characteristics_in(p);
            if characteristics_fault(p) is None && batch.len() > 0
                && batch.last().declaration_handle < end {
                lemma_characteristics_stay(
                    s,
                    more,
                    at + 1,
                    (batch.last().declaration_handle + 1) as u16,
                    end,
                    found + batch,
                );
            }
        }
    }
}

proof fn lemma_blob_stays(
    s: Seq<Said>,
    more: Seq<Said>,
    at: int,
    handle: u16,
    mtu: u16,
    last: nat,
    value: Seq<u8>,
)
    requires
        0 <= at,
    ensures
        !is_open(blob_stage(s, at, handle, mtu, last, value)) ==> blob_stage(
            s + more,
            at,
            handle,
            mtu,
            last,
            value,
        ) == blob_stage(s, at, handle, mtu, last, value),
        blob_stage(s, at, handle, mtu, last, value) matches Stage::Done(_, n) ==> n >= 0,
        blob_stage(s, at, handle, mtu, last, value) matches Stage::Failed(_, n) ==> n >= 0,
    decreases s.len() - at,
{
    if last + 1 == mtu && at < s.len() {
        assert((s + more)[at] == s[at]);
        if s[at].answer is Ok && value_in(s[at].answer->Ok_0) is Ok {
            let chunk = value_in(s[at].answer->Ok_0)->Ok_0;
            if chunk.len() > 0 {
                lemma_blob_stays(s, more, at + 1, handle, s[at].mtu, chunk.len(), value + chunk);
            }
        }
    }
}

proof fn lemma_read_stays(s: Seq<Said>, more: Seq<Said>, at: int, handle: u16)
    requires
        0 <= at,
    ensures
        !is_open(read_stage(s, at, handle)) ==> read_stage(s + more, at, handle) == read_stage(
            s,
            at,
            handle,
        ),
        read_stage(s, at, handle) matches Stage::Done(_, n) ==> n >= 0,
        read_stage(s, at, handle) matches Stage::Failed(_, n) ==> n >= 0,
{
    if at < s.len() {
        assert((s + more)[at] == s[at]);
        if s[at].answer is Ok && value_in(s[at].answer->Ok_0) is Ok {
            lemma_blob_stays(
                s,
                more,
                at + 1,
                handle,
                s[at].mtu,
                value_in(s[at].answer->Ok_0)->Ok_0.len(),
                value_in(s[at].answer->Ok_0)->Ok_0,
            );
        }
    }
}

proof fn lemma_optional_stays(s: Seq<Said>, more: Seq<Said>, at: int, c: Option<Characteristic>)
    requires
        0 <= at,
    ensures
        !is_open(optional_stage(s, at, c)) ==> optional_stage(s + more, at, c) == optional_stage(
            s,
            at,
            c,
        ),
        optional_stage(s, at, c) matches Stage::Done(_, n) ==> n >= 0,
{
    if let Some(c) = c {
        lemma_read_stays(s, more, at, c.value_handle);
    }
}

proof fn lemma_pacs_stays(s: Seq<Said>, more: Seq<Said>, at: int, cs: Seq<Characteristic>)
    requires
        0 <= at,
    ensures
        !is_open(pacs_stage(s, at, cs)) ==> pacs_stage(s + more, at, cs) == pacs_stage(s, at, cs),
        pacs_stage(s, at, cs) matches Stage::Done(_, n) ==> n >= 0,
{
    let c1 = first_characteristic(cs, pacs_uuid::SINK_PAC);
    let c2 = first_characteristic(cs, pacs_uuid::SOURCE_PAC);
    let c3 = first_characteristic(cs, pacs_uuid::SINK_AUDIO_LOCATIONS);
    let c4 = first_characteristic(cs, pacs_uuid::AVAILABLE_CONTEXTS);
    let c5 = first_characteristic(cs, pacs_uuid::SUPPORTED_CONTEXTS);
    lemma_optional_stays(s, more, at, c1);
    if let Stage::Done(_, a) = optional_stage(s, at, c1) {
        lemma_optional_stays(s, more, a, c2);
        if let Stage::Done(_, b) = optional_stage(s, a, c2) {
            lemma_optional_stays(s, more, b, c3);
            if let Stage::Done(_, c) = optional_stage(s, b, c3) {
                lemma_optional_stays(s, more, c, c4);
                if let Stage::Done(_, d) = optional_stage(s, c, c4) {
                    lemma_optional_stays(s, more, d, c5);
                }
            }
        }
    }
}

proof fn lemma_ase_ids_stay(
    s: Seq<Said>,
    more: Seq<Said>,
    at: int,
    cs: Seq<Characteristic>,
    caps: Published,
)
    requires
        0 <= at,
    ensures
        !is_open(ase_ids_stage(s, at, cs, caps)) ==> ase_ids_stage(s + more, at, cs, caps)
            == ase_ids_stage(s, at, cs, caps),
    decreases cs.len(),
{
    if cs.len() > 0 {
        if cs[0].uuid.short() != Some(pacs_uuid::SINK_ASE) && cs[0].uuid.short() != Some(
            pacs_uuid::SOURCE_ASE,
        ) {
            lemma_ase_ids_stay(s, more, at, cs.skip(1), caps);
        } else {
            lemma_read_stays(s, more, at, cs[0].value_handle);
            match read_stage(s, at, cs[0].value_handle) {
                Stage::Ask(_) => {},
                Stage::Failed(_, n) => lemma_ase_ids_stay(s, more, n, cs.skip(1), caps),
                Stage::Done(value, n) => lemma_ase_ids_stay(
                    s,
                    more,
                    n,
                    cs.skip(1),
                    with_ase(caps, cs[0], value),
                ),
            }
        }
    }
}

/// A discovery that has finished or failed stays so, whatever the peer says
/// afterwards: answers that came later are never read into it.
pub proof fn lemma_capabilities_stay(s: Seq<Said>, more: Seq<Said>)
    ensures
        !is_open(capabilities_stage(s, 0)) ==> capabilities_stage(s + more, 0)
            == capabilities_stage(s, 0),
{
    if s.len() > 0 {
        assert((s + more)[0] == s[0]);
    }
    if let Stage::Done(_, a) = mtu_stage(s, 0) {
        lemma_services_stay(s, more, a, 1, Seq::empty());
        if let Stage::Done(services, b) = all_services_stage(s, a) {
            if let Some(pacs) = first_service(services, pacs_uuid::SERVICE_PACS) {
                lemma_characteristics_stay(
                    s,
                    more,
                    b,
                    pacs.start_handle,
                    pacs.end_handle,
                    Seq::empty(),
                );
                if let Stage::Done(cs, c) = all_characteristics_stage(s, b, pacs) {
                    lemma_pacs_stays(s, more, c, cs);
                    if let Stage::Done(caps, d) = pacs_stage(s, c, cs) {
                        if let Some(ascs) = first_service(services, pacs_uuid::SERVICE_ASCS) {
                            lemma_characteristics_stay(
                                s,
                                more,
                                d,
                                ascs.start_handle,
                                ascs.end_handle,
                                Seq::empty(),
                            );
                            if let Stage::Done(acs, e) = all_characteristics_stage(s, d, ascs) {
                                lemma_ase_ids_stay(s, more, e, acs, caps);
                            }
                        }
                    }
                }
            }
        }
    }
}

// ---------------------------------------------------------------------------
// What the air carries
// ---------------------------------------------------------------------------

/// Whether two bytes hold a number, low byte first.
pub open spec fn holds(p: Seq<u8>, at: int, n: u16) -> bool {
    0 <= at && at + 1 < p.len() && p[at] as int + 256 * (p[at + 1] as int) == n
}

/// A Read Request for a handle, byte by byte.
pub open spec fn reads(p: Seq<u8>, handle: u16) -> bool {
    p.len() == 3 && p[0] == 0x0A && holds(p, 1, handle)
}

/// A Read Blob Request for a handle from an offset on, byte by byte.
pub open spec fn reads_on(p: Seq<u8>, handle: u16, offset: int) -> bool {
    &&& p.len() == 5
    &&& p[0] == 0x0C
    &&& holds(p, 1, handle)
    &&& 0 <= offset <= 0xFFFF ==> holds(p, 3, offset as u16)
}

/// A Write Request of a value to a handle, byte by byte.
pub open spec fn writes(p: Seq<u8>, handle: u16, value: Seq<u8>) -> bool {
    p.len() == 3 + value.len() && p[0] == 0x12 && holds(p, 1, handle) && p.skip(3) == value
}

/// Requests say what they are for: each names its handles, and asks for services by
/// 0x2800 and for characteristics by 0x2803.
pub proof fn lemma_requests_name_what_they_ask_for(
    handle: u16,
    offset: u16,
    start: u16,
    end: u16,
    value: Seq<u8>,
)
    ensures
        read_stage(Seq::empty(), 0, handle) matches Stage::Ask(p) && reads(p, handle),
        sent_stage(Seq::empty(), 0, handle, value) matches Stage::Ask(p) && writes(
            p,
            handle,
            value,
        ),
        reads_on(blob_pdu(handle, offset), handle, offset as int),
        mtu_stage(Seq::empty(), 0) matches Stage::Ask(p) && p.len() == 3 && p[0] == 0x02 && holds(
            p,
            1,
            517,
        ),
        services_stage(Seq::empty(), 0, start, Seq::empty()) matches Stage::Ask(p) && p.len() == 7
            && p[0] == 0x10 && holds(p, 1, start) && holds(p, 3, 0xFFFF) && holds(p, 5, 0x2800),
        start <= end ==> (characteristics_stage(Seq::empty(), 0, start, end, Seq::empty())
            matches Stage::Ask(p) && p.len() == 7 && p[0] == 0x08 && holds(p, 1, start) && holds(
            p,
            3,
            end,
        ) && holds(p, 5, 0x2803)),
{
    assert(write_pdu(handle, value).skip(3) =~= value);
}

/// An answer is what it says: a refusal carries its code, and a value is everything
/// behind the opcode of a read.
pub proof fn lemma_answers_are_taken_at_their_word(p: Seq<u8>)
    ensures
        value_in(p) is Ok <==> p.len() >= 1 && (p[0] == 0x0B || p[0] == 0x0D),
        value_in(p) is Ok ==> value_in(p)->Ok_0 == p.skip(1),
        p.len() >= 5 && p[0] == 0x01 ==> refusal(p) is Some && forall|code: u8|
            (refusal(p)->0).says(code) <==> p[4] == code,
        p.len() >= 1 && p[0] != 0x01 ==> refusal(p) is None,
{
}

/// A write succeeds exactly where the peer answered it and did not refuse.
pub proof fn lemma_write_needs_an_answer(s: Seq<Said>, at: int, handle: u16, value: Seq<u8>)
    requires
        0 <= at < s.len(),
    ensures
        sent_stage(s, at, handle, value) is Done <==> s[at].answer is Ok && (
        s[at].answer->Ok_0.len() == 0 || (s[at].answer->Ok_0)[0] != 0x01),
        sent_stage(s, at, handle, value) is Done ==> sent_stage(s, at, handle, value)
            == Stage::Done((), at + 1),
        !(sent_stage(s, at, handle, value) is Ask),
{
}

// ---------------------------------------------------------------------------
// What has happened stays
// ---------------------------------------------------------------------------

proof fn lemma_mtu_prefix(s: Seq<Said>, at: int, j: int)
    requires
        0 <= at,
        mtu_stage(s, at) is Done,
        mtu_stage(s, at)->Done_1 <= j <= s.len(),
    ensures
        mtu_stage(s.take(j), at) == mtu_stage(s, at),
        mtu_stage(s, at)->Done_1 == at + 1,
        at + 1 <= s.len(),
{
    assert(s.take(j)[at] == s[at]);
}

proof fn lemma_services_prefix(
    s: Seq<Said>,
    at: int,
    start: u16,
    found: Seq<ServiceRange>,
    j: int,
)
    requires
        0 <= at,
        services_stage(s, at, start, found) is Done,
        services_stage(s, at, start, found)->Done_1 <= j <= s.len(),
    ensures
        services_stage(s.take(j), at, start, found) == services_stage(s, at, start, found),
        at <= services_stage(s, at, start, found)->Done_1 <= s.len(),
    decreases s.len() - at,
{
    if at < s.len() {
        if s[at].answer is Ok {
            let p = s[at].answer->Ok_0;
            let batch = services_in(p);
            if services_fault(p) is None && batch.len() > 0 && batch.last().end_handle != 0xFFFF {
                lemma_services_prefix(
                    s,
                    at + 1,
                    (batch.last().end_handle + 1) as u16,
                    found + batch,
                    j,
                );
            }
        }
        assert(at < j ==> s.take(j)[at] == s[at]);
    }
}

proof fn lemma_characteristics_prefix(
    s: Seq<Said>,
    at: int,
    start: u16,
    end: u16,
    found: Seq<Characteristic>,
    j: int,
)
    requires
        0 <= at,
        characteristics_stage(s, at, start, end, found) is Done,
        characteristics_stage(s, at, start, end, found)->Done_1 <= j <= s.len(),
    ensures
        characteristics_stage(s.take(j), at, start, end, found) == characteristics_stage(
            s,
            at,
            start,
            end,
            found,
        ),
        at <= characteristics_stage(s, at, start, end, found)->Done_1,
    decreases s.len() - at,
{
    if start <= end && at < s.len() {
        if s[at].answer is Ok {
            let p = s[at].answer->Ok_0;
            let batch = characteristics_in(p);
            if characteristics_fault(p) is None && batch.len() > 0
                && batch.last().declaration_handle < end {
                lemma_characteristics_prefix(
                    s,
                    at + 1,
                    (batch.last().declaration_handle + 1) as u16,
                    end,
                    found + batch,
                    j,
                );
            }
        }
        assert(at < j ==> s.take(j)[at] == s[at]);
    }
}

proof fn lemma_blob_prefix(
    s: Seq<Said>,
    at: int,
    handle: u16,
    mtu: u16,
    last: nat,
    value: Seq<u8>,
    j: int,
)
    requires
        0 <= at,
        !(blob_stage(s, at, handle, mtu, last, value) is Ask),
        j <= s.len(),
        blob_stage(s, at, handle, mtu, last, value) matches Stage::Done(_, n) ==> n <= j,
        blob_stage(s, at, handle, mtu, last, value) matches Stage::Failed(_, n) ==> n <= j,
    ensures
        blob_stage(s.take(j), at, handle, mtu, last, value) == blob_stage(
            s,
            at,
            handle,
            mtu,
            last,
            value,
        ),
        blob_stage(s, at, handle, mtu, last, value) matches Stage::Done(_, n) ==> at <= n,
        blob_stage(s, at, handle, mtu, last, value) matches Stage::Failed(_, n) ==> at <= n,
    decreases s.len() - at,
{
    if last + 1 == mtu && at < s.len() {
        if s[at].answer is Ok && value_in(s[at].answer->Ok_0) is Ok {
            let chunk = value_in(s[at].answer->Ok_0)->Ok_0;
            if chunk.len() > 0 {
                lemma_blob_prefix(s, at + 1, handle, s[at].mtu, chunk.len(), value + chunk, j);
            }
        }
        assert(at < j ==> s.take(j)[at] == s[at]);
    }
}

proof fn lemma_read_prefix(s: Seq<Said>, at: int, handle: u16, j: int)
    requires
        0 <= at,
        !(read_stage(s, at, handle) is Ask),
        j <= s.len(),
        read_stage(s, at, handle) matches Stage::Done(_, n) ==> n <= j,
        read_stage(s, at, handle) matches Stage::Failed(_, n) ==> n <= j,
    ensures
        read_stage(s.take(j), at, handle) == read_stage(s, at, handle),
        read_stage(s, at, handle) matches Stage::Done(_, n) ==> at < n,
        read_stage(s, at, handle) matches Stage::Failed(_, n) ==> at < n,
        at < s.len(),
{
    if s[at].answer is Ok && value_in(s[at].answer->Ok_0) is Ok {
        let value = value_in(s[at].answer->Ok_0)->Ok_0;
        lemma_blob_prefix(s, at + 1, handle, s[at].mtu, value.len(), value, j);
    }
    assert(at < j ==> s.take(j)[at] == s[at]);
}

proof fn lemma_optional_prefix(s: Seq<Said>, at: int, c: Option<Characteristic>, j: int)
    requires
        0 <= at,
        optional_stage(s, at, c) is Done,
        optional_stage(s, at, c)->Done_1 <= j <= s.len(),
    ensures
        optional_stage(s.take(j), at, c) == optional_stage(s, at, c),
        at <= optional_stage(s, at, c)->Done_1,
{
    if let Some(c) = c {
        lemma_read_prefix(s, at, c.value_handle, j);
    }
}

// ---------------------------------------------------------------------------
// What a device publishes
// ---------------------------------------------------------------------------

/// Whether a value came out of a discovery by reading one characteristic: the first of
/// its number, asked for by its handle when it was its turn.
pub open spec fn is_read_from(
    s: Seq<Said>,
    at: int,
    cs: Seq<Characteristic>,
    end: int,
    uuid: u16,
    value: Seq<u8>,
    i: int,
    turn: int,
) -> bool {
    &&& 0 <= i < cs.len()
    &&& cs[i].uuid == Uuid::Short(uuid)
    &&& forall|k: int| 0 <= k < i ==> (#[trigger] cs[k]).uuid != Uuid::Short(uuid)
    &&& at <= turn < s.len()
    &&& turn < end
    &&& pacs_stage(s.take(turn), at, cs) matches Stage::Ask(p) && reads(p, cs[i].value_handle)
    &&& read_stage(s, turn, cs[i].value_handle) matches Stage::Done(v, n) && v == value && n <= end
}

/// Whether the value of a number is what its characteristic holds; none where the
/// service has no such characteristic.
pub open spec fn comes_from(
    s: Seq<Said>,
    at: int,
    cs: Seq<Characteristic>,
    end: int,
    uuid: u16,
    value: Option<Seq<u8>>,
) -> bool {
    match value {
        None => forall|k: int| 0 <= k < cs.len() ==> (#[trigger] cs[k]).uuid != Uuid::Short(uuid),
        Some(v) => exists|i: int, turn: int| #[trigger]
            is_read_from(s, at, cs, end, uuid, v, i, turn),
    }
}

/// The first characteristic of a number is the first.
pub proof fn lemma_first_characteristic(cs: Seq<Characteristic>, uuid: u16) -> (i: int)
    ensures
        first_characteristic(cs, uuid) is None <==> forall|k: int|
            0 <= k < cs.len() ==> (#[trigger] cs[k]).uuid != Uuid::Short(uuid),
        first_characteristic(cs, uuid) is Some ==> {
            &&& 0 <= i < cs.len()
            &&& first_characteristic(cs, uuid) == Some(cs[i])
            &&& cs[i].uuid == Uuid::Short(uuid)
            &&& forall|k: int| 0 <= k < i ==> (#[trigger] cs[k]).uuid != Uuid::Short(uuid)
        },
    decreases cs.len(),
{
    if cs.len() == 0 {
        0
    } else if cs[0].uuid.short() == Some(uuid) {
        0
    } else {
        let rest = cs.skip(1);
        let i = lemma_first_characteristic(rest, uuid);
        assert forall|k: int| 0 < k < cs.len() implies (#[trigger] cs[k]) == rest[k - 1] by {}
        if first_characteristic(rest, uuid) is None {
            assert forall|k: int| 0 <= k < cs.len() implies (#[trigger] cs[k]).uuid != Uuid::Short(
                uuid,
            ) by {
                if k > 0 {
                    assert(rest[k - 1].uuid != Uuid::Short(uuid));
                }
            }
        } else {
            assert(cs[i + 1] == rest[i]);
            assert forall|k: int| 0 <= k < i + 1 implies (#[trigger] cs[k]).uuid != Uuid::Short(
                uuid,
            ) by {
                if k > 0 {
                    assert(rest[k - 1].uuid != Uuid::Short(uuid));
                }
            }
        }
        i + 1
    }
}

/// The first service of a number is the first.
pub proof fn lemma_first_service(services: Seq<ServiceRange>, uuid: u16) -> (i: int)
    ensures
        first_service(services, uuid) is None <==> forall|k: int|
            0 <= k < services.len() ==> (#[trigger] services[k]).uuid != Uuid::Short(uuid),
        first_service(services, uuid) is Some ==> {
            &&& 0 <= i < services.len()
            &&& first_service(services, uuid) == Some(services[i])
            &&& services[i].uuid == Uuid::Short(uuid)
            &&& forall|k: int| 0 <= k < i ==> (#[trigger] services[k]).uuid != Uuid::Short(uuid)
        },
    decreases services.len(),
{
    if services.len() == 0 {
        0
    } else if services[0].uuid.short() == Some(uuid) {
        0
    } else {
        let rest = services.skip(1);
        let i = lemma_first_service(rest, uuid);
        assert forall|k: int| 0 < k < services.len() implies (#[trigger] services[k]) == rest[k
            - 1] by {}
        if first_service(rest, uuid) is None {
            assert forall|k: int| 0 <= k < services.len() implies (#[trigger] services[k]).uuid
                != Uuid::Short(uuid) by {
                if k > 0 {
                    assert(rest[k - 1].uuid != Uuid::Short(uuid));
                }
            }
        } else {
            assert(services[i + 1] == rest[i]);
            assert forall|k: int| 0 <= k < i + 1 implies (#[trigger] services[k]).uuid
                != Uuid::Short(uuid) by {
                if k > 0 {
                    assert(rest[k - 1].uuid != Uuid::Short(uuid));
                }
            }
        }
        i + 1
    }
}

proof fn lemma_comes_from(
    s: Seq<Said>,
    at: int,
    cs: Seq<Characteristic>,
    end: int,
    uuid: u16,
    turn: int,
)
    requires
        0 <= at <= turn,
        end <= s.len(),
        optional_stage(s, turn, first_characteristic(cs, uuid)) is Done,
        optional_stage(s, turn, first_characteristic(cs, uuid))->Done_1 <= end,
        first_characteristic(cs, uuid) is Some && turn < s.len() ==> pacs_stage(
            s.take(turn),
            at,
            cs,
        ) == optional_stage_ask(first_characteristic(cs, uuid)),
    ensures
        comes_from(
            s,
            at,
            cs,
            end,
            uuid,
            optional_stage(s, turn, first_characteristic(cs, uuid))->Done_0,
        ),
{
    let i = lemma_first_characteristic(cs, uuid);
    if first_characteristic(cs, uuid) is Some {
        lemma_read_prefix(s, turn, cs[i].value_handle, end);
        let value = (optional_stage(s, turn, first_characteristic(cs, uuid))->Done_0)->0;
        assert(is_read_from(s, at, cs, end, uuid, value, i, turn));
    }
}

/// What is asked for when it is the turn of a characteristic.
spec fn optional_stage_ask(c: Option<Characteristic>) -> Stage<Published> {
    match c {
        Some(c) => Stage::Ask(read_pdu(c.value_handle)),
        None => Stage::Ask(Seq::empty()),
    }
}

/// Whether every field of what a device publishes comes from the characteristic of its
/// own number: sink records from 0x2BC9, source records from 0x2BCB, locations from
/// 0x2BCA, available contexts from 0x2BCD and supported ones from 0x2BCE.
pub open spec fn is_published(
    s: Seq<Said>,
    at: int,
    cs: Seq<Characteristic>,
    end: int,
    caps: Published,
    sink: Option<Seq<u8>>,
    source: Option<Seq<u8>>,
    locations: Option<Seq<u8>>,
    available: Option<Seq<u8>>,
    supported: Option<Seq<u8>>,
) -> bool {
    &&& comes_from(s, at, cs, end, 0x2BC9, sink)
    &&& comes_from(s, at, cs, end, 0x2BCB, source)
    &&& comes_from(s, at, cs, end, 0x2BCA, locations)
    &&& comes_from(s, at, cs, end, 0x2BCD, available)
    &&& comes_from(s, at, cs, end, 0x2BCE, supported)
    &&& sink is None ==> caps.sink_records.len() == 0
    &&& sink is Some ==> caps.sink_records == published(sink->0)
    &&& source is None ==> caps.source_records.len() == 0
    &&& source is Some ==> caps.source_records == published(source->0)
    &&& caps.sink_locations is Some <==> locations is Some && (locations->0).len() >= 4
    &&& caps.sink_locations is Some ==> caps.sink_locations->0 as int == (locations->0)[0] + 256
        * (locations->0)[1] + 65_536 * (locations->0)[2] + 16_777_216 * (locations->0)[3]
    &&& caps.available_contexts is Some <==> available is Some && (available->0).len() >= 2
    &&& caps.available_contexts is Some ==> holds(available->0, 0, caps.available_contexts->0)
    &&& caps.supported_contexts is Some <==> supported is Some && (supported->0).len() >= 2
    &&& caps.supported_contexts is Some ==> holds(supported->0, 0, caps.supported_contexts->0)
}

/// A device is taken at its own word, field by field: what it is said to play, to record
/// and to allow was read from the characteristic of that number, and where it has none
/// nothing is said of it.
#[verifier::rlimit(40)]
pub proof fn lemma_each_field_comes_from_its_characteristic(
    s: Seq<Said>,
    at: int,
    cs: Seq<Characteristic>,
)
    requires
        0 <= at,
        pacs_stage(s, at, cs) is Done,
        pacs_stage(s, at, cs)->Done_1 <= s.len(),
    ensures
        exists|
            sink: Option<Seq<u8>>,
            source: Option<Seq<u8>>,
            locations: Option<Seq<u8>>,
            available: Option<Seq<u8>>,
            supported: Option<Seq<u8>>,
        | #[trigger]
            is_published(
                s,
                at,
                cs,
                pacs_stage(s, at, cs)->Done_1,
                pacs_stage(s, at, cs)->Done_0,
                sink,
                source,
                locations,
                available,
                supported,
            ),
{
    let end = pacs_stage(s, at, cs)->Done_1;
    let caps = pacs_stage(s, at, cs)->Done_0;
    let c1 = first_characteristic(cs, pacs_uuid::SINK_PAC);
    let c2 = first_characteristic(cs, pacs_uuid::SOURCE_PAC);
    let c3 = first_characteristic(cs, pacs_uuid::SINK_AUDIO_LOCATIONS);
    let c4 = first_characteristic(cs, pacs_uuid::AVAILABLE_CONTEXTS);
    let c5 = first_characteristic(cs, pacs_uuid::SUPPORTED_CONTEXTS);
    let sink = optional_stage(s, at, c1)->Done_0;
    let a = optional_stage(s, at, c1)->Done_1;
    let source = optional_stage(s, a, c2)->Done_0;
    let b = optional_stage(s, a, c2)->Done_1;
    let locations = optional_stage(s, b, c3)->Done_0;
    let c = optional_stage(s, b, c3)->Done_1;
    let available = optional_stage(s, c, c4)->Done_0;
    let d = optional_stage(s, c, c4)->Done_1;
    let supported = optional_stage(s, d, c5)->Done_0;
    lemma_optional_stays(s, Seq::empty(), at, c1);
    lemma_optional_stays(s, Seq::empty(), a, c2);
    lemma_optional_stays(s, Seq::empty(), b, c3);
    lemma_optional_stays(s, Seq::empty(), c, c4);
    lemma_optional_stays(s, Seq::empty(), d, c5);
    lemma_optional_bounds(s, d, c5);
    lemma_optional_bounds(s, c, c4);
    lemma_optional_bounds(s, b, c3);
    lemma_optional_bounds(s, a, c2);
    lemma_optional_bounds(s, at, c1);
    assert(at <= a <= b <= c <= d <= end);
    lemma_comes_from(s, at, cs, end, 0x2BC9, at);
    lemma_optional_prefix(s, at, c1, a);
    lemma_comes_from(s, at, cs, end, 0x2BCB, a);
    lemma_optional_prefix(s, at, c1, b);
    lemma_optional_prefix(s, a, c2, b);
    lemma_comes_from(s, at, cs, end, 0x2BCA, b);
    lemma_optional_prefix(s, at, c1, c);
    lemma_optional_prefix(s, a, c2, c);
    lemma_optional_prefix(s, b, c3, c);
    lemma_comes_from(s, at, cs, end, 0x2BCD, c);
    lemma_optional_prefix(s, at, c1, d);
    lemma_optional_prefix(s, a, c2, d);
    lemma_optional_prefix(s, b, c3, d);
    lemma_optional_prefix(s, c, c4, d);
    lemma_comes_from(s, at, cs, end, 0x2BCE, d);
    assert(is_published(s, at, cs, end, caps, sink, source, locations, available, supported));
}

proof fn lemma_optional_bounds(s: Seq<Said>, at: int, c: Option<Characteristic>)
    requires
        0 <= at,
    ensures
        optional_stage(s, at, c) matches Stage::Done(_, n) ==> at <= n,
{
    if let Some(c) = c {
        lemma_read_bounds(s, at, c.value_handle);
    }
}

proof fn lemma_blob_bounds(
    s: Seq<Said>,
    at: int,
    handle: u16,
    mtu: u16,
    last: nat,
    value: Seq<u8>,
)
    ensures
        blob_stage(s, at, handle, mtu, last, value) matches Stage::Done(_, n) ==> at <= n && (at
            <= s.len() ==> n <= s.len()),
        blob_stage(s, at, handle, mtu, last, value) matches Stage::Failed(_, n) ==> at <= n && (at
            <= s.len() ==> n <= s.len()),
    decreases s.len() - at,
{
    if last + 1 == mtu && at < s.len() {
        if s[at].answer is Ok && value_in(s[at].answer->Ok_0) is Ok {
            let chunk = value_in(s[at].answer->Ok_0)->Ok_0;
            if chunk.len() > 0 {
                lemma_blob_bounds(s, at + 1, handle, s[at].mtu, chunk.len(), value + chunk);
            }
        }
    }
}

proof fn lemma_read_bounds(s: Seq<Said>, at: int, handle: u16)
    ensures
        read_stage(s, at, handle) matches Stage::Done(_, n) ==> at < n <= s.len(),
        read_stage(s, at, handle) matches Stage::Failed(_, n) ==> at < n <= s.len(),
{
    if at < s.len() && s[at].answer is Ok && value_in(s[at].answer->Ok_0) is Ok {
        let value = value_in(s[at].answer->Ok_0)->Ok_0;
        lemma_blob_bounds(s, at + 1, handle, s[at].mtu, value.len(), value);
    }
}

/// What discovery found on its way to what the device publishes.
pub struct Found {
    pub services: Seq<ServiceRange>,
    pub pacs: Seq<Characteristic>,
    /// Where the reading of PACS begins and ends.
    pub from: int,
    pub to: int,
}

/// Whether the values of PACS stand in a discovery as they were read: the characteristics
/// are those of the first service 0x1850, and what was asked for while they were read is
/// what the whole discovery asked for.
pub open spec fn is_discovered(s: Seq<Said>, f: Found, caps: Published) -> bool {
    &&& exists|i: int|
        {
            &&& 0 <= i < f.services.len()
            &&& (#[trigger] f.services[i]).uuid == Uuid::Short(0x1850)
            &&& forall|k: int|
                0 <= k < i ==> (#[trigger] f.services[k]).uuid != Uuid::Short(0x1850)
            &&& exists|b: int| #[trigger]
                all_characteristics_stage(s, b, f.services[i]) == Stage::Done(f.pacs, f.from)
        }
    &&& 0 <= f.from <= f.to <= s.len()
    &&& pacs_stage(s, f.from, f.pacs) is Done
    &&& pacs_stage(s, f.from, f.pacs)->Done_1 == f.to
    &&& ({
        let read = pacs_stage(s, f.from, f.pacs)->Done_0;
        &&& caps.sink_records == read.sink_records
        &&& caps.source_records == read.source_records
        &&& caps.sink_locations == read.sink_locations
        &&& caps.available_contexts == read.available_contexts
        &&& caps.supported_contexts == read.supported_contexts
    })
    &&& forall|j: int|
        f.from <= j <= s.len() && pacs_stage(s.take(j), f.from, f.pacs) is Ask
            ==> #[trigger] capabilities_stage(s.take(j), 0) == pacs_stage(
            s.take(j),
            f.from,
            f.pacs,
        )
}

proof fn lemma_ase_ids_keep_the_rest(
    s: Seq<Said>,
    at: int,
    cs: Seq<Characteristic>,
    caps: Published,
)
    ensures
        ase_ids_stage(s, at, cs, caps) matches Stage::Done(now, _) ==> {
            &&& now.sink_records == caps.sink_records
            &&& now.source_records == caps.source_records
            &&& now.sink_locations == caps.sink_locations
            &&& now.available_contexts == caps.available_contexts
            &&& now.supported_contexts == caps.supported_contexts
        },
    decreases cs.len(),
{
    if cs.len() > 0 {
        if cs[0].uuid.short() != Some(pacs_uuid::SINK_ASE) && cs[0].uuid.short() != Some(
            pacs_uuid::SOURCE_ASE,
        ) {
            lemma_ase_ids_keep_the_rest(s, at, cs.skip(1), caps);
        } else {
            match read_stage(s, at, cs[0].value_handle) {
                Stage::Ask(_) => {},
                Stage::Failed(_, n) => lemma_ase_ids_keep_the_rest(s, n, cs.skip(1), caps),
                Stage::Done(value, n) => lemma_ase_ids_keep_the_rest(
                    s,
                    n,
                    cs.skip(1),
                    with_ase(caps, cs[0], value),
                ),
            }
        }
    }
}

proof fn lemma_services_bounds(s: Seq<Said>, at: int, start: u16, found: Seq<ServiceRange>)
    ensures
        services_stage(s, at, start, found) matches Stage::Done(_, n) ==> at <= n <= s.len(),
    decreases s.len() - at,
{
    if at < s.len() && s[at].answer is Ok {
        let p = s[at].answer->Ok_0;
        let batch = services_in(p);
        if services_fault(p) is None && batch.len() > 0 && batch.last().end_handle != 0xFFFF {
            lemma_services_bounds(
                s,
                at + 1,
                (batch.last().end_handle + 1) as u16,
                found + batch,
            );
        }
    }
}

proof fn lemma_characteristics_bounds(
    s: Seq<Said>,
    at: int,
    start: u16,
    end: u16,
    found: Seq<Characteristic>,
)
    ensures
        characteristics_stage(s, at, start, end, found) matches Stage::Done(_, n) ==> at <= n && (
        at <= s.len() ==> n <= s.len()),
    decreases s.len() - at,
{
    if start <= end && at < s.len() && s[at].answer is Ok {
        let p = s[at].answer->Ok_0;
        let batch = characteristics_in(p);
        if characteristics_fault(p) is None && batch.len() > 0 && batch.last().declaration_handle
            < end {
            lemma_characteristics_bounds(
                s,
                at + 1,
                (batch.last().declaration_handle + 1) as u16,
                end,
                found + batch,
            );
        }
    }
}

proof fn lemma_pacs_bounds(s: Seq<Said>, at: int, cs: Seq<Characteristic>)
    requires
        0 <= at <= s.len(),
    ensures
        pacs_stage(s, at, cs) matches Stage::Done(_, n) ==> at <= n <= s.len(),
{
    let c1 = first_characteristic(cs, pacs_uuid::SINK_PAC);
    let c2 = first_characteristic(cs, pacs_uuid::SOURCE_PAC);
    let c3 = first_characteristic(cs, pacs_uuid::SINK_AUDIO_LOCATIONS);
    let c4 = first_characteristic(cs, pacs_uuid::AVAILABLE_CONTEXTS);
    let c5 = first_characteristic(cs, pacs_uuid::SUPPORTED_CONTEXTS);
    lemma_optional_ends(s, at, c1);
    if let Stage::Done(_, a) = optional_stage(s, at, c1) {
        lemma_optional_ends(s, a, c2);
        if let Stage::Done(_, b) = optional_stage(s, a, c2) {
            lemma_optional_ends(s, b, c3);
            if let Stage::Done(_, c) = optional_stage(s, b, c3) {
                lemma_optional_ends(s, c, c4);
                if let Stage::Done(_, d) = optional_stage(s, c, c4) {
                    lemma_optional_ends(s, d, c5);
                }
            }
        }
    }
}

proof fn lemma_optional_ends(s: Seq<Said>, at: int, c: Option<Characteristic>)
    requires
        0 <= at <= s.len(),
    ensures
        optional_stage(s, at, c) matches Stage::Done(_, n) ==> at <= n <= s.len(),
{
    if let Some(c) = c {
        lemma_read_bounds(s, at, c.value_handle);
    }
}

/// What discovery says of a device is what the device said: every field was read from
/// the characteristic of its number, in the service of its number, by a request that
/// was sent for it.
#[verifier::rlimit(40)]
pub proof fn lemma_capabilities_are_the_devices_own(s: Seq<Said>)
    requires
        capabilities_stage(s, 0) is Done,
    ensures
        exists|f: Found| #[trigger] is_discovered(s, f, capabilities_stage(s, 0)->Done_0),
{
    let caps = capabilities_stage(s, 0)->Done_0;
    let a = mtu_stage(s, 0)->Done_1;
    let services = all_services_stage(s, a)->Done_0;
    let b = all_services_stage(s, a)->Done_1;
    let pacs = first_service(services, pacs_uuid::SERVICE_PACS)->0;
    let cs = all_characteristics_stage(s, b, pacs)->Done_0;
    let c = all_characteristics_stage(s, b, pacs)->Done_1;
    let read = pacs_stage(s, c, cs)->Done_0;
    let d = pacs_stage(s, c, cs)->Done_1;
    lemma_services_bounds(s, a, 1, Seq::empty());
    lemma_characteristics_bounds(s, b, pacs.start_handle, pacs.end_handle, Seq::empty());
    lemma_pacs_bounds(s, c, cs);
    assert(0 <= a <= b <= c <= d <= s.len());
    let i = lemma_first_service(services, 0x1850);
    if let Some(ascs) = first_service(services, pacs_uuid::SERVICE_ASCS) {
        if let Stage::Done(acs, e) = all_characteristics_stage(s, d, ascs) {
            lemma_ase_ids_keep_the_rest(s, e, acs, read);
        }
    }
    let f = Found { services, pacs: cs, from: c, to: d };
    assert forall|j: int|
        f.from <= j <= s.len() && pacs_stage(s.take(j), f.from, f.pacs) is Ask implies
        #[trigger] capabilities_stage(s.take(j), 0) == pacs_stage(s.take(j), f.from, f.pacs) by {
        lemma_mtu_prefix(s, 0, j);
        lemma_services_prefix(s, a, 1, Seq::empty(), j);
        lemma_characteristics_prefix(
            s,
            b,
            pacs.start_handle,
            pacs.end_handle,
            Seq::empty(),
            j,
        );
    }
    assert(all_characteristics_stage(s, b, f.services[i]) == Stage::Done(f.pacs, f.from));
    assert(is_discovered(s, f, caps));
}

/// Endpoints are sorted by their number: one of 0x2BC4 that can be read is a sink, by the
/// first byte of its value, and one of 0x2BC5 is a source; nothing else is an endpoint,
/// and one that cannot be read is left out.
pub proof fn lemma_endpoint_is_filed_by_its_number(
    s: Seq<Said>,
    at: int,
    c: Characteristic,
    caps: Published,
)
    ensures
        ({
            let stage = ase_ids_stage(s, at, seq![c], caps);
            let sink = c.uuid == Uuid::Short(0x2BC4);
            let source = c.uuid == Uuid::Short(0x2BC5);
            if !sink && !source {
                stage == Stage::Done(caps, at)
            } else {
                match read_stage(s, at, c.value_handle) {
                    Stage::Ask(p) => stage == Stage::<Published>::Ask(p),
                    Stage::Failed(_, n) => stage == Stage::Done(caps, n),
                    Stage::Done(value, n) => if value.len() == 0 {
                        stage == Stage::Done(caps, n)
                    } else if sink {
                        stage == Stage::Done(
                            Published { sink_ase_ids: caps.sink_ase_ids.push(value[0]), ..caps },
                            n,
                        )
                    } else {
                        stage == Stage::Done(
                            Published {
                                source_ase_ids: caps.source_ase_ids.push(value[0]),
                                ..caps
                            },
                            n,
                        )
                    },
                }
            }
        }),
{
    let one = seq![c];
    assert(one.skip(1) =~= Seq::empty());
    assert(one[0] == c);
    match read_stage(s, at, c.value_handle) {
        Stage::Ask(_) => {},
        Stage::Failed(_, n) => {
            assert(ase_ids_stage(s, n, one.skip(1), caps) == Stage::Done(caps, n));
        },
        Stage::Done(value, n) => {
            let now = with_ase(caps, c, value);
            assert(ase_ids_stage(s, n, one.skip(1), now) == Stage::Done(now, n));
        },
    }
    assert(ase_ids_stage(s, at, one.skip(1), caps) == Stage::Done(caps, at));
}

/// Endpoints are gone through one by one, in their order.
pub proof fn lemma_endpoints_one_by_one(
    s: Seq<Said>,
    at: int,
    front: Seq<Characteristic>,
    back: Seq<Characteristic>,
    caps: Published,
)
    ensures
        ase_ids_stage(s, at, front + back, caps) == match ase_ids_stage(s, at, front, caps) {
            Stage::Done(now, n) => ase_ids_stage(s, n, back, now),
            other => other,
        },
    decreases front.len(),
{
    let all = front + back;
    if front.len() == 0 {
        assert(all =~= back);
    } else {
        assert(all[0] == front[0]);
        assert(all.skip(1) =~= front.skip(1) + back);
        if front[0].uuid.short() != Some(pacs_uuid::SINK_ASE) && front[0].uuid.short() != Some(
            pacs_uuid::SOURCE_ASE,
        ) {
            lemma_endpoints_one_by_one(s, at, front.skip(1), back, caps);
        } else {
            match read_stage(s, at, front[0].value_handle) {
                Stage::Ask(_) => {},
                Stage::Failed(_, n) => lemma_endpoints_one_by_one(
                    s,
                    n,
                    front.skip(1),
                    back,
                    caps,
                ),
                Stage::Done(value, n) => lemma_endpoints_one_by_one(
                    s,
                    n,
                    front.skip(1),
                    back,
                    with_ase(caps, front[0], value),
                ),
            }
        }
    }
}

/// The handles of endpoints belong to their numbers: each characteristic of the wanted
/// kind that can be read gives the number in its value, with its own handle.
pub proof fn lemma_handle_belongs_to_its_endpoint(
    s: Seq<Said>,
    at: int,
    c: Characteristic,
    wanted: u16,
    found: Seq<(u8, u16)>,
)
    ensures
        ({
            let stage = endpoints_stage(s, at, seq![c], wanted, found);
            if c.uuid != Uuid::Short(wanted) {
                stage == Stage::Done(found, at)
            } else {
                match read_stage(s, at, c.value_handle) {
                    Stage::Ask(p) => stage == Stage::<Seq<(u8, u16)>>::Ask(p),
                    Stage::Failed(_, n) => stage == Stage::Done(found, n),
                    Stage::Done(value, n) => if value.len() < 2 {
                        stage == Stage::Done(found, n)
                    } else {
                        stage == Stage::Done(found.push((value[0], c.value_handle)), n)
                    },
                }
            }
        }),
{
    let one = seq![c];
    assert(one.skip(1) =~= Seq::empty());
    assert(one[0] == c);
    match read_stage(s, at, c.value_handle) {
        Stage::Ask(_) => {},
        Stage::Failed(_, n) => {
            assert(endpoints_stage(s, n, one.skip(1), wanted, found) == Stage::Done(found, n));
        },
        Stage::Done(value, n) => {
            let now = with_endpoint(found, value, c.value_handle);
            assert(endpoints_stage(s, n, one.skip(1), wanted, now) == Stage::Done(now, n));
        },
    }
    assert(endpoints_stage(s, at, one.skip(1), wanted, found) == Stage::Done(found, at));
}

/// Handles of endpoints are collected one by one, in the order of the service.
pub proof fn lemma_handles_one_by_one(
    s: Seq<Said>,
    at: int,
    front: Seq<Characteristic>,
    back: Seq<Characteristic>,
    wanted: u16,
    found: Seq<(u8, u16)>,
)
    ensures
        endpoints_stage(s, at, front + back, wanted, found) == match endpoints_stage(
            s,
            at,
            front,
            wanted,
            found,
        ) {
            Stage::Done(now, n) => endpoints_stage(s, n, back, wanted, now),
            other => other,
        },
    decreases front.len(),
{
    let all = front + back;
    if front.len() == 0 {
        assert(all =~= back);
    } else {
        assert(all[0] == front[0]);
        assert(all.skip(1) =~= front.skip(1) + back);
        if front[0].uuid.short() != Some(wanted) {
            lemma_handles_one_by_one(s, at, front.skip(1), back, wanted, found);
        } else {
            match read_stage(s, at, front[0].value_handle) {
                Stage::Ask(_) => {},
                Stage::Failed(_, n) => lemma_handles_one_by_one(
                    s,
                    n,
                    front.skip(1),
                    back,
                    wanted,
                    found,
                ),
                Stage::Done(value, n) => lemma_handles_one_by_one(
                    s,
                    n,
                    front.skip(1),
                    back,
                    wanted,
                    with_endpoint(found, value, front[0].value_handle),
                ),
            }
        }
    }
}

/// The volume lives where the Volume Control Service says: its state under 0x2B7D, the
/// descriptor behind it, and its control point under 0x2B7E. A service that lacks one of
/// them has no volume.
pub proof fn lemma_volume_lives_in_its_service(cs: Seq<Characteristic>) -> (r: (int, int))
    ensures
        volume_handles(cs) is None <==> {
            ||| forall|k: int| 0 <= k < cs.len() ==> (#[trigger] cs[k]).uuid != Uuid::Short(0x2B7D)
            ||| forall|k: int| 0 <= k < cs.len() ==> (#[trigger] cs[k]).uuid != Uuid::Short(0x2B7E)
        },
        volume_handles(cs) is Some ==> {
            &&& 0 <= r.0 < cs.len()
            &&& 0 <= r.1 < cs.len()
            &&& cs[r.0].uuid == Uuid::Short(0x2B7D)
            &&& cs[r.1].uuid == Uuid::Short(0x2B7E)
            &&& volume_handles(cs)->0.state == cs[r.0].value_handle
            &&& volume_handles(cs)->0.control_point == cs[r.1].value_handle
            &&& cs[r.0].value_handle < 0xFFFF ==> volume_handles(cs)->0.state_cccd
                == cs[r.0].value_handle + 1
        },
{
    let i = lemma_first_characteristic(cs, 0x2B7D);
    let j = lemma_first_characteristic(cs, 0x2B7E);
    (i, j)
}

/// Discovery does not stop short: services found in one batch are kept, and the next
/// batch is asked for from behind the last of them, until the table ends.
pub proof fn lemma_services_are_all_found(
    s: Seq<Said>,
    at: int,
    start: u16,
    found: Seq<ServiceRange>,
)
    requires
        0 <= at < s.len(),
        s[at].answer is Ok,
    ensures
        ({
            let p = s[at].answer->Ok_0;
            let batch = services_in(p);
            let stage = services_stage(s, at, start, found);
            &&& p.len() >= 5 && p[0] == 0x01 && p[4] == 0x0A ==> stage == Stage::Done(
                found,
                at + 1,
            )
            &&& p.len() >= 8 && p[0] == 0x11 && p[1] == 6 ==> {
                &&& batch.len() == (p.len() - 2) / 6
                &&& forall|i: int|
                    0 <= i < batch.len() ==> {
                        &&& holds(p, 2 + 6 * i, (#[trigger] batch[i]).start_handle)
                        &&& holds(p, 4 + 6 * i, batch[i].end_handle)
                        &&& batch[i].uuid == Uuid::Short(batch[i].uuid->Short_0)
                        &&& holds(p, 6 + 6 * i, batch[i].uuid->Short_0)
                    }
                &&& batch.last().end_handle == 0xFFFF ==> stage == Stage::Done(
                    found + batch,
                    at + 1,
                )
                &&& batch.last().end_handle < 0xFFFF ==> stage == services_stage(
                    s,
                    at + 1,
                    (batch.last().end_handle + 1) as u16,
                    found + batch,
                )
            }
        }),
{
    let p = s[at].answer->Ok_0;
    if p.len() >= 8 && p[0] == 0x11 && p[1] == 6 {
        let batch = services_in(p);
        assert forall|i: int| 0 <= i < batch.len() implies {
            &&& holds(p, 2 + 6 * i, (#[trigger] batch[i]).start_handle)
            &&& holds(p, 4 + 6 * i, batch[i].end_handle)
            &&& batch[i].uuid == Uuid::Short(batch[i].uuid->Short_0)
            &&& holds(p, 6 + 6 * i, batch[i].uuid->Short_0)
        } by {
            assert(2 + i * 6 == 2 + 6 * i);
            assert(6 * (i + 1) + 2 <= p.len());
        }
    }
}

/// The same holds of the characteristics of a service.
pub proof fn lemma_characteristics_are_all_found(
    s: Seq<Said>,
    at: int,
    start: u16,
    end: u16,
    found: Seq<Characteristic>,
)
    requires
        0 <= at < s.len(),
        start <= end,
        s[at].answer is Ok,
    ensures
        ({
            let p = s[at].answer->Ok_0;
            let batch = characteristics_in(p);
            let stage = characteristics_stage(s, at, start, end, found);
            &&& p.len() >= 5 && p[0] == 0x01 && p[4] == 0x0A ==> stage == Stage::Done(
                found,
                at + 1,
            )
            &&& p.len() >= 9 && p[0] == 0x09 && p[1] == 7 ==> {
                &&& batch.len() == (p.len() - 2) / 7
                &&& forall|i: int|
                    0 <= i < batch.len() ==> {
                        &&& holds(p, 2 + 7 * i, (#[trigger] batch[i]).declaration_handle)
                        &&& batch[i].properties == p[4 + 7 * i]
                        &&& holds(p, 5 + 7 * i, batch[i].value_handle)
                        &&& batch[i].uuid == Uuid::Short(batch[i].uuid->Short_0)
                        &&& holds(p, 7 + 7 * i, batch[i].uuid->Short_0)
                    }
                &&& batch.last().declaration_handle >= end ==> stage == Stage::Done(
                    found + batch,
                    at + 1,
                )
                &&& batch.last().declaration_handle < end ==> stage == characteristics_stage(
                    s,
                    at + 1,
                    (batch.last().declaration_handle + 1) as u16,
                    end,
                    found + batch,
                )
            }
        }),
{
    let p = s[at].answer->Ok_0;
    if p.len() >= 9 && p[0] == 0x09 && p[1] == 7 {
        let batch = characteristics_in(p);
        assert forall|i: int| 0 <= i < batch.len() implies {
            &&& holds(p, 2 + 7 * i, (#[trigger] batch[i]).declaration_handle)
            &&& batch[i].properties == p[4 + 7 * i]
            &&& holds(p, 5 + 7 * i, batch[i].value_handle)
            &&& batch[i].uuid == Uuid::Short(batch[i].uuid->Short_0)
            &&& holds(p, 7 + 7 * i, batch[i].uuid->Short_0)
        } by {
            assert(2 + i * 7 == 2 + 7 * i);
            assert(7 * (i + 1) + 2 <= p.len());
        }
    }
}

/// A long value is asked for from where the last chunk ended.
pub proof fn lemma_next_chunk_is_asked_for(s: Seq<Said>, at: int, handle: u16, count: nat)
    requires
        0 <= at,
        1 <= count,
        at + count == s.len(),
        forall|i: int| at <= i < at + count ==> (#[trigger] s[i]).mtu >= ATT_DEFAULT_MTU,
        forall|i: int| at <= i < at + count ==> fills(#[trigger] s[i]),
    ensures
        read_stage(s, at, handle) matches Stage::Ask(p) && reads_on(
            p,
            handle,
            put_together(s, at, count).len() as int,
        ),
{
    assert forall|i: int| at <= i < at + count implies is_chunk(#[trigger] s[i]) && chunk_in(
        s[i],
    ).len() > 0 by {
        assert(fills(s[i]) && s[i].mtu >= ATT_DEFAULT_MTU);
    }
    lemma_full_chunks(s, at, handle, count);
    assert(fills(s[at + count - 1]));
}

/// Looking for the volume uses up answers, and gives none back.
pub proof fn lemma_volume_control_moves_on(s: Seq<Said>, at: int)
    ensures
        volume_control_stage(s, at) matches Stage::Done(_, n) ==> at <= n,
{
    lemma_services_bounds(s, at, 1, Seq::empty());
    if let Stage::Done(services, n) = all_services_stage(s, at) {
        if let Some(range) = first_service(services, crate::vcs::VOLUME_CONTROL_SERVICE) {
            lemma_characteristics_bounds(s, n, range.start_handle, range.end_handle, Seq::empty());
        }
    }
}

} // verus!
