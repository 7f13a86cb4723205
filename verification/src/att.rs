//! The Attribute Protocol, and the ACL packets that carry it.

use vstd::prelude::*;

use crate::bytes::{
    lemma_word, number_in, packets, part, push_part, push_word, wide, word, word_at, word_bytes,
};

verus! {

/// L2CAP channels.
pub const CID_ATT: u16 = 0x0004;

pub const CID_LE_SIGNALING: u16 = 0x0005;

pub const CID_SMP: u16 = 0x0006;

/// Opcodes.
pub const ERROR_RESPONSE: u8 = 0x01;

pub const EXCHANGE_MTU_REQUEST: u8 = 0x02;

pub const EXCHANGE_MTU_RESPONSE: u8 = 0x03;

pub const READ_BY_TYPE_REQUEST: u8 = 0x08;

pub const READ_BY_TYPE_RESPONSE: u8 = 0x09;

pub const READ_REQUEST: u8 = 0x0A;

pub const READ_RESPONSE: u8 = 0x0B;

pub const READ_BLOB_REQUEST: u8 = 0x0C;

pub const READ_BLOB_RESPONSE: u8 = 0x0D;

pub const READ_BY_GROUP_TYPE_REQUEST: u8 = 0x10;

pub const READ_BY_GROUP_TYPE_RESPONSE: u8 = 0x11;

pub const WRITE_REQUEST: u8 = 0x12;

pub const HANDLE_VALUE_NOTIFICATION: u8 = 0x1B;

pub const HANDLE_VALUE_INDICATION: u8 = 0x1D;

pub const HANDLE_VALUE_CONFIRMATION: u8 = 0x1E;

/// Error codes that end a procedure rather than fail it.
pub const INVALID_OFFSET: u8 = 0x07;

pub const ATTRIBUTE_NOT_FOUND: u8 = 0x0A;

/// Attribute types.
pub const PRIMARY_SERVICE: u16 = 0x2800;

pub const CHARACTERISTIC: u16 = 0x2803;

/// The PDU size that every device takes, and the one that is asked for.
pub const ATT_DEFAULT_MTU: u16 = 23;

pub const ATT_PREFERRED_MTU: u16 = 517;

/// Which part of the protocol an answer failed to make sense for.
#[derive(Debug, Clone, Copy, PartialEq, Eq, Structural)]
pub enum Malformed {
    Error,
    Mtu,
    Services,
    Characteristics,
    Value,
    Fragment,
}

#[derive(Debug, Clone, Copy, PartialEq, Eq, Structural)]
pub enum AttError {
    /// The peer refused a request.
    Protocol { request: u8, handle: u16, code: u8 },
    /// The peer sent something that is no answer.
    Malformed { part: Malformed },
}

impl AttError {
    /// Whether the peer refused with a given code.
    pub open spec fn says(self, wanted: u8) -> bool {
        match self {
            AttError::Protocol { request, handle, code } => code == wanted,
            AttError::Malformed { part } => false,
        }
    }

    pub fn is_code(&self, wanted: u8) -> (r: bool)
        ensures
            r == self.says(wanted),
    {
        match *self {
            AttError::Protocol { request, handle, code } => code == wanted,
            AttError::Malformed { part } => false,
        }
    }

    pub open spec fn message(self) -> Seq<char> {
        match self {
            AttError::Protocol { request, handle, code } => "peer refused request "@
                + crate::text::hex(request as nat, 2) + " on handle "@ + crate::text::hex(
                handle as nat,
                4,
            ) + " with code "@ + crate::text::hex(code as nat, 2),
            AttError::Malformed { part } => match part {
                Malformed::Error => "malformed error response"@,
                Malformed::Mtu => "malformed MTU response"@,
                Malformed::Services => "malformed service list"@,
                Malformed::Characteristics => "malformed characteristic list"@,
                Malformed::Value => "malformed read response"@,
                Malformed::Fragment => "malformed ACL fragment"@,
            },
        }
    }

    /// A sentence for a person.
    pub fn text(&self) -> (r: String)
        ensures
            r@ == self.message(),
    {
        let mut out = String::new();
        match *self {
            AttError::Protocol { request, handle, code } => {
                out.append("peer refused request ");
                crate::text::push_hex(&mut out, request as u32, 2);
                out.append(" on handle ");
                crate::text::push_hex(&mut out, handle as u32, 4);
                out.append(" with code ");
                crate::text::push_hex(&mut out, code as u32, 2);
            },
            AttError::Malformed { part } => {
                out.append(
                    match part {
                        Malformed::Error => "malformed error response",
                        Malformed::Mtu => "malformed MTU response",
                        Malformed::Services => "malformed service list",
                        Malformed::Characteristics => "malformed characteristic list",
                        Malformed::Value => "malformed read response",
                        Malformed::Fragment => "malformed ACL fragment",
                    },
                );
            },
        }
        assert(out@ =~= self.message());
        out
    }
}

#[derive(Debug, Clone, Copy, PartialEq, Eq, Structural)]
pub enum Uuid {
    /// One that the Bluetooth SIG assigned.
    Short(u16),
    /// One that a vendor made up, as a number.
    Long(u128),
}

impl Uuid {
    pub open spec fn short(self) -> Option<u16> {
        match self {
            Uuid::Short(id) => Some(id),
            Uuid::Long(id) => None,
        }
    }

    pub fn as_short(&self) -> (r: Option<u16>)
        ensures
            r == self.short(),
    {
        match *self {
            Uuid::Short(id) => Some(id),
            Uuid::Long(_) => None,
        }
    }

    /// Whether this is the assigned number `wanted`.
    pub fn is_short(&self, wanted: u16) -> (r: bool)
        ensures
            r <==> self.short() == Some(wanted),
    {
        match *self {
            Uuid::Short(id) => id == wanted,
            Uuid::Long(_) => false,
        }
    }
}

/// A service and the handles that belong to it.
#[derive(Debug, Clone, Copy, PartialEq, Eq, Structural)]
pub struct ServiceRange {
    pub start_handle: u16,
    pub end_handle: u16,
    pub uuid: Uuid,
}

#[derive(Debug, Clone, Copy, PartialEq, Eq, Structural)]
pub struct Characteristic {
    pub declaration_handle: u16,
    pub properties: u8,
    pub value_handle: u16,
    pub uuid: Uuid,
}

// ---------------------------------------------------------------------------
// Requests
// ---------------------------------------------------------------------------

pub open spec fn mtu_request(mtu: u16) -> Seq<u8> {
    seq![EXCHANGE_MTU_REQUEST] + word_bytes(mtu)
}

pub open spec fn mtu_response(mtu: u16) -> Seq<u8> {
    seq![EXCHANGE_MTU_RESPONSE] + word_bytes(mtu)
}

pub open spec fn group_request(start: u16, end: u16, kind: u16) -> Seq<u8> {
    seq![READ_BY_GROUP_TYPE_REQUEST] + word_bytes(start) + word_bytes(end) + word_bytes(kind)
}

pub open spec fn type_request(start: u16, end: u16, kind: u16) -> Seq<u8> {
    seq![READ_BY_TYPE_REQUEST] + word_bytes(start) + word_bytes(end) + word_bytes(kind)
}

pub open spec fn read_pdu(handle: u16) -> Seq<u8> {
    seq![READ_REQUEST] + word_bytes(handle)
}

pub open spec fn blob_pdu(handle: u16, offset: u16) -> Seq<u8> {
    seq![READ_BLOB_REQUEST] + word_bytes(handle) + word_bytes(offset)
}

pub open spec fn write_pdu(handle: u16, value: Seq<u8>) -> Seq<u8> {
    seq![WRITE_REQUEST] + word_bytes(handle) + value
}

pub fn exchange_mtu_request(mtu: u16) -> (r: Vec<u8>)
    ensures
        r@ == mtu_request(mtu),
{
    let mut out: Vec<u8> = vec![EXCHANGE_MTU_REQUEST];
    push_word(&mut out, mtu);
    assert(out@ =~= mtu_request(mtu));
    out
}

pub fn exchange_mtu_response(mtu: u16) -> (r: Vec<u8>)
    ensures
        r@ == mtu_response(mtu),
{
    let mut out: Vec<u8> = vec![EXCHANGE_MTU_RESPONSE];
    push_word(&mut out, mtu);
    assert(out@ =~= mtu_response(mtu));
    out
}

pub fn read_by_group_type_request(start: u16, end: u16, kind: u16) -> (r: Vec<u8>)
    ensures
        r@ == group_request(start, end, kind),
{
    let mut out: Vec<u8> = vec![READ_BY_GROUP_TYPE_REQUEST];
    push_word(&mut out, start);
    push_word(&mut out, end);
    push_word(&mut out, kind);
    assert(out@ =~= group_request(start, end, kind));
    out
}

pub fn read_by_type_request(start: u16, end: u16, kind: u16) -> (r: Vec<u8>)
    ensures
        r@ == type_request(start, end, kind),
{
    let mut out: Vec<u8> = vec![READ_BY_TYPE_REQUEST];
    push_word(&mut out, start);
    push_word(&mut out, end);
    push_word(&mut out, kind);
    assert(out@ =~= type_request(start, end, kind));
    out
}

pub fn read_request(handle: u16) -> (r: Vec<u8>)
    ensures
        r@ == read_pdu(handle),
{
    let mut out: Vec<u8> = vec![READ_REQUEST];
    push_word(&mut out, handle);
    assert(out@ =~= read_pdu(handle));
    out
}

pub fn read_blob_request(handle: u16, offset: u16) -> (r: Vec<u8>)
    ensures
        r@ == blob_pdu(handle, offset),
{
    let mut out: Vec<u8> = vec![READ_BLOB_REQUEST];
    push_word(&mut out, handle);
    push_word(&mut out, offset);
    assert(out@ =~= blob_pdu(handle, offset));
    out
}

pub fn write_request(handle: u16, value: &[u8]) -> (r: Vec<u8>)
    ensures
        r@ == write_pdu(handle, value@),
{
    let mut out: Vec<u8> = vec![WRITE_REQUEST];
    push_word(&mut out, handle);
    push_part(&mut out, value, 0, value.len());
    assert(value@.subrange(0, value@.len() as int) =~= value@);
    assert(out@ =~= write_pdu(handle, value@));
    out
}

// ---------------------------------------------------------------------------
// Answers
// ---------------------------------------------------------------------------

/// The refusal that an answer carries, if it is one.
pub open spec fn refusal(p: Seq<u8>) -> Option<AttError> {
    if p.len() == 0 || p[0] != ERROR_RESPONSE {
        None
    } else if p.len() < 5 {
        Some(AttError::Malformed { part: Malformed::Error })
    } else {
        Some(AttError::Protocol { request: p[1], handle: word_at(p, 2), code: p[4] })
    }
}

/// Tells a refusal from an answer.
pub fn check_error(p: &[u8]) -> (r: Result<(), AttError>)
    ensures
        r is Ok <==> refusal(p@) is None,
        r is Err ==> refusal(p@) == Some(r->Err_0),
{
    if p.len() == 0 || p[0] != ERROR_RESPONSE {
        Ok(())
    } else if p.len() < 5 {
        Err(AttError::Malformed { part: Malformed::Error })
    } else {
        Err(AttError::Protocol { request: p[1], handle: word(p[2], p[3]), code: p[4] })
    }
}

/// The PDU size that both sides take, but never less than the smallest.
pub open spec fn agreed_mtu(ours: u16, theirs: u16) -> u16 {
    let common = if theirs < ours {
        theirs
    } else {
        ours
    };
    if common < ATT_DEFAULT_MTU {
        ATT_DEFAULT_MTU
    } else {
        common
    }
}

pub fn agree_on_mtu(ours: u16, theirs: u16) -> (r: u16)
    ensures
        r == agreed_mtu(ours, theirs),
{
    let common: u16 = if theirs < ours {
        theirs
    } else {
        ours
    };
    if common < ATT_DEFAULT_MTU {
        ATT_DEFAULT_MTU
    } else {
        common
    }
}

/// What an answer to an MTU request settles.
pub open spec fn mtu_in(p: Seq<u8>, ours: u16) -> Result<u16, AttError> {
    match refusal(p) {
        Some(e) => Err(e),
        None => if p.len() >= 3 && p[0] == EXCHANGE_MTU_RESPONSE {
            Ok(agreed_mtu(ours, word_at(p, 1)))
        } else {
            Err(AttError::Malformed { part: Malformed::Mtu })
        },
    }
}

pub fn parse_mtu_response(p: &[u8], ours: u16) -> (r: Result<u16, AttError>)
    ensures
        r == mtu_in(p@, ours),
{
    match check_error(p) {
        Err(e) => Err(e),
        Ok(()) => {
            if p.len() >= 3 && p[0] == EXCHANGE_MTU_RESPONSE {
                Ok(agree_on_mtu(ours, word(p[1], p[2])))
            } else {
                Err(AttError::Malformed { part: Malformed::Mtu })
            }
        },
    }
}

/// The identifier at a place in a list, two or sixteen bytes long.
pub open spec fn uuid_at(p: Seq<u8>, at: int, long: bool) -> Uuid {
    if long {
        Uuid::Long(number_in(p.subrange(at, at + 16)) as u128)
    } else {
        Uuid::Short(word_at(p, at))
    }
}

fn read_uuid(p: &[u8], at: usize, long: bool) -> (r: Uuid)
    requires
        at + if long {
            16int
        } else {
            2int
        } <= p@.len(),
    ensures
        r == uuid_at(p@, at as int, long),
{
    if long {
        Uuid::Long(wide(p, at))
    } else {
        Uuid::Short(word(p[at], p[at + 1]))
    }
}

/// How many whole entries a list holds behind its opcode and entry length.
pub open spec fn entry_count(p: Seq<u8>) -> int {
    (p.len() - 2) / (p[1] as int)
}

/// The service at a place in a list.
pub open spec fn service_at(p: Seq<u8>, at: int, long: bool) -> ServiceRange {
    ServiceRange {
        start_handle: word_at(p, at),
        end_handle: word_at(p, at + 2),
        uuid: uuid_at(p, at + 4, long),
    }
}

/// Why a service list cannot be read, if it cannot.
pub open spec fn services_fault(p: Seq<u8>) -> Option<AttError> {
    match refusal(p) {
        Some(e) => Some(e),
        None => if p.len() >= 2 && p[0] == READ_BY_GROUP_TYPE_RESPONSE && (p[1] == 6 || p[1]
            == 20) {
            None
        } else {
            Some(AttError::Malformed { part: Malformed::Services })
        },
    }
}

/// The services that a list holds, in its order.
pub open spec fn services_in(p: Seq<u8>) -> Seq<ServiceRange> {
    Seq::new(
        entry_count(p) as nat,
        |i: int| service_at(p, 2 + i * (p[1] as int), p[1] == 20),
    )
}

/// One batch of the primary services.
pub fn parse_service_ranges(p: &[u8]) -> (r: Result<Vec<ServiceRange>, AttError>)
    ensures
        r is Ok <==> services_fault(p@) is None,
        r is Err ==> services_fault(p@) == Some(r->Err_0),
        r is Ok ==> r->Ok_0@ == services_in(p@),
{
    if let Err(e) = check_error(p) {
        return Err(e);
    }
    if p.len() < 2 || p[0] != READ_BY_GROUP_TYPE_RESPONSE || (p[1] != 6 && p[1] != 20) {
        return Err(AttError::Malformed { part: Malformed::Services });
    }
    let step: usize = p[1] as usize;
    let long: bool = step == 20;
    let mut out: Vec<ServiceRange> = Vec::new();
    let mut at: usize = 2;
    while p.len() - at >= step
        invariant
            step == p@[1],
            step == 6 || step == 20,
            long == (step == 20),
            2 <= at <= p@.len(),
            at == 2 + out@.len() * step,
            forall|i: int|
                0 <= i < out@.len() ==> #[trigger] out@[i] == service_at(p@, 2 + i * step, long),
        decreases p@.len() - at,
    {
        let s = ServiceRange {
            start_handle: word(p[at], p[at + 1]),
            end_handle: word(p[at + 2], p[at + 3]),
            uuid: read_uuid(p, at + 4, long),
        };
        let ghost n = out@.len() as int;
        out.push(s);
        at += step;
        assert((n + 1) * step == n * step + step) by (nonlinear_arith);
    }
    proof {
        let n = out@.len() as int;
        let rest = p@.len() - 2 - n * step;
        vstd::arithmetic::div_mod::lemma_fundamental_div_mod_converse(
            p@.len() - 2,
            step as int,
            n,
            rest,
        );
        assert(out@ =~= services_in(p@));
    }
    Ok(out)
}

/// The characteristic at a place in a list.
pub open spec fn characteristic_at(p: Seq<u8>, at: int, long: bool) -> Characteristic {
    Characteristic {
        declaration_handle: word_at(p, at),
        properties: p[at + 2],
        value_handle: word_at(p, at + 3),
        uuid: uuid_at(p, at + 5, long),
    }
}

/// Why a characteristic list cannot be read, if it cannot.
pub open spec fn characteristics_fault(p: Seq<u8>) -> Option<AttError> {
    match refusal(p) {
        Some(e) => Some(e),
        None => if p.len() >= 2 && p[0] == READ_BY_TYPE_RESPONSE && (p[1] == 7 || p[1] == 21) {
            None
        } else {
            Some(AttError::Malformed { part: Malformed::Characteristics })
        },
    }
}

/// The characteristics that a list holds, in its order.
pub open spec fn characteristics_in(p: Seq<u8>) -> Seq<Characteristic> {
    Seq::new(
        entry_count(p) as nat,
        |i: int| characteristic_at(p, 2 + i * (p[1] as int), p[1] == 21),
    )
}

/// One batch of the characteristics of a service.
pub fn parse_characteristics(p: &[u8]) -> (r: Result<Vec<Characteristic>, AttError>)
    ensures
        r is Ok <==> characteristics_fault(p@) is None,
        r is Err ==> characteristics_fault(p@) == Some(r->Err_0),
        r is Ok ==> r->Ok_0@ == characteristics_in(p@),
{
    if let Err(e) = check_error(p) {
        return Err(e);
    }
    if p.len() < 2 || p[0] != READ_BY_TYPE_RESPONSE || (p[1] != 7 && p[1] != 21) {
        return Err(AttError::Malformed { part: Malformed::Characteristics });
    }
    let step: usize = p[1] as usize;
    let long: bool = step == 21;
    let mut out: Vec<Characteristic> = Vec::new();
    let mut at: usize = 2;
    while p.len() - at >= step
        invariant
            step == p@[1],
            step == 7 || step == 21,
            long == (step == 21),
            2 <= at <= p@.len(),
            at == 2 + out@.len() * step,
            forall|i: int|
                0 <= i < out@.len() ==> #[trigger] out@[i] == characteristic_at(
                    p@,
                    2 + i * step,
                    long,
                ),
        decreases p@.len() - at,
    {
        let c = Characteristic {
            declaration_handle: word(p[at], p[at + 1]),
            properties: p[at + 2],
            value_handle: word(p[at + 3], p[at + 4]),
            uuid: read_uuid(p, at + 5, long),
        };
        let ghost n = out@.len() as int;
        out.push(c);
        at += step;
        assert((n + 1) * step == n * step + step) by (nonlinear_arith);
    }
    proof {
        let n = out@.len() as int;
        let rest = p@.len() - 2 - n * step;
        vstd::arithmetic::div_mod::lemma_fundamental_div_mod_converse(
            p@.len() - 2,
            step as int,
            n,
            rest,
        );
        assert(out@ =~= characteristics_in(p@));
    }
    Ok(out)
}

/// The value that an answer to a read carries.
pub open spec fn value_in(p: Seq<u8>) -> Result<Seq<u8>, AttError> {
    match refusal(p) {
        Some(e) => Err(e),
        None => if p.len() >= 1 && (p[0] == READ_RESPONSE || p[0] == READ_BLOB_RESPONSE) {
            Ok(p.skip(1))
        } else {
            Err(AttError::Malformed { part: Malformed::Value })
        },
    }
}

pub fn parse_read_response(p: &[u8]) -> (r: Result<Vec<u8>, AttError>)
    ensures
        r is Ok <==> value_in(p@) is Ok,
        r is Ok ==> r->Ok_0@ == value_in(p@)->Ok_0,
        r is Err ==> r->Err_0 == value_in(p@)->Err_0,
{
    match check_error(p) {
        Err(e) => Err(e),
        Ok(()) => {
            if p.len() >= 1 && (p[0] == READ_RESPONSE || p[0] == READ_BLOB_RESPONSE) {
                let value = part(p, 1, p.len());
                assert(value@ =~= p@.skip(1));
                Ok(value)
            } else {
                Err(AttError::Malformed { part: Malformed::Value })
            }
        },
    }
}

/// Whether a PDU is a request that a server owes an answer to. An exchange of the
/// MTU is answered elsewhere.
pub open spec fn is_peer_request(op: u8) -> bool {
    op == 0x04 || op == 0x06 || op == 0x08 || op == 0x0A || op == 0x0C || op == 0x0E || op == 0x10
        || op == 0x12
}

/// The answer to a request of the peer: this host has no attributes.
pub open spec fn absent_answer(p: Seq<u8>) -> Option<Seq<u8>> {
    if p.len() >= 1 && is_peer_request(p[0]) {
        Some(
            seq![
                ERROR_RESPONSE,
                p[0],
                if p.len() >= 3 {
                    p[1]
                } else {
                    0
                },
                if p.len() >= 3 {
                    p[2]
                } else {
                    0
                },
                ATTRIBUTE_NOT_FOUND,
            ],
        )
    } else {
        None
    }
}

/// Answers a peer that asks for attributes of ours. `None` where it asks nothing.
pub fn absent_local_attribute_response(p: &[u8]) -> (r: Option<Vec<u8>>)
    ensures
        r is Some <==> absent_answer(p@) is Some,
        r is Some ==> r->0@ == absent_answer(p@)->0,
{
    if p.len() < 1 {
        return None;
    }
    let op: u8 = p[0];
    let asks: bool = op == 0x04 || op == 0x06 || op == 0x08 || op == 0x0A || op == 0x0C || op
        == 0x0E || op == 0x10 || op == 0x12;
    if !asks {
        return None;
    }
    let (lo, hi): (u8, u8) = if p.len() >= 3 {
        (p[1], p[2])
    } else {
        (0, 0)
    };
    let out: Vec<u8> = vec![ERROR_RESPONSE, op, lo, hi, ATTRIBUTE_NOT_FOUND];
    assert(out@ =~= absent_answer(p@)->0);
    Some(out)
}

// ---------------------------------------------------------------------------
// ACL packets
// ---------------------------------------------------------------------------

/// A complete PDU and the channel it came on.
#[derive(Debug)]
pub struct L2capFrame {
    pub cid: u16,
    pub payload: Vec<u8>,
}

/// What a frame says, whatever holds its payload.
pub struct Frame {
    pub cid: u16,
    pub payload: Seq<u8>,
}

impl View for L2capFrame {
    type V = Frame;

    open spec fn view(&self) -> Frame {
        Frame { cid: self.cid, payload: self.payload@ }
    }
}

/// A PDU behind its length and its channel.
pub open spec fn l2cap_bytes(cid: u16, pdu: Seq<u8>) -> Seq<u8> {
    word_bytes(pdu.len() as u16) + word_bytes(cid) + pdu
}

/// One ACL packet: the connection, whether it starts a frame, a length, data.
pub open spec fn acl_packet(handle: u16, first: bool, data: Seq<u8>) -> Seq<u8> {
    let flags = handle as int % 4096 + if first {
        0int
    } else {
        4096int
    };
    word_bytes(flags as u16) + word_bytes(data.len() as u16) + data
}

/// Data cut into packets that carry at most `max` bytes each.
pub open spec fn acl_packets(handle: u16, first: bool, data: Seq<u8>, max: int) -> Seq<Seq<u8>>
    decreases data.len(),
{
    if max <= 0 || data.len() <= max {
        seq![acl_packet(handle, first, data)]
    } else {
        seq![acl_packet(handle, first, data.take(max))] + acl_packets(
            handle,
            false,
            data.skip(max),
            max,
        )
    }
}

fn push_packet(out: &mut Vec<Vec<u8>>, handle: u16, first: bool, data: &[u8], from: usize, to: usize)
    requires
        from <= to <= data@.len(),
        to - from <= 65_535,
    ensures
        packets(final(out)@) == packets(old(out)@).push(
            acl_packet(handle, first, data@.subrange(from as int, to as int)),
        ),
{
    let ghost was = out@;
    let mut packet: Vec<u8> = Vec::new();
    let flags: u16 = handle % 4096 + if first {
        0
    } else {
        4096
    };
    push_word(&mut packet, flags);
    push_word(&mut packet, (to - from) as u16);
    push_part(&mut packet, data, from, to);
    assert(packet@ =~= acl_packet(handle, first, data@.subrange(from as int, to as int)));
    out.push(packet);
    assert(packets(out@) =~= packets(was).push(packet@));
}

/// The packets that carry a PDU over a connection.
pub fn build_acl_packets(handle: u16, cid: u16, pdu: &[u8], max: usize) -> (r: Vec<Vec<u8>>)
    requires
        pdu@.len() <= 65_535,
        0 < max <= 65_535,
    ensures
        packets(r@) == acl_packets(handle, true, l2cap_bytes(cid, pdu@), max as int),
{
    let mut data: Vec<u8> = Vec::new();
    push_word(&mut data, pdu.len() as u16);
    push_word(&mut data, cid);
    push_part(&mut data, pdu, 0, pdu.len());
    assert(pdu@.subrange(0, pdu@.len() as int) =~= pdu@);
    assert(data@ =~= l2cap_bytes(cid, pdu@));
    let ghost whole = acl_packets(handle, true, data@, max as int);
    let mut out: Vec<Vec<u8>> = Vec::new();
    let mut from: usize = 0;
    let mut first: bool = true;
    assert(data@.skip(0) =~= data@);
    assert(packets(out@) + whole =~= whole);
    while data.len() - from > max
        invariant
            0 < max <= 65_535,
            from <= data@.len(),
            packets(out@) + acl_packets(handle, first, data@.skip(from as int), max as int)
                == whole,
        decreases data@.len() - from,
    {
        let ghost was = packets(out@);
        let ghost rest = data@.skip(from as int);
        push_packet(&mut out, handle, first, data.as_slice(), from, from + max);
        proof {
            assert(data@.subrange(from as int, from + max) =~= rest.take(max as int));
            assert(rest.skip(max as int) =~= data@.skip(from + max));
            assert(packets(out@) + acl_packets(handle, false, data@.skip(from + max), max as int)
                =~= was + acl_packets(handle, first, rest, max as int));
        }
        from += max;
        first = false;
    }
    let ghost was = packets(out@);
    push_packet(&mut out, handle, first, data.as_slice(), from, data.len());
    assert(data@.subrange(from as int, data@.len() as int) =~= data@.skip(from as int));
    assert(packets(out@) =~= whole);
    out
}

/// A frame of which some is still to come.
pub struct Partial {
    pub cid: u16,
    pub expected: nat,
    pub payload: Seq<u8>,
}

/// What a reassembler makes of a frame that has grown: it is complete, still
/// short, or longer than it said.
pub open spec fn settled(cid: u16, expected: nat, payload: Seq<u8>) -> (
    Option<Partial>,
    Result<Option<Frame>, AttError>,
) {
    if payload.len() == expected {
        (None, Ok(Some(Frame { cid, payload })))
    } else if payload.len() < expected {
        (Some(Partial { cid, expected, payload }), Ok(None))
    } else {
        (None, Err(AttError::Malformed { part: Malformed::Fragment }))
    }
}

/// What a reassembler makes of one more packet.
pub open spec fn absorbed(state: Option<Partial>, raw: Seq<u8>) -> (
    Option<Partial>,
    Result<Option<Frame>, AttError>,
) {
    let damaged = Err::<Option<Frame>, AttError>(
        AttError::Malformed { part: Malformed::Fragment },
    );
    if raw.len() < 4 || raw.len() < 4 + word_at(raw, 2) {
        (state, damaged)
    } else {
        let data = raw.subrange(4, 4 + word_at(raw, 2));
        if word_at(raw, 0) as int / 4096 % 4 == 1 {
            match state {
                None => (None, damaged),
                Some(p) => settled(p.cid, p.expected, p.payload + data),
            }
        } else if data.len() < 4 {
            (None, damaged)
        } else {
            settled(word_at(data, 2), word_at(data, 0) as nat, data.skip(4))
        }
    }
}

/// Puts frames together again from the packets they came in.
#[derive(Debug)]
pub struct AclReassembler {
    pending: bool,
    cid: u16,
    expected: usize,
    payload: Vec<u8>,
}

impl View for AclReassembler {
    type V = Option<Partial>;

    closed spec fn view(&self) -> Option<Partial> {
        if self.pending {
            Some(
                Partial { cid: self.cid, expected: self.expected as nat, payload: self.payload@ },
            )
        } else {
            None
        }
    }
}

impl AclReassembler {
    pub fn new() -> (r: Self)
        ensures
            r@ is None,
    {
        AclReassembler { pending: false, cid: 0, expected: 0, payload: Vec::new() }
    }

    /// Decides what the frame that has just grown is.
    fn settle(&mut self) -> (r: Result<Option<L2capFrame>, AttError>)
        requires
            old(self).pending,
        ensures
            ({
                let (state, result) = settled(
                    old(self).cid,
                    old(self).expected as nat,
                    old(self).payload@,
                );
                &&& final(self)@ == state
                &&& says_same(r, result)
            }),
    {
        if self.payload.len() < self.expected {
            return Ok(None);
        }
        self.pending = false;
        let mut payload: Vec<u8> = Vec::new();
        std::mem::swap(&mut payload, &mut self.payload);
        if payload.len() == self.expected {
            Ok(Some(L2capFrame { cid: self.cid, payload }))
        } else {
            Err(AttError::Malformed { part: Malformed::Fragment })
        }
    }

    /// Takes one packet. `Ok(None)` while the frame is not complete.
    pub fn push(&mut self, raw: &[u8]) -> (r: Result<Option<L2capFrame>, AttError>)
        ensures
            ({
                let (state, result) = absorbed(old(self)@, raw@);
                &&& final(self)@ == state
                &&& says_same(r, result)
            }),
    {
        let damaged = AttError::Malformed { part: Malformed::Fragment };
        if raw.len() < 4 {
            return Err(damaged);
        }
        let size: usize = word(raw[2], raw[3]) as usize;
        if raw.len() < 4 + size {
            return Err(damaged);
        }
        let ghost data = raw@.subrange(4, 4 + size);
        if word(raw[0], raw[1]) / 4096 % 4 == 1 {
            if !self.pending {
                return Err(damaged);
            }
            push_part(&mut self.payload, raw, 4, 4 + size);
        } else {
            if size < 4 {
                self.pending = false;
                return Err(damaged);
            }
            self.pending = true;
            self.expected = word(raw[4], raw[5]) as usize;
            self.cid = word(raw[6], raw[7]);
            self.payload = part(raw, 8, 4 + size);
            assert(self.payload@ =~= data.skip(4));
            assert(word_at(data, 0) == word_at(raw@, 4));
            assert(word_at(data, 2) == word_at(raw@, 6));
        }
        self.settle()
    }
}

/// Whether a result says what its model says.
pub open spec fn says_same(
    r: Result<Option<L2capFrame>, AttError>,
    model: Result<Option<Frame>, AttError>,
) -> bool {
    match (r, model) {
        (Ok(Some(f)), Ok(Some(m))) => f@ == m,
        (Ok(None), Ok(None)) => true,
        (Err(a), Err(b)) => a == b,
        _ => false,
    }
}

/// Whether a reassembler, fed packets one after the other, gives a frame with the
/// last of them and nothing before, and is left with nothing.
pub open spec fn gives(state: Option<Partial>, packets: Seq<Seq<u8>>, frame: Frame) -> bool
    decreases packets.len(),
{
    if packets.len() == 0 {
        false
    } else if packets.len() == 1 {
        absorbed(state, packets[0]) == (
            None::<Partial>,
            Ok::<Option<Frame>, AttError>(Some(frame)),
        )
    } else {
        let (next, result) = absorbed(state, packets[0]);
        result == Ok::<Option<Frame>, AttError>(None) && gives(next, packets.skip(1), frame)
    }
}

/// A packet is read as it was built.
proof fn lemma_packet_fields(handle: u16, first: bool, data: Seq<u8>)
    requires
        data.len() <= 65_535,
    ensures
        ({
            let raw = acl_packet(handle, first, data);
            &&& raw.len() == 4 + data.len()
            &&& word_at(raw, 2) == data.len()
            &&& raw.subrange(4, 4 + word_at(raw, 2)) == data
            &&& (word_at(raw, 0) as int / 4096 % 4 == 1) == !first
        }),
{
    let raw = acl_packet(handle, first, data);
    let flags = handle as int % 4096 + if first {
        0int
    } else {
        4096int
    };
    lemma_word(flags as u16);
    lemma_word(data.len() as u16);
    assert(raw[0] == word_bytes(flags as u16)[0] && raw[1] == word_bytes(flags as u16)[1]);
    assert(raw[2] == word_bytes(data.len() as u16)[0] && raw[3] == word_bytes(
        data.len() as u16,
    )[1]);
    assert(raw.subrange(4, 4 + word_at(raw, 2)) =~= data);
}

proof fn lemma_rest_is_gathered(
    handle: u16,
    cid: u16,
    pdu: Seq<u8>,
    got: Seq<u8>,
    rest: Seq<u8>,
    max: int,
)
    requires
        0 < max <= 65_535,
        pdu.len() <= 65_535,
        got + rest == pdu,
        rest.len() > 0,
    ensures
        gives(
            Some(Partial { cid, expected: pdu.len(), payload: got }),
            acl_packets(handle, false, rest, max),
            Frame { cid, payload: pdu },
        ),
    decreases rest.len(),
{
    let state = Some(Partial { cid, expected: pdu.len(), payload: got });
    let all = acl_packets(handle, false, rest, max);
    if rest.len() <= max {
        lemma_packet_fields(handle, false, rest);
    } else {
        let head = rest.take(max);
        let tail = rest.skip(max);
        lemma_packet_fields(handle, false, head);
        assert((got + head) + tail =~= pdu);
        lemma_rest_is_gathered(handle, cid, pdu, got + head, tail, max);
        assert(all.skip(1) =~= acl_packets(handle, false, tail, max));
        assert(all[0] == acl_packet(handle, false, head));
        assert(all.len() > 1) by {
            assert(acl_packets(handle, false, tail, max).len() >= 1);
        }
    }
}

/// What is cut into packets comes back whole: a reassembler that is fed the
/// packets of a PDU gives that PDU on its channel with the last one.
pub proof fn lemma_packets_reassemble(
    handle: u16,
    cid: u16,
    pdu: Seq<u8>,
    max: int,
    state: Option<Partial>,
)
    requires
        pdu.len() <= 65_535,
        4 <= max <= 65_535,
    ensures
        gives(
            state,
            acl_packets(handle, true, l2cap_bytes(cid, pdu), max),
            Frame { cid, payload: pdu },
        ),
{
    let data = l2cap_bytes(cid, pdu);
    let all = acl_packets(handle, true, data, max);
    lemma_word(pdu.len() as u16);
    lemma_word(cid);
    let head = if data.len() <= max {
        data
    } else {
        data.take(max)
    };
    assert(head.len() <= 65_535);
    lemma_packet_fields(handle, true, head);
    assert(word_at(head, 0) == pdu.len());
    assert(word_at(head, 2) == cid);
    if data.len() <= max {
        assert(head.skip(4) =~= pdu);
    } else {
        let tail = data.skip(max);
        let got = head.skip(4);
        assert(got + tail =~= pdu);
        lemma_rest_is_gathered(handle, cid, pdu, got, tail, max);
        assert(all.skip(1) =~= acl_packets(handle, false, tail, max));
        assert(all[0] == acl_packet(handle, true, head));
        assert(all.len() > 1) by {
            assert(acl_packets(handle, false, tail, max).len() >= 1);
        }
    }
}

/// Two ends agree on the smaller size of theirs, whoever asks, and never on less than
/// twenty-three. What one end answers the other reads.
pub proof fn lemma_size_is_agreed(ours: u16, theirs: u16)
    ensures
        agreed_mtu(ours, theirs) == agreed_mtu(theirs, ours),
        agreed_mtu(ours, theirs) >= 23,
        ours >= 23 ==> agreed_mtu(ours, theirs) <= ours,
        theirs >= 23 ==> agreed_mtu(ours, theirs) <= theirs,
        23 <= ours <= theirs ==> agreed_mtu(ours, theirs) == ours,
        mtu_in(mtu_response(theirs), ours) == Ok::<u16, AttError>(agreed_mtu(ours, theirs)),
        mtu_request(ours).len() == 3,
        mtu_request(ours)[0] == 0x02,
        mtu_request(ours)[1] as int + 256 * (mtu_request(ours)[2] as int) == ours,
        mtu_response(ours).len() == 3,
        mtu_response(ours)[0] == 0x03,
{
    lemma_word(ours);
    lemma_word(theirs);
    let p = mtu_response(theirs);
    assert(p[0] == 0x03 && p.len() == 3);
    assert(word_at(p, 1) == theirs);
}

/// Entries are read from their own bytes. A service is its first handle, its last and its
/// name; a characteristic is its declaration, its properties, the handle of its value and
/// its name. Numbers have their low byte first.
pub proof fn lemma_entries_are_read_from_their_bytes(p: Seq<u8>, at: int)
    requires
        0 <= at,
        at + 7 <= p.len(),
    ensures
        service_at(p, at, false).start_handle == p[at] + 256 * p[at + 1],
        service_at(p, at, false).end_handle == p[at + 2] + 256 * p[at + 3],
        service_at(p, at, true).start_handle == p[at] + 256 * p[at + 1],
        service_at(p, at, true).end_handle == p[at + 2] + 256 * p[at + 3],
        service_at(p, at, false).uuid == Uuid::Short((p[at + 4] + 256 * p[at + 5]) as u16),
        characteristic_at(p, at, false).declaration_handle == p[at] + 256 * p[at + 1],
        characteristic_at(p, at, false).properties == p[at + 2],
        characteristic_at(p, at, false).value_handle == p[at + 3] + 256 * p[at + 4],
        characteristic_at(p, at, true).declaration_handle == p[at] + 256 * p[at + 1],
        characteristic_at(p, at, true).properties == p[at + 2],
        characteristic_at(p, at, true).value_handle == p[at + 3] + 256 * p[at + 4],
        characteristic_at(p, at, false).uuid == Uuid::Short((p[at + 5] + 256 * p[at + 6]) as u16),
{
}

} // verus!
