//! Events and commands of the Host Controller Interface.

use vstd::prelude::*;

use crate::bytes::{
    high, high_byte, low, low_byte, part, push_word, word, word_at, word_bytes,
};
use crate::text::chars_of;

verus! {

/// Event codes, and the subevent of the LE Meta event that is read here.
pub const DISCONNECTION_COMPLETE: u8 = 0x05;

pub const COMMAND_COMPLETE: u8 = 0x0E;

pub const NUMBER_OF_COMPLETED_PACKETS: u8 = 0x13;

pub const LE_META: u8 = 0x3E;

pub const LE_CIS_ESTABLISHED: u8 = 0x19;

/// Command opcodes.
pub const DISCONNECT: u16 = 0x0406;

pub const READ_RSSI: u16 = 0x1405;

pub const LE_CREATE_CIS: u16 = 0x2064;

pub const LE_REMOVE_CIG: u16 = 0x2065;

pub const LE_SETUP_ISO_DATA_PATH: u16 = 0x206E;

/// Data from the host to the controller.
pub const ISO_PATH_INPUT: u8 = 0;

/// Data from the controller to the host.
pub const ISO_PATH_OUTPUT: u8 = 1;

pub const REASON_REMOTE_USER_TERMINATED: u8 = 0x13;

/// One event from the controller.
#[derive(Debug, PartialEq, Eq)]
pub struct Event {
    pub code: u8,
    pub params: Vec<u8>,
}

impl Clone for Event {
    fn clone(&self) -> (r: Self)
        ensures
            r.code == self.code,
            r.params@ == self.params@,
    {
        Event { code: self.code, params: crate::bytes::copied(self.params.as_slice()) }
    }
}

/// What an event says, whatever holds its parameters.
pub struct EventView {
    pub code: u8,
    pub params: Seq<u8>,
}

impl View for Event {
    type V = EventView;

    open spec fn view(&self) -> EventView {
        EventView { code: self.code, params: self.params@ }
    }
}

/// The event in the bytes that the controller sent: a code, a length and as many
/// parameter bytes as the length says.
pub open spec fn event_in(raw: Seq<u8>) -> Option<EventView> {
    if raw.len() >= 2 && raw.len() >= 2 + raw[1] {
        Some(EventView { code: raw[0], params: raw.subrange(2, 2 + raw[1]) })
    } else {
        None
    }
}

/// The opcode that a Command Complete event answers, and what it returns.
pub open spec fn completed_command(e: EventView) -> Option<(u16, Seq<u8>)> {
    if e.code == COMMAND_COMPLETE && e.params.len() >= 3 {
        Some((word_at(e.params, 1), e.params.skip(3)))
    } else {
        None
    }
}

/// The connection that ended, and why.
pub open spec fn disconnected(e: EventView) -> Option<(u16, u8)> {
    if e.code == DISCONNECTION_COMPLETE && e.params.len() >= 4 && e.params[0] == 0 {
        Some((word_at(e.params, 1), e.params[3]))
    } else {
        None
    }
}

/// The status of an isochronous channel that was asked for, and its handle.
pub open spec fn cis_established(e: EventView) -> Option<(u8, u16)> {
    if e.code == LE_META && e.params.len() >= 4 && e.params[0] == LE_CIS_ESTABLISHED {
        Some((e.params[1], word_at(e.params, 2)))
    } else {
        None
    }
}

/// How many handles a Number Of Completed Packets event reports on.
pub open spec fn completed_count(e: EventView) -> int {
    if e.code == NUMBER_OF_COMPLETED_PACKETS && e.params.len() >= 1 {
        let whole = (e.params.len() - 1) / 4;
        if (e.params[0] as int) < whole {
            e.params[0] as int
        } else {
            whole
        }
    } else {
        0
    }
}

/// Each handle that an event reports on, and how many packets left for it.
pub open spec fn completed_packets(e: EventView) -> Seq<(u16, u16)> {
    Seq::new(
        completed_count(e) as nat,
        |i: int| (word_at(e.params, 1 + 4 * i), word_at(e.params, 3 + 4 * i)),
    )
}

impl Event {
    /// Reads what the controller sent. `None` for anything malformed.
    pub fn parse(raw: &[u8]) -> (r: Option<Event>)
        ensures
            r is Some <==> event_in(raw@) is Some,
            r is Some ==> r->0@ == event_in(raw@)->0,
    {
        if raw.len() < 2 {
            return None;
        }
        let end: usize = 2 + raw[1] as usize;
        if raw.len() < end {
            return None;
        }
        Some(Event { code: raw[0], params: part(raw, 2, end) })
    }

    /// The opcode that this event answers, and the return parameters.
    pub fn command_complete(&self) -> (r: Option<(u16, Vec<u8>)>)
        ensures
            r is Some <==> completed_command(self@) is Some,
            r is Some ==> ({
                let (opcode, params) = r->0;
                completed_command(self@) == Some((opcode, params@))
            }),
    {
        if self.code != COMMAND_COMPLETE || self.params.len() < 3 {
            return None;
        }
        let rest = part(self.params.as_slice(), 3, self.params.len());
        assert(rest@ =~= self.params@.skip(3));
        Some((word(self.params[1], self.params[2]), rest))
    }
}

/// The connection that an event reports as ended, with the reason.
pub fn parse_disconnection_complete(event: &Event) -> (r: Option<(u16, u8)>)
    ensures
        r == disconnected(event@),
{
    let p = &event.params;
    if event.code == DISCONNECTION_COMPLETE && p.len() >= 4 && p[0] == 0 {
        Some((word(p[1], p[2]), p[3]))
    } else {
        None
    }
}

/// Whether an event confirms that a connection has ended.
pub open spec fn confirmed(e: EventView, handle: u16) -> bool {
    disconnected(e) is Some && (disconnected(e)->0).0 == handle
}

/// Whether an event confirms that a connection has ended. The end of another one says
/// nothing of it.
pub fn confirms_disconnection(event: &Event, handle: u16) -> (r: bool)
    ensures
        r == confirmed(event@, handle),
{
    match parse_disconnection_complete(event) {
        Some((closed, _)) => closed == handle,
        None => false,
    }
}

/// The outcome of one isochronous channel: status and handle.
pub fn parse_cis_established(event: &Event) -> (r: Option<(u8, u16)>)
    ensures
        r == cis_established(event@),
{
    let p = &event.params;
    if event.code == LE_META && p.len() >= 4 && p[0] == LE_CIS_ESTABLISHED {
        Some((p[1], word(p[2], p[3])))
    } else {
        None
    }
}

/// How many packets left for each handle since the last report.
pub fn parse_number_of_completed_packets(event: &Event) -> (r: Vec<(u16, u16)>)
    ensures
        r@ == completed_packets(event@),
{
    let mut out: Vec<(u16, u16)> = Vec::new();
    let p = &event.params;
    if event.code != NUMBER_OF_COMPLETED_PACKETS || p.len() < 1 {
        assert(out@ =~= completed_packets(event@));
        return out;
    }
    let whole: usize = (p.len() - 1) / 4;
    let count: usize = if (p[0] as usize) < whole {
        p[0] as usize
    } else {
        whole
    };
    let mut i: usize = 0;
    while i < count
        invariant
            p == &event.params,
            i <= count,
            count == completed_count(event@),
            1 + 4 * count <= p@.len(),
            out@ == completed_packets(event@).take(i as int),
        decreases count - i,
    {
        let at: usize = 1 + 4 * i;
        out.push((word(p[at], p[at + 1]), word(p[at + 2], p[at + 3])));
        assert(out@ =~= completed_packets(event@).take(i + 1));
        i += 1;
    }
    assert(out@ =~= completed_packets(event@));
    out
}

// ---------------------------------------------------------------------------
// Isochronous data
// ---------------------------------------------------------------------------

/// The channel and the audio of a packet that carries a whole SDU: handle and
/// flags, length, perhaps a time stamp, a sequence number, a length, the SDU.
pub open spec fn iso_data_in(raw: Seq<u8>) -> Option<(u16, Seq<u8>)> {
    if raw.len() < 4 {
        None
    } else {
        let flags = word_at(raw, 0) as int;
        let size = word_at(raw, 2) as int % 16_384;
        let start = if flags / 16_384 % 2 == 1 {
            8int
        } else {
            4int
        };
        if flags / 4_096 % 4 != 2 || raw.len() < 4 + size || 4 + size < start + 4 {
            None
        } else {
            let sdu = word_at(raw, start + 2) as int % 4_096;
            if 4 + size < start + 4 + sdu {
                None
            } else {
                Some(((flags % 4_096) as u16, raw.subrange(start + 4, start + 4 + sdu)))
            }
        }
    }
}

/// Reads a packet of isochronous data. `None` for anything that is none.
pub fn parse_iso_data_packet(raw: &[u8]) -> (r: Option<(u16, Vec<u8>)>)
    ensures
        r is Some <==> iso_data_in(raw@) is Some,
        r is Some ==> ({
            let (handle, payload) = r->0;
            iso_data_in(raw@) == Some((handle, payload@))
        }),
{
    if raw.len() < 4 {
        return None;
    }
    let flags: u16 = word(raw[0], raw[1]);
    let size: usize = (word(raw[2], raw[3]) % 16_384) as usize;
    let start: usize = if flags / 16_384 % 2 == 1 {
        8
    } else {
        4
    };
    if flags / 4_096 % 4 != 2 || raw.len() < 4 + size || 4 + size < start + 4 {
        return None;
    }
    let sdu: usize = (word(raw[start + 2], raw[start + 3]) % 4_096) as usize;
    if 4 + size < start + 4 + sdu {
        return None;
    }
    Some((flags % 4_096, part(raw, start + 4, start + 4 + sdu)))
}

// ---------------------------------------------------------------------------
// Commands
// ---------------------------------------------------------------------------

/// A command as it leaves: opcode, length, parameters.
pub open spec fn command_bytes(opcode: u16, params: Seq<u8>) -> Seq<u8> {
    word_bytes(opcode) + seq![params.len() as u8] + params
}

/// Puts the opcode and the length in front of parameters.
fn command(opcode: u16, params: &[u8]) -> (r: Vec<u8>)
    requires
        params@.len() <= 255,
    ensures
        r@ == command_bytes(opcode, params@),
{
    let mut out: Vec<u8> = Vec::new();
    push_word(&mut out, opcode);
    out.push(params.len() as u8);
    crate::bytes::push_part(&mut out, params, 0, params.len());
    assert(params@.subrange(0, params@.len() as int) =~= params@);
    assert(out@ =~= command_bytes(opcode, params@));
    out
}

/// Ends a connection.
pub fn disconnect(handle: u16, reason: u8) -> (r: Vec<u8>)
    ensures
        r@ == command_bytes(DISCONNECT, word_bytes(handle) + seq![reason]),
{
    let params: Vec<u8> = vec![low_byte(handle), high_byte(handle), reason];
    assert(params@ =~= word_bytes(handle) + seq![reason]);
    command(DISCONNECT, params.as_slice())
}

/// Asks how strong the signal of a connection is.
pub fn read_rssi(handle: u16) -> (r: Vec<u8>)
    ensures
        r@ == command_bytes(READ_RSSI, word_bytes(handle)),
{
    let params: Vec<u8> = vec![low_byte(handle), high_byte(handle)];
    assert(params@ =~= word_bytes(handle));
    command(READ_RSSI, params.as_slice())
}

/// Removes an isochronous group.
pub fn le_remove_cig(cig_id: u8) -> (r: Vec<u8>)
    ensures
        r@ == command_bytes(LE_REMOVE_CIG, seq![cig_id]),
{
    let params: Vec<u8> = vec![cig_id];
    assert(params@ =~= seq![cig_id]);
    command(LE_REMOVE_CIG, params.as_slice())
}

/// The channel and connection handles of a request, one pair after the other.
pub open spec fn pair_bytes(pairs: Seq<(u16, u16)>) -> Seq<u8>
    decreases pairs.len(),
{
    if pairs.len() == 0 {
        Seq::empty()
    } else {
        pair_bytes(pairs.drop_last()) + word_bytes(pairs.last().0) + word_bytes(pairs.last().1)
    }
}

/// Asks for isochronous channels, each over the connection it belongs to.
pub fn le_create_cis(pairs: &[(u16, u16)]) -> (r: Vec<u8>)
    requires
        pairs@.len() <= 63,
    ensures
        r@ == command_bytes(LE_CREATE_CIS, seq![pairs@.len() as u8] + pair_bytes(pairs@)),
{
    let mut params: Vec<u8> = vec![pairs.len() as u8];
    let mut i: usize = 0;
    assert(pairs@.take(0) =~= Seq::empty());
    assert(params@ =~= seq![pairs@.len() as u8] + pair_bytes(pairs@.take(0)));
    while i < pairs.len()
        invariant
            i <= pairs@.len() <= 63,
            params@ == seq![pairs@.len() as u8] + pair_bytes(pairs@.take(i as int)),
            params@.len() == 1 + 4 * i,
        decreases pairs@.len() - i,
    {
        let (cis, acl): (u16, u16) = pairs[i];
        push_word(&mut params, cis);
        push_word(&mut params, acl);
        proof {
            let longer = pairs@.take(i + 1);
            assert(longer.drop_last() =~= pairs@.take(i as int));
            assert(params@ =~= seq![pairs@.len() as u8] + pair_bytes(longer));
        }
        i += 1;
    }
    assert(pairs@.take(pairs@.len() as int) =~= pairs@);
    command(LE_CREATE_CIS, params.as_slice())
}

/// The parameters that open a transparent data path: the handle, the direction,
/// the path, the transparent codec, no delay and no codec configuration.
pub open spec fn iso_path_params(handle: u16, direction: u8, path: u8) -> Seq<u8> {
    word_bytes(handle) + seq![direction, path, 0x03, 0, 0, 0, 0, 0, 0, 0, 0]
}

/// Opens the data path of a channel in one direction.
pub fn le_setup_iso_data_path(handle: u16, direction: u8, path: u8) -> (r: Vec<u8>)
    ensures
        r@ == command_bytes(LE_SETUP_ISO_DATA_PATH, iso_path_params(handle, direction, path)),
{
    let params: Vec<u8> = vec![
        low_byte(handle),
        high_byte(handle),
        direction,
        path,
        0x03,
        0,
        0,
        0,
        0,
        0,
        0,
        0,
        0,
    ];
    assert(params@ =~= iso_path_params(handle, direction, path));
    command(LE_SETUP_ISO_DATA_PATH, params.as_slice())
}

// ---------------------------------------------------------------------------
// Names
// ---------------------------------------------------------------------------

/// A reason code in words.
pub open spec fn reason_text(reason: u8) -> Seq<char> {
    if reason == 0x05 {
        "authentication failure"@
    } else if reason == 0x06 {
        "key missing"@
    } else if reason == 0x08 {
        "connection timeout"@
    } else if reason == 0x13 {
        "remote user terminated the connection"@
    } else if reason == 0x14 {
        "remote device is low on resources"@
    } else if reason == 0x15 {
        "remote device is powering off"@
    } else if reason == 0x16 {
        "terminated by the local host"@
    } else if reason == 0x3B {
        "unacceptable connection parameters"@
    } else if reason == 0x3D {
        "integrity check failure"@
    } else if reason == 0x3E {
        "connection failed to be established"@
    } else {
        "unknown reason"@
    }
}

/// Why a link ended, for a person.
pub fn disconnect_reason(reason: u8) -> (r: &'static str)
    ensures
        r@ == reason_text(reason),
{
    match reason {
        0x05 => "authentication failure",
        0x06 => "key missing",
        0x08 => "connection timeout",
        0x13 => "remote user terminated the connection",
        0x14 => "remote device is low on resources",
        0x15 => "remote device is powering off",
        0x16 => "terminated by the local host",
        0x3B => "unacceptable connection parameters",
        0x3D => "integrity check failure",
        0x3E => "connection failed to be established",
        _ => "unknown reason",
    }
}

// ---------------------------------------------------------------------------
// Addresses
// ---------------------------------------------------------------------------

/// A device address, in the order it has on the air: lowest byte first.
#[derive(Debug, Clone, Copy, PartialEq, Eq)]
pub struct BdAddr(pub [u8; 6]);

/// The two digits of a byte, as an address shows it.
pub open spec fn upper_pair(b: u8) -> Seq<char> {
    seq![upper_digit(b as int / 16), upper_digit(b as int % 16)]
}

/// A hexadecimal digit in capitals.
pub open spec fn upper_digit(d: int) -> char {
    if d < 10 {
        ('0' as int + d) as char
    } else {
        ('A' as int + d - 10) as char
    }
}

/// An address as it is shown: highest byte first, with colons between.
pub open spec fn address_text(a: Seq<u8>) -> Seq<char> {
    upper_pair(a[5]) + seq![':'] + upper_pair(a[4]) + seq![':'] + upper_pair(a[3]) + seq![':']
        + upper_pair(a[2]) + seq![':'] + upper_pair(a[1]) + seq![':'] + upper_pair(a[0])
}

/// The value of a hexadecimal digit, in either case.
pub open spec fn digit_value(c: char) -> Option<int> {
    if '0' <= c <= '9' {
        Some(c as int - '0' as int)
    } else if 'A' <= c <= 'F' {
        Some(c as int - 'A' as int + 10)
    } else if 'a' <= c <= 'f' {
        Some(c as int - 'a' as int + 10)
    } else {
        None
    }
}

/// Whether a text has the form of an address: six pairs of digits with colons
/// between.
pub open spec fn is_address(s: Seq<char>) -> bool {
    &&& s.len() == 17
    &&& forall|i: int|
        0 <= i < 17 ==> if i % 3 == 2 {
            (#[trigger] s[i]) == ':'
        } else {
            digit_value(s[i]) is Some
        }
}

/// The byte in the pair of digits at a place.
pub open spec fn pair_value(s: Seq<char>, i: int) -> u8 {
    (16 * digit_value(s[i])->0 + digit_value(s[i + 1])->0) as u8
}

/// The bytes that an address stands for.
pub open spec fn address_bytes(s: Seq<char>) -> Seq<u8> {
    seq![
        pair_value(s, 15),
        pair_value(s, 12),
        pair_value(s, 9),
        pair_value(s, 6),
        pair_value(s, 3),
        pair_value(s, 0),
    ]
}

fn digit_of(c: char) -> (r: Option<u8>)
    ensures
        r is Some <==> digit_value(c) is Some,
        r is Some ==> r->0 == digit_value(c)->0 && r->0 < 16,
{
    if '0' <= c && c <= '9' {
        Some((c as u32 - '0' as u32) as u8)
    } else if 'A' <= c && c <= 'F' {
        Some((c as u32 - 'A' as u32 + 10) as u8)
    } else if 'a' <= c && c <= 'f' {
        Some((c as u32 - 'a' as u32 + 10) as u8)
    } else {
        None
    }
}

fn upper_of(d: u8) -> (r: char)
    requires
        d < 16,
    ensures
        r == upper_digit(d as int),
{
    if d < 10 {
        (0x30 + d) as char
    } else {
        (0x41 + (d - 10)) as char
    }
}

/// Appends the two digits of a byte.
pub fn push_upper_pair(out: &mut String, b: u8)
    ensures
        final(out)@ == old(out)@ + upper_pair(b),
{
    out.push(upper_of(b / 16));
    out.push(upper_of(b % 16));
    assert(out@ =~= old(out)@ + upper_pair(b));
}

impl BdAddr {
    pub open spec fn text(self) -> Seq<char> {
        address_text(self.0@)
    }

    /// Reads an address in its display form.
    pub fn parse(text: &str) -> (r: Option<BdAddr>)
        ensures
            r is Some <==> is_address(text@),
            r is Some ==> (r->0).0@ == address_bytes(text@),
    {
        let chars = chars_of(text);
        if chars.len() != 17 {
            return None;
        }
        let mut bytes: Vec<u8> = Vec::new();
        let mut i: usize = 0;
        while i < 6
            invariant
                i <= 6,
                chars@ == text@,
                chars@.len() == 17,
                bytes@.len() == i,
                forall|j: int| 0 <= j < 3 * i && j < 17 ==> if j % 3 == 2 {
                    (#[trigger] chars@[j]) == ':'
                } else {
                    digit_value(chars@[j]) is Some
                },
                forall|j: int| 0 <= j < i ==> #[trigger] bytes@[j] == pair_value(chars@, 3 * j),
            decreases 6 - i,
        {
            let at: usize = 3 * i;
            let (hi, lo): (Option<u8>, Option<u8>) = (digit_of(chars[at]), digit_of(chars[at + 1]));
            if i < 5 && chars[at + 2] != ':' {
                assert(at + 2 < 17 && (at + 2) % 3 == 2);
                assert(text@[at + 2] != ':');
                return None;
            }
            match (hi, lo) {
                (Some(hi), Some(lo)) => {
                    bytes.push(16 * hi + lo);
                },
                _ => {
                    assert(at % 3 == 0 && (at + 1) % 3 == 1);
                    assert(digit_value(text@[at as int]) is None || digit_value(
                        text@[at + 1],
                    ) is None);
                    return None;
                },
            }
            i += 1;
        }
        let a: [u8; 6] = [bytes[5], bytes[4], bytes[3], bytes[2], bytes[1], bytes[0]];
        assert(a@ =~= address_bytes(text@));
        Some(BdAddr(a))
    }

    /// The display form.
    pub fn to_text(&self) -> (r: String)
        ensures
            r@ == self.text(),
    {
        let mut out = String::new();
        let mut i: usize = 6;
        let ghost shown = self.text();
        while i > 0
            invariant
                i <= 6,
                shown == address_text(self.0@),
                i == 6 ==> out@.len() == 0,
                i < 6 ==> out@ == shown.take(17 - 3 * i),
            decreases i,
        {
            let ghost was = out@;
            if i < 6 {
                out.push(':');
            }
            let b: u8 = self.0[i - 1];
            push_upper_pair(&mut out, b);
            i -= 1;
            proof {
                assert(out@ =~= shown.take(17 - 3 * i)) by {
                    if i == 5 {
                        assert(was =~= Seq::<char>::empty());
                    }
                }
            }
        }
        assert(shown.take(17) =~= shown);
        out
    }
}

/// Six bytes read back from their display form.
pub proof fn lemma_address_text(a: Seq<u8>)
    requires
        a.len() == 6,
    ensures
        is_address(address_text(a)),
        address_bytes(address_text(a)) == a,
{
    let s = address_text(a);
    assert(s.len() == 17);
    assert forall|i: int| 0 <= i < 17 implies if i % 3 == 2 {
        (#[trigger] s[i]) == ':'
    } else {
        digit_value(s[i]) is Some
    } by {
        let b = a[5 - i / 3];
        assert(0 <= b as int / 16 < 16);
        if i % 3 == 0 {
            assert(s[i] == upper_digit(b as int / 16));
        } else if i % 3 == 1 {
            assert(s[i] == upper_digit(b as int % 16));
        }
    }
    assert forall|k: int| 0 <= k < 6 implies #[trigger] pair_value(s, 3 * k) == a[5 - k] by {
        let b = a[5 - k];
        assert(s[3 * k] == upper_digit(b as int / 16));
        assert(s[3 * k + 1] == upper_digit(b as int % 16));
        assert(digit_value(s[3 * k]) == Some(b as int / 16));
        assert(digit_value(s[3 * k + 1]) == Some(b as int % 16));
    }
    assert(address_bytes(s) =~= a) by {
        assert(pair_value(s, 3int * 0) == a[5]);
        assert(pair_value(s, 3int * 1) == a[4]);
        assert(pair_value(s, 3int * 2) == a[3]);
        assert(pair_value(s, 3int * 3) == a[2]);
        assert(pair_value(s, 3int * 4) == a[1]);
        assert(pair_value(s, 3int * 5) == a[0]);
    }
}

/// An address reads back from its display form.
pub proof fn lemma_address_reads_back(a: BdAddr)
    ensures
        is_address(a.text()),
        address_bytes(a.text()) == a.0@,
{
    lemma_address_text(a.0@);
}

/// An event is its code and as many parameters as its length says; what is shorter than
/// it says is none.
pub proof fn lemma_event_is_its_code_and_parameters(code: u8, params: Seq<u8>, more: Seq<u8>)
    requires
        params.len() <= 255,
    ensures
        event_in(seq![code, params.len() as u8] + params + more) == Some(
            EventView { code, params },
        ),
        params.len() > 0 ==> event_in(seq![code, params.len() as u8] + params.drop_last()) is None,
{
    let raw = seq![code, params.len() as u8] + params + more;
    assert(raw[1] == params.len());
    assert(raw.subrange(2, 2 + raw[1]) =~= params);
    if params.len() > 0 {
        let short = seq![code, params.len() as u8] + params.drop_last();
        assert(short[1] == params.len());
    }
}

/// What an event says is where the specification puts it: what completed a command, what
/// ended, which channel came up.
pub proof fn lemma_events_say_what_they_say(e: EventView)
    ensures
        completed_command(e) is Some <==> e.code == 0x0E && e.params.len() >= 3,
        completed_command(e) matches Some((opcode, rest)) ==> opcode == e.params[1] + 256
            * e.params[2] && rest == e.params.skip(3),
        disconnected(e) is Some <==> e.code == 0x05 && e.params.len() >= 4 && e.params[0] == 0,
        disconnected(e) matches Some((handle, reason)) ==> handle == e.params[1] + 256
            * e.params[2] && reason == e.params[3],
        cis_established(e) is Some <==> e.code == 0x3E && e.params.len() >= 4 && e.params[0]
            == 0x19,
        cis_established(e) matches Some((status, handle)) ==> status == e.params[1] && handle
            == e.params[2] + 256 * e.params[3],
{
}

/// Packets that left are counted for every handle that a report names: a handle and a
/// count each, as many as there are.
pub proof fn lemma_every_count_is_read(e: EventView, i: int)
    requires
        e.code == 0x13,
        e.params.len() >= 1,
        e.params.len() >= 1 + 4 * e.params[0],
        0 <= i < e.params[0],
    ensures
        completed_packets(e).len() == e.params[0],
        completed_packets(e)[i].0 == e.params[1 + 4 * i] + 256 * e.params[2 + 4 * i],
        completed_packets(e)[i].1 == e.params[3 + 4 * i] + 256 * e.params[4 + 4 * i],
{
}

/// Audio that comes in is the payload of its packet: a whole one, over the channel in
/// its first twelve bits, behind a time stamp where it says that it has one.
pub proof fn lemma_audio_is_taken_out_of_its_packet(
    handle: u16,
    stamp: Seq<u8>,
    sequence: Seq<u8>,
    payload: Seq<u8>,
)
    requires
        handle < 4096,
        stamp.len() == 0 || stamp.len() == 4,
        sequence.len() == 2,
        payload.len() < 4096,
    ensures
        ({
            let size = stamp.len() + 4 + payload.len();
            let flags = handle as int + 0x2000 + if stamp.len() == 4 {
                0x4000int
            } else {
                0
            };
            let raw = word_bytes(flags as u16) + word_bytes(size as u16) + stamp + sequence
                + word_bytes(payload.len() as u16) + payload;
            iso_data_in(raw) == Some((handle, payload))
        }),
{
    let size = stamp.len() + 4 + payload.len();
    let flags = handle as int + 0x2000 + if stamp.len() == 4 {
        0x4000int
    } else {
        0
    };
    let raw = word_bytes(flags as u16) + word_bytes(size as u16) + stamp + sequence + word_bytes(
        payload.len() as u16,
    ) + payload;
    crate::bytes::lemma_word(flags as u16);
    crate::bytes::lemma_word(size as u16);
    crate::bytes::lemma_word(payload.len() as u16);
    assert(raw[0] == low(flags as u16) && raw[1] == high(flags as u16));
    assert(raw[2] == low(size as u16) && raw[3] == high(size as u16));
    assert(word_at(raw, 0) == flags);
    assert(word_at(raw, 2) == size);
    assert(flags / 16_384 % 2 == if stamp.len() == 4 {
        1int
    } else {
        0
    });
    assert(flags / 4_096 % 4 == 2);
    assert(flags % 4_096 == handle);
    let start = 4 + stamp.len() as int;
    assert(raw[start + 2] == low(payload.len() as u16));
    assert(raw[start + 3] == high(payload.len() as u16));
    assert(word_at(raw, start + 2) == payload.len());
    assert(raw.subrange(start + 4, start + 4 + payload.len()) =~= payload);
}

/// Commands say what they are for, byte by byte.
pub proof fn lemma_commands_say_what_they_are_for(handle: u16, cig_id: u8)
    ensures
        ({
            let c = command_bytes(READ_RSSI, word_bytes(handle));
            c.len() == 5 && c[0] == 0x05 && c[1] == 0x14 && c[2] == 2 && c[3] as int + 256 * (
            c[4] as int) == handle
        }),
        command_bytes(LE_REMOVE_CIG, seq![cig_id]) == seq![0x65u8, 0x20, 1, cig_id],
{
    assert(command_bytes(LE_REMOVE_CIG, seq![cig_id]) =~= seq![0x65u8, 0x20, 1, cig_id]);
}

} // verus!
