//! Devices that answered a scan, and which of them is meant.

use vstd::prelude::*;

use crate::bytes::{copied_words, holds_word};
use crate::hci::BdAddr;
use crate::text::{chars_of, contains, occurs_in, trim, trim_range};

verus! {

/// Services whose presence announces LE Audio.
pub const ASCS: u16 = 0x184E;

pub const PACS: u16 = 0x1850;

pub const CAP: u16 = 0x1853;

/// A device that answered a scan.
#[derive(Debug, PartialEq, Eq)]
pub struct DiscoveredDevice {
    pub address: BdAddr,
    pub address_type: u8,
    pub rssi: i8,
    pub name: Option<String>,
    pub appearance: Option<u16>,
    pub service_uuids: Vec<u16>,
}

/// What a device said, whatever holds it.
pub struct Heard {
    pub address: Seq<u8>,
    pub address_type: u8,
    pub rssi: i8,
    pub name: Option<Seq<char>>,
    pub appearance: Option<u16>,
    pub service_uuids: Seq<u16>,
}

/// A text that may be missing.
pub open spec fn text_of(t: Option<String>) -> Option<Seq<char>> {
    match t {
        Some(t) => Some(t@),
        None => None,
    }
}

impl View for DiscoveredDevice {
    type V = Heard;

    open spec fn view(&self) -> Heard {
        Heard {
            address: self.address.0@,
            address_type: self.address_type,
            rssi: self.rssi,
            name: text_of(self.name),
            appearance: self.appearance,
            service_uuids: self.service_uuids@,
        }
    }
}

/// What devices said.
pub open spec fn heard(v: Seq<DiscoveredDevice>) -> Seq<Heard> {
    v.map_values(|d: DiscoveredDevice| d@)
}

impl Heard {
    /// Whether the device announced an LE Audio service.
    pub open spec fn announces_le_audio(self) -> bool {
        self.service_uuids.contains(ASCS) || self.service_uuids.contains(PACS)
            || self.service_uuids.contains(CAP)
    }

    /// Whether the device gave a name that says something.
    pub open spec fn is_named(self) -> bool {
        match self.name {
            Some(name) => trim(name).len() > 0,
            None => false,
        }
    }

    /// The name, or the address where there is none.
    pub open spec fn shown_name(self) -> Seq<char> {
        if self.is_named() {
            self.name->0
        } else {
            crate::hci::address_text(self.address)
        }
    }
}

/// Copies a text that may be missing.
pub fn copy_text(t: &Option<String>) -> (r: Option<String>)
    ensures
        text_of(r) == text_of(*t),
{
    match t {
        Some(t) => Some(t.as_str().to_owned()),
        None => None,
    }
}

/// Whether anything but white space is in a text.
pub fn says_something(t: &str) -> (r: bool)
    ensures
        r == (trim(t@).len() > 0),
{
    let chars = chars_of(t);
    let (lo, hi): (usize, usize) = trim_range(chars.as_slice(), 0, chars.len());
    assert(chars@.subrange(0, chars@.len() as int) =~= chars@);
    assert(trim(t@).len() == hi - lo);
    lo < hi
}

impl Clone for DiscoveredDevice {
    fn clone(&self) -> (r: Self)
        ensures
            r@ == self@,
    {
        DiscoveredDevice {
            address: self.address,
            address_type: self.address_type,
            rssi: self.rssi,
            name: copy_text(&self.name),
            appearance: self.appearance,
            service_uuids: copied_words(self.service_uuids.as_slice()),
        }
    }
}

impl DiscoveredDevice {
    pub fn is_le_audio(&self) -> (r: bool)
        ensures
            r == self@.announces_le_audio(),
    {
        let ids = self.service_uuids.as_slice();
        holds_word(ids, ASCS) || holds_word(ids, PACS) || holds_word(ids, CAP)
    }

    pub fn is_named(&self) -> (r: bool)
        ensures
            r == self@.is_named(),
    {
        match &self.name {
            Some(name) => says_something(name.as_str()),
            None => false,
        }
    }

    /// The name, or the address where there is none.
    pub fn display_name(&self) -> (r: String)
        ensures
            r@ == self@.shown_name(),
    {
        if self.is_named() {
            if let Some(name) = &self.name {
                return name.as_str().to_owned();
            }
        }
        self.address.to_text()
    }
}

// ---------------------------------------------------------------------------
// Scanning
// ---------------------------------------------------------------------------

/// Numbers with another behind them, unless it is there already.
pub open spec fn with_word(s: Seq<u16>, w: u16) -> Seq<u16> {
    if s.contains(w) {
        s
    } else {
        s.push(w)
    }
}

/// Numbers with others behind them, each once.
pub open spec fn with_words(s: Seq<u16>, more: Seq<u16>) -> Seq<u16>
    decreases more.len(),
{
    if more.len() == 0 {
        s
    } else {
        with_word(with_words(s, more.drop_last()), more.last())
    }
}

/// What is known of a device after one more report of it: a name that was
/// missing is filled in, the stronger signal counts, and services add up.
pub open spec fn merged(known: Heard, report: Heard) -> Heard {
    Heard {
        name: if !known.is_named() && report.is_named() {
            report.name
        } else {
            known.name
        },
        rssi: if report.rssi > known.rssi {
            report.rssi
        } else {
            known.rssi
        },
        service_uuids: with_words(known.service_uuids, report.service_uuids),
        ..known
    }
}

/// The place of a device among others.
pub open spec fn place_of(s: Seq<Heard>, address: Seq<u8>) -> Option<int>
    decreases s.len(),
{
    if s.len() == 0 {
        None
    } else if s[0].address == address {
        Some(0)
    } else {
        match place_of(s.skip(1), address) {
            Some(i) => Some(i + 1),
            None => None,
        }
    }
}

/// What a scan has found after one more report.
pub open spec fn with_report(found: Seq<Heard>, report: Heard) -> Seq<Heard> {
    match place_of(found, report.address) {
        Some(i) => found.update(i, merged(found[i], report)),
        None => found.push(report),
    }
}

fn same_address(a: &BdAddr, b: &BdAddr) -> (r: bool)
    ensures
        r == (a.0@ == b.0@),
{
    let r: bool = a.0[0] == b.0[0] && a.0[1] == b.0[1] && a.0[2] == b.0[2] && a.0[3] == b.0[3]
        && a.0[4] == b.0[4] && a.0[5] == b.0[5];
    assert(r ==> a.0@ =~= b.0@);
    r
}

fn add_words(known: &mut Vec<u16>, more: &[u16])
    ensures
        final(known)@ == with_words(old(known)@, more@),
{
    let ghost was = known@;
    let mut i: usize = 0;
    assert(more@.take(0) =~= Seq::empty());
    while i < more.len()
        invariant
            i <= more@.len(),
            known@ == with_words(was, more@.take(i as int)),
        decreases more@.len() - i,
    {
        let w: u16 = more[i];
        assert(more@.take(i + 1).drop_last() =~= more@.take(i as int));
        if !holds_word(known.as_slice(), w) {
            known.push(w);
        }
        i += 1;
    }
    assert(more@.take(more@.len() as int) =~= more@);
}

proof fn lemma_place_of(s: Seq<Heard>, address: Seq<u8>)
    ensures
        place_of(s, address) matches Some(i) ==> 0 <= i < s.len() && s[i].address == address
            && forall|j: int| 0 <= j < i ==> (#[trigger] s[j]).address != address,
        place_of(s, address) is None ==> forall|j: int|
            0 <= j < s.len() ==> (#[trigger] s[j]).address != address,
    decreases s.len(),
{
    if s.len() > 0 && s[0].address != address {
        lemma_place_of(s.skip(1), address);
        let rest = s.skip(1);
        match place_of(rest, address) {
            Some(i) => {
                assert(s[i + 1] == rest[i]);
                assert forall|j: int| 0 <= j < i + 1 implies (#[trigger] s[j]).address
                    != address by {
                    if j > 0 {
                        assert(rest[j - 1].address != address);
                    }
                }
            },
            None => {
                assert forall|j: int| 0 <= j < s.len() implies (#[trigger] s[j]).address
                    != address by {
                    if j > 0 {
                        assert(rest[j - 1].address != address);
                    }
                }
            },
        }
    }
}

/// Takes in one report of a scan.
///
/// Advertising data can be split across reports. The first report is often
/// nameless and the later scan response carries the local name; discarding every
/// duplicate made the displayed name depend on packet timing.
pub fn merge_report(found: &mut Vec<DiscoveredDevice>, report: &DiscoveredDevice)
    ensures
        heard(final(found)@) == with_report(heard(old(found)@), report@),
{
    let ghost was = found@;
    let ghost s = heard(was);
    let mut i: usize = 0;
    assert(s.skip(0) =~= s);
    while i < found.len()
        invariant
            i <= found@.len(),
            found@ == was,
            was == old(found)@,
            s == heard(was),
            place_of(s, report@.address) == (match place_of(s.skip(i as int), report@.address) {
                Some(k) => Some(k + i),
                None => None::<int>,
            }),
        decreases found@.len() - i,
    {
        proof {
            assert(s.skip(i as int)[0] == was[i as int]@);
            assert(s.skip(i as int).skip(1) =~= s.skip(i + 1));
        }
        if same_address(&found[i].address, &report.address) {
            let known: &DiscoveredDevice = &found[i];
            let mut name = copy_text(&known.name);
            if !known.is_named() && report.is_named() {
                name = copy_text(&report.name);
            }
            let rssi: i8 = if report.rssi > known.rssi {
                report.rssi
            } else {
                known.rssi
            };
            let mut service_uuids = copied_words(known.service_uuids.as_slice());
            add_words(&mut service_uuids, report.service_uuids.as_slice());
            let updated = DiscoveredDevice {
                address: known.address,
                address_type: known.address_type,
                rssi,
                name,
                appearance: known.appearance,
                service_uuids,
            };
            assert(updated@ == merged(s[i as int], report@));
            found.set(i, updated);
            assert(heard(found@) =~= s.update(i as int, updated@));
            return ;
        }
        i += 1;
    }
    let copy = report.clone();
    found.push(copy);
    assert(heard(found@) =~= s.push(copy@));
}

/// A device is listed once, however often it reports, and none that was found is
/// lost.
pub proof fn lemma_report_keeps_devices(found: Seq<Heard>, report: Heard)
    requires
        forall|i: int, j: int|
            0 <= i < j < found.len() ==> (#[trigger] found[i]).address != (
            #[trigger] found[j]).address,
    ensures
        ({
            let now = with_report(found, report);
            &&& forall|i: int, j: int|
                0 <= i < j < now.len() ==> (#[trigger] now[i]).address != (
                #[trigger] now[j]).address
            &&& now.len() >= found.len()
            &&& forall|i: int|
                0 <= i < found.len() ==> (#[trigger] now[i]).address == found[i].address
            &&& exists|i: int| 0 <= i < now.len() && (#[trigger] now[i]).address == report.address
        }),
{
    lemma_place_of(found, report.address);
    let now = with_report(found, report);
    match place_of(found, report.address) {
        Some(i) => {
            assert(now[i].address == report.address);
        },
        None => {
            assert(now[found.len() as int].address == report.address);
        },
    }
}

/// What a scan has found after reports, one after the other.
pub open spec fn gathered(reports: Seq<Heard>) -> Seq<Heard>
    decreases reports.len(),
{
    if reports.len() == 0 {
        Seq::empty()
    } else {
        with_report(gathered(reports.drop_last()), reports.last())
    }
}

/// Takes in every report of a scan.
pub fn gather(reports: &[DiscoveredDevice]) -> (r: Vec<DiscoveredDevice>)
    ensures
        heard(r@) == gathered(heard(reports@)),
{
    let ghost all = heard(reports@);
    let mut found: Vec<DiscoveredDevice> = Vec::new();
    let mut i: usize = 0;
    assert(heard(found@) =~= Seq::empty());
    assert(all.take(0) =~= Seq::empty());
    while i < reports.len()
        invariant
            i <= reports@.len(),
            all == heard(reports@),
            heard(found@) == gathered(all.take(i as int)),
        decreases reports@.len() - i,
    {
        merge_report(&mut found, &reports[i]);
        proof {
            assert(all.take(i + 1).drop_last() =~= all.take(i as int));
            assert(all.take(i + 1).last() == reports@[i as int]@);
        }
        i += 1;
    }
    assert(all.take(all.len() as int) =~= all);
    found
}

/// Whether a device with an address is among others.
pub open spec fn is_among(s: Seq<Heard>, address: Seq<u8>) -> bool {
    exists|i: int| 0 <= i < s.len() && (#[trigger] s[i]).address == address
}

/// A scan lists every device that reported, each once, and no other.
pub proof fn lemma_every_device_is_listed_once(reports: Seq<Heard>)
    ensures
        forall|i: int, j: int|
            0 <= i < j < gathered(reports).len() ==> (#[trigger] gathered(reports)[i]).address != (
            #[trigger] gathered(reports)[j]).address,
        forall|address: Seq<u8>|
            #[trigger] is_among(gathered(reports), address) <==> is_among(reports, address),
        gathered(reports).len() == 0 <==> reports.len() == 0,
    decreases reports.len(),
{
    if reports.len() > 0 {
        let front = reports.drop_last();
        let last = reports.last();
        let before = gathered(front);
        let now = gathered(reports);
        lemma_every_device_is_listed_once(front);
        lemma_report_keeps_devices(before, last);
        lemma_place_of(before, last.address);
        let told = choose|i: int| 0 <= i < now.len() && (#[trigger] now[i]).address == last.address;
        assert(now[told].address == last.address);
        assert forall|address: Seq<u8>|
            #[trigger] is_among(now, address) <==> is_among(reports, address) by {
            assert(reports[reports.len() - 1] == last);
            if is_among(now, address) {
                let i = choose|i: int| 0 <= i < now.len() && (#[trigger] now[i]).address == address;
                if i < before.len() {
                    assert(before[i].address == address);
                    assert(is_among(before, address));
                    assert(is_among(front, address));
                    let k = choose|k: int|
                        0 <= k < front.len() && (#[trigger] front[k]).address == address;
                    assert(reports[k] == front[k]);
                }
            }
            if is_among(reports, address) {
                let k = choose|k: int|
                    0 <= k < reports.len() && (#[trigger] reports[k]).address == address;
                if k < front.len() {
                    assert(front[k] == reports[k]);
                    assert(is_among(front, address));
                    assert(is_among(before, address));
                    let i = choose|i: int|
                        0 <= i < before.len() && (#[trigger] before[i]).address == address;
                    assert(now[i].address == address);
                }
            }
        }
    }
}

/// Whether one device belongs before another in a list: those that announced LE
/// Audio come first, and the stronger signal comes first among equals.
pub open spec fn ranks_before(a: Heard, b: Heard) -> bool {
    if a.announces_le_audio() != b.announces_le_audio() {
        a.announces_le_audio()
    } else {
        a.rssi > b.rssi
    }
}

/// Where a device goes in a list that is in order: behind everything that it does
/// not rank before.
pub open spec fn insertion_point(s: Seq<Heard>, d: Heard) -> int
    decreases s.len(),
{
    if s.len() == 0 || !ranks_before(d, s.last()) {
        s.len() as int
    } else {
        insertion_point(s.drop_last(), d)
    }
}

/// A list put in order, each device in its turn. Devices that rank the same keep
/// the order in which they were found.
pub open spec fn in_order(s: Seq<Heard>) -> Seq<Heard>
    decreases s.len(),
{
    if s.len() == 0 {
        Seq::empty()
    } else {
        let front = in_order(s.drop_last());
        front.insert(insertion_point(front, s.last()), s.last())
    }
}

fn outranks(a: &DiscoveredDevice, b: &DiscoveredDevice) -> (r: bool)
    ensures
        r == ranks_before(a@, b@),
{
    let (first, second): (bool, bool) = (a.is_le_audio(), b.is_le_audio());
    if first != second {
        first
    } else {
        a.rssi > b.rssi
    }
}

/// Puts what a scan has found in order.
pub fn order_found(found: &[DiscoveredDevice]) -> (r: Vec<DiscoveredDevice>)
    ensures
        heard(r@) == in_order(heard(found@)),
{
    let ghost s = heard(found@);
    let mut out: Vec<DiscoveredDevice> = Vec::new();
    let mut i: usize = 0;
    assert(s.take(0) =~= Seq::empty());
    assert(heard(out@) =~= Seq::empty());
    while i < found.len()
        invariant
            i <= found@.len(),
            s == heard(found@),
            heard(out@) == in_order(s.take(i as int)),
        decreases found@.len() - i,
    {
        let device = found[i].clone();
        let ghost was = out@;
        let ghost sorted = heard(was);
        let mut at: usize = out.len();
        assert(sorted.take(at as int) =~= sorted);
        while at > 0 && outranks(&device, &out[at - 1])
            invariant
                out@ == was,
                sorted == heard(was),
                at <= was.len(),
                insertion_point(sorted, device@) == insertion_point(
                    sorted.take(at as int),
                    device@,
                ),
            decreases at,
        {
            assert(sorted.take(at as int).last() == was[at - 1]@);
            assert(sorted.take(at as int).drop_last() =~= sorted.take(at - 1));
            at -= 1;
        }
        proof {
            if at > 0 {
                assert(sorted.take(at as int).last() == was[at - 1]@);
            }
            assert(insertion_point(sorted, device@) == at);
        }
        out.insert(at, device);
        proof {
            assert(heard(out@) =~= sorted.insert(at as int, device@));
            assert(s.take(i + 1).drop_last() =~= s.take(i as int));
            assert(s.take(i + 1).last() == device@);
        }
        i += 1;
    }
    assert(s.take(s.len() as int) =~= s);
    out
}

proof fn lemma_insertion_point(s: Seq<Heard>, d: Heard)
    ensures
        0 <= insertion_point(s, d) <= s.len(),
        forall|i: int| insertion_point(s, d) <= i < s.len() ==> ranks_before(d, #[trigger] s[i]),
        insertion_point(s, d) > 0 ==> !ranks_before(d, s[insertion_point(s, d) - 1]),
    decreases s.len(),
{
    if s.len() > 0 && ranks_before(d, s.last()) {
        let front = s.drop_last();
        lemma_insertion_point(front, d);
        assert forall|i: int| insertion_point(s, d) <= i < s.len() implies ranks_before(
            d,
            #[trigger] s[i],
        ) by {
            if i < front.len() {
                assert(front[i] == s[i]);
            }
        }
    }
}

/// The list is in order, and holds what was found, each as often as it was.
pub proof fn lemma_in_order(s: Seq<Heard>)
    ensures
        forall|i: int, j: int|
            0 <= i < j < in_order(s).len() ==> !ranks_before(
                #[trigger] in_order(s)[j],
                #[trigger] in_order(s)[i],
            ),
        in_order(s).to_multiset() == s.to_multiset(),
    decreases s.len(),
{
    if s.len() > 0 {
        let front = in_order(s.drop_last());
        let d = s.last();
        let at = insertion_point(front, d);
        lemma_in_order(s.drop_last());
        lemma_insertion_point(front, d);
        let now = in_order(s);
        vstd::seq_lib::to_multiset_insert(front, at, d);
        vstd::seq_lib::to_multiset_build(s.drop_last(), d);
        assert(s.drop_last().push(d) =~= s);
        assert forall|i: int, j: int| 0 <= i < j < now.len() implies !ranks_before(
            #[trigger] now[j],
            #[trigger] now[i],
        ) by {
            let a = if i < at {
                i
            } else {
                i - 1
            };
            let b = if j < at {
                j
            } else {
                j - 1
            };
            if i == at {
                assert(now[j] == front[b]);
            } else if j == at {
                assert(now[i] == front[i]);
                if i < at - 1 {
                    assert(!ranks_before(front[at - 1], front[i]));
                }
            } else {
                assert(now[i] == front[a]);
                assert(now[j] == front[b]);
            }
        }
    } else {
        assert(s =~= Seq::empty());
    }
}

// ---------------------------------------------------------------------------
// Choosing
// ---------------------------------------------------------------------------

/// A text in lower case, by the rules of Unicode.
pub uninterp spec fn lowered(text: Seq<char>) -> Seq<char>;

/// `str::to_lowercase`: the lowercase form of a text, which depends on the text
/// alone. Which form that is, the tables of Unicode say.
#[verifier::external_body]
fn to_lowercase(text: &str) -> (r: String)
    ensures
        r@ == lowered(text@),
{
    text.to_lowercase()
}

/// The first name that holds a text.
pub open spec fn first_holding(names: Seq<Option<Seq<char>>>, wanted: Seq<char>) -> Option<int>
    decreases names.len(),
{
    if names.len() == 0 {
        None
    } else if names[0] is Some && occurs_in(wanted, names[0]->0) {
        Some(0)
    } else {
        match first_holding(names.skip(1), wanted) {
            Some(i) => Some(i + 1),
            None => None,
        }
    }
}

/// Whether a device is the likeliest: nothing announces LE Audio where it does
/// not, nothing of its kind is stronger, and nothing behind it is as good.
pub open spec fn is_likeliest(s: Seq<Heard>, i: int) -> bool {
    &&& 0 <= i < s.len()
    &&& forall|j: int| 0 <= j < i ==> !ranks_before(#[trigger] s[j], s[i])
    &&& forall|j: int| i < j < s.len() ==> ranks_before(s[i], #[trigger] s[j])
}

/// Names in lower case.
pub open spec fn lowered_names(s: Seq<Heard>) -> Seq<Option<Seq<char>>> {
    s.map_values(
        |d: Heard|
            match d.name {
                Some(name) => Some(lowered(name)),
                None => None,
            },
    )
}

/// Names that may be missing.
pub open spec fn names_of(v: Seq<Option<String>>) -> Seq<Option<Seq<char>>> {
    v.map_values(|t: Option<String>| text_of(t))
}

/// Picks a device by its name, where one is wanted and found, and else the
/// likeliest. `names` are the names of the devices in the form in which `wanted`
/// is looked for.
pub fn pick_device(
    devices: &[DiscoveredDevice],
    names: &[Option<String>],
    wanted: Option<&str>,
) -> (r: Option<usize>)
    requires
        names@.len() == devices@.len(),
    ensures
        r is Some <==> devices@.len() > 0,
        r matches Some(i) ==> i < devices@.len() && match (match wanted {
            Some(w) => first_holding(names_of(names@), w@),
            None => None,
        }) {
            Some(k) => i == k,
            None => is_likeliest(heard(devices@), i as int),
        },
{
    if let Some(part) = wanted {
        let needle = chars_of(part);
        let ghost s = names_of(names@);
        let mut i: usize = 0;
        assert(s.skip(0) =~= s);
        while i < names.len()
            invariant
                i <= names@.len(),
                s == names_of(names@),
                needle@ == part@,
                wanted == Some(part),
                names@.len() == devices@.len(),
                first_holding(s, part@) == (match first_holding(s.skip(i as int), part@) {
                    Some(k) => Some(k + i),
                    None => None::<int>,
                }),
            decreases names@.len() - i,
        {
            assert(s.skip(i as int)[0] == text_of(names@[i as int]));
            assert(s.skip(i as int).skip(1) =~= s.skip(i + 1));
            if let Some(name) = &names[i] {
                let hay = chars_of(name.as_str());
                if contains(hay.as_slice(), needle.as_slice()) {
                    return Some(i);
                }
            }
            i += 1;
        }
    }
    let ghost s = heard(devices@);
    if devices.len() == 0 {
        return None;
    }
    let mut best: usize = 0;
    let mut i: usize = 1;
    while i < devices.len()
        invariant
            best < i <= devices@.len(),
            s == heard(devices@),
            forall|j: int| 0 <= j < best ==> !ranks_before(#[trigger] s[j], s[best as int]),
            forall|j: int| best < j < i ==> ranks_before(s[best as int], #[trigger] s[j]),
        decreases devices@.len() - i,
    {
        assert(s[best as int] == devices@[best as int]@ && s[i as int] == devices@[i as int]@);
        if !outranks(&devices[best], &devices[i]) {
            best = i;
        }
        i += 1;
    }
    assert(is_likeliest(s, best as int));
    Some(best)
}

/// Picks the device that looks most like the headphones the user means.
pub fn best_match<'a>(devices: &'a [DiscoveredDevice], name_hint: Option<&str>) -> (r: Option<
    &'a DiscoveredDevice,
>)
    ensures
        r is Some <==> devices@.len() > 0,
        r is Some ==> exists|i: int|
            0 <= i < devices@.len() && *r->0 == #[trigger] devices@[i] && match (
            match name_hint {
                Some(hint) => first_holding(lowered_names(heard(devices@)), lowered(hint@)),
                None => None,
            }) {
                Some(k) => i == k,
                None => is_likeliest(heard(devices@), i),
            },
{
    let mut names: Vec<Option<String>> = Vec::new();
    let ghost wanted_names = lowered_names(heard(devices@));
    let mut i: usize = 0;
    while i < devices.len()
        invariant
            i <= devices@.len(),
            wanted_names == lowered_names(heard(devices@)),
            names_of(names@) == wanted_names.take(i as int),
            names@.len() == i,
        decreases devices@.len() - i,
    {
        let ghost was = names@;
        let name: Option<String> = match &devices[i].name {
            Some(name) => Some(to_lowercase(name.as_str())),
            None => None,
        };
        names.push(name);
        proof {
            assert(names_of(names@) =~= names_of(was).push(text_of(name)));
            assert(wanted_names[i as int] == text_of(name));
            assert(names_of(names@) =~= wanted_names.take(i + 1));
        }
        i += 1;
    }
    assert(wanted_names.take(wanted_names.len() as int) =~= wanted_names);
    let picked: Option<usize> = match name_hint {
        Some(hint) => {
            let wanted = to_lowercase(hint);
            pick_device(devices, names.as_slice(), Some(wanted.as_str()))
        },
        None => pick_device(devices, names.as_slice(), None),
    };
    match picked {
        Some(i) => {
            assert(devices@[i as int] == devices@[i as int]);
            Some(&devices[i])
        },
        None => None,
    }
}

/// Parses an address in the usual display form.
pub fn parse_address(text: &str) -> (r: Option<BdAddr>)
    ensures
        r is Some <==> crate::hci::is_address(text@),
        r is Some ==> (r->0).0@ == crate::hci::address_bytes(text@),
{
    BdAddr::parse(text)
}

// ---------------------------------------------------------------------------
// What holds of a scan
// ---------------------------------------------------------------------------

proof fn lemma_with_words(s: Seq<u16>, more: Seq<u16>, w: u16)
    ensures
        with_words(s, more).contains(w) <==> s.contains(w) || more.contains(w),
    decreases more.len(),
{
    if more.len() > 0 {
        let front = more.drop_last();
        let last = more.last();
        let before = with_words(s, front);
        let now = with_words(s, more);
        lemma_with_words(s, front, w);
        assert(more[more.len() - 1] == last);
        if front.contains(w) {
            let i = choose|i: int| 0 <= i < front.len() && front[i] == w;
            assert(more[i] == w);
        }
        if more.contains(w) && w != last {
            let i = choose|i: int| 0 <= i < more.len() && more[i] == w;
            assert(front[i] == w);
        }
        if !before.contains(last) {
            assert(now == before.push(last));
            assert(now[before.len() as int] == last);
            if before.contains(w) {
                let i = choose|i: int| 0 <= i < before.len() && before[i] == w;
                assert(now[i] == w);
            }
            if now.contains(w) && w != last {
                let i = choose|i: int| 0 <= i < now.len() && now[i] == w;
                assert(before[i] == w);
            }
        }
    }
}

/// Whether what is said of a device is what its reports say together: the strongest
/// signal of them, every service that one of them announced and no other, and a name
/// where one of them has one.
pub open spec fn sums_up(d: Heard, reports: Seq<Heard>) -> bool {
    &&& forall|i: int|
        0 <= i < reports.len() && (#[trigger] reports[i]).address == d.address ==> d.rssi
            >= reports[i].rssi
    &&& exists|i: int|
        0 <= i < reports.len() && (#[trigger] reports[i]).address == d.address && reports[i].rssi
            == d.rssi
    &&& forall|uuid: u16| #[trigger] d.service_uuids.contains(uuid) <==> announced(reports, d.address, uuid)
    &&& d.is_named() <==> is_named_in(reports, d.address)
}

/// Whether a report of an address announces a service.
pub open spec fn announced(reports: Seq<Heard>, address: Seq<u8>, uuid: u16) -> bool {
    exists|i: int|
        0 <= i < reports.len() && (#[trigger] reports[i]).address == address
            && reports[i].service_uuids.contains(uuid)
}

/// Whether a report of an address has a name.
pub open spec fn is_named_in(reports: Seq<Heard>, address: Seq<u8>) -> bool {
    exists|i: int|
        0 <= i < reports.len() && (#[trigger] reports[i]).address == address
            && reports[i].is_named()
}

proof fn lemma_one_more_report(reports: Seq<Heard>, r: Heard, address: Seq<u8>)
    ensures
        forall|uuid: u16| #[trigger]
            announced(reports.push(r), address, uuid) <==> announced(reports, address, uuid) || (
            r.address == address && r.service_uuids.contains(uuid)),
        is_named_in(reports.push(r), address) <==> is_named_in(reports, address) || (r.address
            == address && r.is_named()),
{
    let all = reports.push(r);
    assert(all[reports.len() as int] == r);
    assert forall|uuid: u16| #[trigger]
        announced(all, address, uuid) <==> announced(reports, address, uuid) || (r.address
            == address && r.service_uuids.contains(uuid)) by {
        if announced(reports, address, uuid) {
            let i = choose|i: int|
                0 <= i < reports.len() && (#[trigger] reports[i]).address == address
                    && reports[i].service_uuids.contains(uuid);
            assert(all[i] == reports[i]);
        }
        if announced(all, address, uuid) {
            let i = choose|i: int|
                0 <= i < all.len() && (#[trigger] all[i]).address == address
                    && all[i].service_uuids.contains(uuid);
            if i < reports.len() {
                assert(reports[i] == all[i]);
            }
        }
    }
    if is_named_in(reports, address) {
        let i = choose|i: int|
            0 <= i < reports.len() && (#[trigger] reports[i]).address == address
                && reports[i].is_named();
        assert(all[i] == reports[i]);
    }
    if is_named_in(all, address) {
        let i = choose|i: int|
            0 <= i < all.len() && (#[trigger] all[i]).address == address && all[i].is_named();
        if i < reports.len() {
            assert(reports[i] == all[i]);
        }
    }
}

proof fn lemma_merged_sums_up(known: Heard, reports: Seq<Heard>, r: Heard)
    requires
        sums_up(known, reports),
        r.address == known.address,
    ensures
        sums_up(merged(known, r), reports.push(r)),
{
    let all = reports.push(r);
    let d = merged(known, r);
    assert(all[reports.len() as int] == r);
    lemma_one_more_report(reports, r, known.address);
    let i = choose|i: int|
        0 <= i < reports.len() && (#[trigger] reports[i]).address == known.address
            && reports[i].rssi == known.rssi;
    assert(all[i] == reports[i]);
    assert forall|i: int|
        0 <= i < all.len() && (#[trigger] all[i]).address == d.address implies d.rssi
        >= all[i].rssi by {
        if i < reports.len() {
            assert(reports[i] == all[i]);
        }
    }
    assert forall|uuid: u16| #[trigger]
        d.service_uuids.contains(uuid) <==> announced(all, d.address, uuid) by {
        lemma_with_words(known.service_uuids, r.service_uuids, uuid);
        assert(known.service_uuids.contains(uuid) <==> announced(reports, known.address, uuid));
    }
}

proof fn lemma_untouched_sums_up(d: Heard, reports: Seq<Heard>, r: Heard)
    requires
        sums_up(d, reports),
        r.address != d.address,
    ensures
        sums_up(d, reports.push(r)),
{
    let all = reports.push(r);
    lemma_one_more_report(reports, r, d.address);
    let i = choose|i: int|
        0 <= i < reports.len() && (#[trigger] reports[i]).address == d.address && reports[i].rssi
            == d.rssi;
    assert(all[i] == reports[i]);
    assert forall|i: int|
        0 <= i < all.len() && (#[trigger] all[i]).address == d.address implies d.rssi
        >= all[i].rssi by {
        if i < reports.len() {
            assert(reports[i] == all[i]);
        }
    }
    assert forall|uuid: u16| #[trigger]
        d.service_uuids.contains(uuid) <==> announced(all, d.address, uuid) by {
        assert(d.service_uuids.contains(uuid) <==> announced(reports, d.address, uuid));
    }
}

proof fn lemma_first_report_sums_up(reports: Seq<Heard>, r: Heard)
    requires
        !is_among(reports, r.address),
    ensures
        sums_up(r, reports.push(r)),
{
    let all = reports.push(r);
    assert(all[reports.len() as int] == r);
    lemma_one_more_report(reports, r, r.address);
    assert forall|i: int| 0 <= i < reports.len() implies (#[trigger] reports[i]).address
        != r.address by {}
    assert forall|i: int|
        0 <= i < all.len() && (#[trigger] all[i]).address == r.address implies r.rssi
        >= all[i].rssi by {
        if i < reports.len() {
            assert(reports[i] == all[i]);
        }
    }
}

/// Reports of a device add up: advertising data is split across them, and nothing of
/// what any of them said is lost.
pub proof fn lemma_reports_add_up(reports: Seq<Heard>, k: int)
    requires
        0 <= k < gathered(reports).len(),
    ensures
        sums_up(gathered(reports)[k], reports),
    decreases reports.len(),
{
    let front = reports.drop_last();
    let r = reports.last();
    let before = gathered(front);
    lemma_place_of(before, r.address);
    lemma_every_device_is_listed_once(front);
    assert(front.push(r) =~= reports);
    match place_of(before, r.address) {
        Some(i) => {
            lemma_reports_add_up(front, k);
            if k == i {
                lemma_merged_sums_up(before[i], front, r);
            } else {
                assert(before[k].address != r.address) by {
                    if k < i {
                        assert(before[k].address != before[i].address);
                    } else {
                        assert(before[i].address != before[k].address);
                    }
                }
                lemma_untouched_sums_up(before[k], front, r);
            }
        },
        None => {
            if k < before.len() {
                lemma_reports_add_up(front, k);
                assert(before[k].address != r.address);
                lemma_untouched_sums_up(before[k], front, r);
            } else {
                assert(!is_among(front, r.address)) by {
                    assert(!is_among(before, r.address));
                }
                lemma_first_report_sums_up(front, r);
            }
        },
    }
}

/// Whoever answered is listed, whatever it announced.
pub proof fn lemma_whoever_answers_is_listed(answers: Seq<Heard>, i: int)
    requires
        0 <= i < answers.len(),
    ensures
        exists|j: int|
            0 <= j < in_order(gathered(answers)).len() && (
            #[trigger] in_order(gathered(answers))[j]).address == answers[i].address,
{
    let found = gathered(answers);
    let list = in_order(found);
    lemma_every_device_is_listed_once(answers);
    lemma_in_order(found);
    assert(is_among(answers, answers[i].address));
    assert(is_among(found, answers[i].address));
    let k = choose|k: int|
        0 <= k < found.len() && (#[trigger] found[k]).address == answers[i].address;
    vstd::seq_lib::to_multiset_contains(found, found[k]);
    vstd::seq_lib::to_multiset_contains(list, found[k]);
    assert(found.contains(found[k]));
    let j = choose|j: int| 0 <= j < list.len() && list[j] == found[k];
    assert(list[j].address == answers[i].address);
}

/// In a list the likely headphones come first: whatever announced one of the services of
/// LE Audio, 0x184E, 0x1850 or 0x1853, comes before whatever did not, and of two that
/// are alike in that the stronger does.
pub proof fn lemma_likely_headphones_come_first(s: Seq<Heard>, i: int, j: int)
    requires
        0 <= i < j < in_order(s).len(),
    ensures
        ({
            let a = in_order(s)[i];
            let b = in_order(s)[j];
            let first = a.service_uuids.contains(0x184E) || a.service_uuids.contains(0x1850)
                || a.service_uuids.contains(0x1853);
            let second = b.service_uuids.contains(0x184E) || b.service_uuids.contains(0x1850)
                || b.service_uuids.contains(0x1853);
            &&& second ==> first
            &&& first == second ==> a.rssi >= b.rssi
        }),
{
    lemma_in_order(s);
    assert(!ranks_before(in_order(s)[j], in_order(s)[i]));
}

/// A name that is looked for is found in the first device that has it in its own, and
/// where none has it, in none.
pub proof fn lemma_first_holding(names: Seq<Option<Seq<char>>>, wanted: Seq<char>)
    ensures
        first_holding(names, wanted) matches Some(i) ==> {
            &&& 0 <= i < names.len()
            &&& names[i] matches Some(name) && occurs_in(wanted, name)
            &&& forall|k: int|
                0 <= k < i ==> ((#[trigger] names[k]) is None || !occurs_in(wanted, names[k]->0))
        },
        first_holding(names, wanted) is None ==> forall|k: int|
            0 <= k < names.len() ==> ((#[trigger] names[k]) is None || !occurs_in(
                wanted,
                names[k]->0,
            )),
    decreases names.len(),
{
    if names.len() > 0 && !(names[0] is Some && occurs_in(wanted, names[0]->0)) {
        let rest = names.skip(1);
        lemma_first_holding(rest, wanted);
        assert forall|k: int| 0 < k < names.len() implies (#[trigger] names[k]) == rest[k - 1] by {}
        match first_holding(rest, wanted) {
            Some(i) => {
                assert(names[i + 1] == rest[i]);
                assert forall|k: int| 0 <= k < i + 1 implies ((#[trigger] names[k]) is None
                    || !occurs_in(wanted, names[k]->0)) by {
                    if k > 0 {
                        assert(rest[k - 1] is None || !occurs_in(wanted, rest[k - 1]->0));
                    }
                }
            },
            None => {
                assert forall|k: int| 0 <= k < names.len() implies ((#[trigger] names[k]) is None
                    || !occurs_in(wanted, names[k]->0)) by {
                    if k > 0 {
                        assert(rest[k - 1] is None || !occurs_in(wanted, rest[k - 1]->0));
                    }
                }
            },
        }
    }
}

/// The likeliest device is one of LE Audio if any is, and of those the strongest.
pub proof fn lemma_likeliest_is_strongest(s: Seq<Heard>, i: int, j: int)
    requires
        is_likeliest(s, i),
        0 <= j < s.len(),
    ensures
        s[j].announces_le_audio() ==> s[i].announces_le_audio(),
        s[j].announces_le_audio() == s[i].announces_le_audio() ==> s[i].rssi >= s[j].rssi,
{
    if j < i {
        assert(!ranks_before(s[j], s[i]));
    } else if j > i {
        assert(ranks_before(s[i], s[j]));
    }
}

} // verus!
