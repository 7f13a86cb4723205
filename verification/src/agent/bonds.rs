//! The devices that were paired with.

use vstd::prelude::*;

use crate::agent::message::{known, Known};
use crate::text::same;

verus! {

/// A device that was paired with, and the key that came of it.
#[derive(Debug)]
pub struct Bond {
    pub address: String,
    /// From the advertisement that led to the bond. Without it a later reconnect
    /// has to guess, and guessing wrong never completes.
    pub address_type: u8,
    pub name: String,
    pub long_term_key: [u8; 16],
    pub le_audio: bool,
}

/// What a bond holds, whatever holds it.
pub struct Tie {
    pub address: Seq<char>,
    pub address_type: u8,
    pub name: Seq<char>,
    pub long_term_key: Seq<u8>,
    pub le_audio: bool,
}

impl View for Bond {
    type V = Tie;

    open spec fn view(&self) -> Tie {
        Tie {
            address: self.address@,
            address_type: self.address_type,
            name: self.name@,
            long_term_key: self.long_term_key@,
            le_audio: self.le_audio,
        }
    }
}

/// The bonds, one for each address.
#[derive(Debug)]
pub struct BondStore {
    bonds: Vec<Bond>,
}

/// What bonds hold.
pub open spec fn ties(s: Seq<Bond>) -> Seq<Tie> {
    Seq::new(s.len(), |i: int| s[i]@)
}

impl View for BondStore {
    type V = Seq<Tie>;

    closed spec fn view(&self) -> Seq<Tie> {
        ties(self.bonds@)
    }
}

/// Whether no address has two bonds.
pub open spec fn one_each(bonds: Seq<Tie>) -> bool {
    forall|i: int, j: int|
        0 <= i < j < bonds.len() ==> #[trigger] bonds[i].address != #[trigger] bonds[j].address
}

/// Where the bond of an address stands, or the end.
pub open spec fn bond_at(bonds: Seq<Tie>, address: Seq<char>) -> int
    decreases bonds.len(),
{
    if bonds.len() == 0 || bonds[0].address == address {
        0
    } else {
        1 + bond_at(bonds.skip(1), address)
    }
}

/// The bond of an address.
pub open spec fn bond_of(bonds: Seq<Tie>, address: Seq<char>) -> Option<Tie> {
    let at = bond_at(bonds, address);
    if at < bonds.len() {
        Some(bonds[at])
    } else {
        None
    }
}

/// The bonds with one more, which takes the place of the one that its address had.
pub open spec fn with_bond(bonds: Seq<Tie>, bond: Tie) -> Seq<Tie> {
    let at = bond_at(bonds, bond.address);
    if at < bonds.len() {
        bonds.update(at, bond)
    } else {
        bonds.push(bond)
    }
}

/// The bonds without that of an address.
pub open spec fn without_bond(bonds: Seq<Tie>, address: Seq<char>) -> Seq<Tie> {
    let at = bond_at(bonds, address);
    if at < bonds.len() {
        bonds.remove(at)
    } else {
        bonds
    }
}

/// What the application is told of a bond.
pub open spec fn told_of(bonds: Seq<Tie>) -> Seq<(Seq<char>, Seq<char>, bool)> {
    Seq::new(bonds.len(), |i: int| (bonds[i].address, bonds[i].name, bonds[i].le_audio))
}

/// A bond that is found stands at its place, and it is the first of its address.
pub proof fn lemma_bond_at(bonds: Seq<Tie>, address: Seq<char>)
    ensures
        0 <= bond_at(bonds, address) <= bonds.len(),
        bond_at(bonds, address) < bonds.len() ==> bonds[bond_at(bonds, address)].address
            == address,
        forall|i: int| 0 <= i < bond_at(bonds, address) ==> bonds[i].address != address,
    decreases bonds.len(),
{
    if bonds.len() > 0 && bonds[0].address != address {
        let rest = bonds.skip(1);
        lemma_bond_at(rest, address);
        assert forall|i: int| 0 <= i < bond_at(bonds, address) implies bonds[i].address
            != address by {
            if i > 0 {
                assert(rest[i - 1] == bonds[i]);
            }
        }
    }
}

impl BondStore {
    /// Whether no address has two bonds.
    pub open spec fn wf(self) -> bool {
        one_each(self@)
    }

    pub fn new() -> (r: Self)
        ensures
            r.wf(),
            r@ == Seq::<Tie>::empty(),
    {
        let r = BondStore { bonds: Vec::new() };
        assert(r@ =~= Seq::<Tie>::empty());
        r
    }

    pub fn len(&self) -> (r: usize)
        ensures
            r == self@.len(),
    {
        self.bonds.len()
    }

    fn place(&self, address: &str) -> (r: usize)
        ensures
            r == bond_at(self@, address@),
            r <= self@.len(),
    {
        let ghost all = self@;
        let mut i: usize = 0;
        assert(all.skip(0) =~= all);
        while i < self.bonds.len()
            invariant
                i <= self.bonds@.len(),
                all == self@,
                bond_at(all, address@) == i + bond_at(all.skip(i as int), address@),
            decreases self.bonds@.len() - i,
        {
            assert(all.skip(i as int)[0] == self.bonds@[i as int]@);
            assert(all.skip(i as int).skip(1) =~= all.skip(i + 1));
            if same(self.bonds[i].address.as_str(), address) {
                return i;
            }
            i += 1;
        }
        i
    }

    pub fn get(&self, address: &str) -> (r: Option<&Bond>)
        ensures
            match r {
                Some(bond) => bond_of(self@, address@) == Some(bond@),
                None => bond_of(self@, address@) is None,
            },
    {
        let at: usize = self.place(address);
        if at < self.bonds.len() {
            Some(&self.bonds[at])
        } else {
            None
        }
    }

    pub fn contains(&self, address: &str) -> (r: bool)
        ensures
            r == (bond_of(self@, address@) is Some),
    {
        self.get(address).is_some()
    }

    /// Remembers a bond. One that its address had before is forgotten.
    pub fn insert(&mut self, bond: Bond)
        requires
            old(self).wf(),
        ensures
            final(self).wf(),
            final(self)@ == with_bond(old(self)@, bond@),
    {
        let at: usize = self.place(bond.address.as_str());
        if at < self.bonds.len() {
            self.bonds.set(at, bond);
        } else {
            self.bonds.push(bond);
        }
        assert(self@ =~= with_bond(old(self)@, bond@));
        proof {
            lemma_one_bond_each(old(self)@, bond@, bond@.address);
        }
    }

    /// Forgets a bond, and says whether there was one.
    pub fn remove(&mut self, address: &str) -> (r: bool)
        requires
            old(self).wf(),
        ensures
            final(self).wf(),
            bond_of(final(self)@, address@) is None,
            final(self)@ == without_bond(old(self)@, address@),
            r == (bond_of(old(self)@, address@) is Some),
    {
        let at: usize = self.place(address);
        proof {
            lemma_one_left(self@, address@);
            lemma_forgotten_bond_is_gone(self@, address@);
        }
        if at < self.bonds.len() {
            self.bonds.remove(at);
            assert(self@ =~= without_bond(old(self)@, address@));
            true
        } else {
            false
        }
    }

    /// What the application is told of the bonds.
    pub fn all(&self) -> (r: Vec<Known>)
        ensures
            known(r@) == told_of(self@),
    {
        let mut out: Vec<Known> = Vec::new();
        let mut i: usize = 0;
        while i < self.bonds.len()
            invariant
                i <= self.bonds@.len(),
                known(out@) == told_of(self@).take(i as int),
            decreases self.bonds@.len() - i,
        {
            let bond: &Bond = &self.bonds[i];
            let ghost was = out@;
            out.push(
                Known {
                    address: bond.address.as_str().to_owned(),
                    name: bond.name.as_str().to_owned(),
                    le_audio: bond.le_audio,
                },
            );
            assert(known(out@) =~= known(was).push((bond.address@, bond.name@, bond.le_audio)));
            assert(known(out@) =~= told_of(self@).take(i + 1));
            i += 1;
        }
        assert(told_of(self@).take(self@.len() as int) =~= told_of(self@));
        out
    }
}

// ---------------------------------------------------------------------------
// Laws
// ---------------------------------------------------------------------------

/// A bond that was remembered is found under its address, and no other bond
/// changes.
pub proof fn lemma_remembered_bond_is_found(bonds: Seq<Tie>, bond: Tie, other: Seq<char>)
    ensures
        bond_of(with_bond(bonds, bond), bond.address) == Some(bond),
        other != bond.address ==> bond_of(with_bond(bonds, bond), other) == bond_of(bonds, other),
{
    let now = with_bond(bonds, bond);
    lemma_bond_at(bonds, bond.address);
    lemma_bond_at(now, bond.address);
    let at = bond_at(bonds, bond.address);
    assert(now[at] == bond);
    let found = bond_at(now, bond.address);
    if found < at {
        assert(now[found] == bonds[found]);
    }
    if other != bond.address {
        lemma_bond_at(bonds, other);
        lemma_bond_at(now, other);
        let a = bond_at(bonds, other);
        let b = bond_at(now, other);
        if a < b {
            assert(a < bonds.len() ==> now[a] == bonds[a]);
        }
        if b < a {
            assert(b < now.len());
            assert(b != at);
            assert(now[b] == bonds[b]);
        }
    }
}

proof fn lemma_one_left(bonds: Seq<Tie>, address: Seq<char>)
    requires
        one_each(bonds),
    ensures
        one_each(without_bond(bonds, address)),
{
    lemma_bond_at(bonds, address);
    let from = bond_at(bonds, address);
    let left = without_bond(bonds, address);
    if from < bonds.len() {
        assert forall|i: int, j: int| 0 <= i < j < left.len() implies #[trigger] left[i].address
            != #[trigger] left[j].address by {
            let a = if i < from {
                i
            } else {
                i + 1
            };
            let b = if j < from {
                j
            } else {
                j + 1
            };
            assert(left[i] == bonds[a] && left[j] == bonds[b]);
        }
    }
}

/// Remembering and forgetting leave one bond to an address.
pub proof fn lemma_one_bond_each(bonds: Seq<Tie>, bond: Tie, address: Seq<char>)
    requires
        one_each(bonds),
    ensures
        one_each(with_bond(bonds, bond)),
        one_each(without_bond(bonds, address)),
{
    lemma_one_left(bonds, address);
    lemma_bond_at(bonds, bond.address);
    let at = bond_at(bonds, bond.address);
    let now = with_bond(bonds, bond);
    assert forall|i: int, j: int| 0 <= i < j < now.len() implies #[trigger] now[i].address
        != #[trigger] now[j].address by {
        if i < bonds.len() && i != at {
            assert(now[i] == bonds[i]);
        }
        if j < bonds.len() && j != at {
            assert(now[j] == bonds[j]);
        }
    }
}

/// A bond that was forgotten is not found.
pub proof fn lemma_forgotten_bond_is_gone(bonds: Seq<Tie>, address: Seq<char>)
    requires
        one_each(bonds),
    ensures
        bond_of(without_bond(bonds, address), address) is None,
{
    let now = without_bond(bonds, address);
    lemma_bond_at(bonds, address);
    lemma_bond_at(now, address);
    let at = bond_at(bonds, address);
    let found = bond_at(now, address);
    if found < now.len() {
        if at < bonds.len() {
            if found < at {
                assert(now[found] == bonds[found]);
            } else {
                assert(now[found] == bonds[found + 1]);
            }
        }
    }
}

/// Forgetting one bond costs no other.
pub proof fn lemma_other_bond_is_not_forgotten(
    bonds: Seq<Tie>,
    address: Seq<char>,
    other: Seq<char>,
)
    requires
        other != address,
    ensures
        bond_of(without_bond(bonds, address), other) == bond_of(bonds, other),
{
    let now = without_bond(bonds, address);
    lemma_bond_at(bonds, address);
    lemma_bond_at(bonds, other);
    lemma_bond_at(now, other);
    let at = bond_at(bonds, address);
    let a = bond_at(bonds, other);
    let b = bond_at(now, other);
    if at < bonds.len() {
        let moved = if a < at {
            a
        } else {
            a - 1
        };
        if a < bonds.len() {
            assert(a != at);
            assert(now[moved] == bonds[a]);
            if b < moved {
                let from = if b < at {
                    b
                } else {
                    b + 1
                };
                assert(now[b] == bonds[from]);
            }
        } else if b < now.len() {
            let from = if b < at {
                b
            } else {
                b + 1
            };
            assert(now[b] == bonds[from]);
        }
    }
}

} // verus!
