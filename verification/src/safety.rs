//! What this host may write to someone's headphones.

use vstd::prelude::*;

use crate::bytes::holds_word;
use crate::number::{near, Number};
use crate::text::{hex, push_hex};

verus! {

/// A write to a handle that discovery did not approve.
#[derive(Debug, Clone, Copy, PartialEq, Eq, Structural)]
pub struct SafetyViolation {
    pub handle: u16,
}

impl SafetyViolation {
    pub open spec fn message(self) -> Seq<char> {
        "write to handle "@ + hex(self.handle as nat, 4) + " was not approved"@
    }

    /// A sentence for a person.
    pub fn text(&self) -> (r: String)
        ensures
            r@ == self.message(),
    {
        let mut out = String::new();
        out.append("write to handle ");
        push_hex(&mut out, self.handle as u32, 4);
        out.append(" was not approved");
        assert(out@ =~= self.message());
        out
    }
}

/// How loud the output may be.
#[derive(Debug, Clone, Copy, PartialEq, Eq, Structural)]
pub struct OutputLimiter {
    pub level: Number,
}

impl OutputLimiter {
    pub fn with_gain(gain: Number) -> (r: Self)
        ensures
            r.level == gain,
    {
        OutputLimiter { level: gain }
    }

    pub fn gain(&self) -> (r: Number)
        ensures
            r == self.level,
    {
        self.level
    }
}

impl Default for OutputLimiter {
    /// Transparent: attenuating costs resolution before the encoder ever sees
    /// the signal.
    fn default() -> (r: Self)
        ensures
            r.level == near(false, 1, 1),
            r.level.wf(),
    {
        OutputLimiter { level: Number::ratio(1, 1) }
    }
}

/// The handles that may be written to, learned from discovery.
#[derive(Debug)]
pub struct WritePolicy {
    ase_control_point: Option<u16>,
    volume_control_point: Option<u16>,
    subscriptions: Vec<u16>,
}

/// The approved handles, by what they were approved for.
pub struct Approved {
    pub ase_control_point: Option<u16>,
    pub volume_control_point: Option<u16>,
    pub subscriptions: Set<u16>,
}

impl Approved {
    /// Nothing is approved.
    pub open spec fn nothing() -> Self {
        Approved {
            ase_control_point: None,
            volume_control_point: None,
            subscriptions: Set::empty(),
        }
    }

    /// Whether a handle may be written to.
    pub open spec fn permits(self, handle: u16) -> bool {
        self.ase_control_point == Some(handle) || self.volume_control_point == Some(handle)
            || self.subscriptions.contains(handle)
    }
}

impl View for WritePolicy {
    type V = Approved;

    closed spec fn view(&self) -> Approved {
        Approved {
            ase_control_point: self.ase_control_point,
            volume_control_point: self.volume_control_point,
            subscriptions: self.subscriptions@.to_set(),
        }
    }
}

impl WritePolicy {
    /// A policy that refuses every write.
    pub fn new() -> (r: Self)
        ensures
            r@ == Approved::nothing(),
    {
        let r = WritePolicy {
            ase_control_point: None,
            volume_control_point: None,
            subscriptions: Vec::new(),
        };
        assert(r.subscriptions@.to_set() =~= Set::empty());
        r
    }

    pub fn allow_ase_control_point(&mut self, handle: u16)
        ensures
            final(self)@ == (Approved { ase_control_point: Some(handle), ..old(self)@ }),
    {
        self.ase_control_point = Some(handle);
    }

    pub fn allow_volume_control_point(&mut self, handle: u16)
        ensures
            final(self)@ == (Approved { volume_control_point: Some(handle), ..old(self)@ }),
    {
        self.volume_control_point = Some(handle);
    }

    pub fn allow_subscription(&mut self, handle: u16)
        ensures
            final(self)@ == (Approved {
                subscriptions: old(self)@.subscriptions.insert(handle),
                ..old(self)@
            }),
    {
        let ghost was = self.subscriptions@;
        self.subscriptions.push(handle);
        proof {
            let now = self.subscriptions@;
            assert(now == was.push(handle));
            assert(now.to_set() =~= was.to_set().insert(handle)) by {
                assert forall|h: u16| now.contains(h) <==> was.contains(h) || h == handle by {
                    if was.contains(h) {
                        let i = choose|i: int| 0 <= i < was.len() && was[i] == h;
                        assert(now[i] == h);
                    }
                    if h == handle {
                        assert(now[was.len() as int] == h);
                    }
                }
            }
        }
    }

    /// Refuses any handle that was not approved.
    pub fn check_write(&self, handle: u16) -> (r: Result<(), SafetyViolation>)
        ensures
            r is Ok <==> self@.permits(handle),
            r is Err ==> r->Err_0 == (SafetyViolation { handle }),
    {
        let permitted: bool = match self.ase_control_point {
            Some(h) => h == handle,
            None => false,
        } || match self.volume_control_point {
            Some(h) => h == handle,
            None => false,
        } || holds_word(self.subscriptions.as_slice(), handle);
        if permitted {
            Ok(())
        } else {
            Err(SafetyViolation { handle })
        }
    }
}

/// A write needs an approval of its own: nothing is permitted at first, each approval of
/// a subscription adds the one handle that it names, and an approval of a control point
/// adds that one and can only take back the one that stood in its place.
pub proof fn lemma_writes_need_an_approval(policy: Approved, handle: u16, other: u16)
    ensures
        !Approved::nothing().permits(other),
        (Approved { subscriptions: policy.subscriptions.insert(handle), ..policy }).permits(other)
            <==> other == handle || policy.permits(other),
        (Approved { ase_control_point: Some(handle), ..policy }).permits(handle),
        (Approved { volume_control_point: Some(handle), ..policy }).permits(handle),
        (Approved { ase_control_point: Some(handle), ..policy }).permits(other) ==> other == handle
            || policy.permits(other),
        (Approved { volume_control_point: Some(handle), ..policy }).permits(other) ==> other
            == handle || policy.permits(other),
        policy.permits(other) && policy.ase_control_point != Some(other) ==> (Approved {
            ase_control_point: Some(handle),
            ..policy
        }).permits(other),
        policy.permits(other) && policy.volume_control_point != Some(other) ==> (Approved {
            volume_control_point: Some(handle),
            ..policy
        }).permits(other),
{
}

} // verus!
