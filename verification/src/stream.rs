//! What a stream is going to be, as far as the rest of the stack reads it.

use vstd::prelude::*;

use crate::bap::{CodecConfiguration, QosConfiguration};

verus! {

/// How many isochronous channels carry the stereo image.
#[derive(Debug, Clone, Copy, PartialEq, Eq, Structural)]
pub enum Topology {
    SingleCis,
    DualCis,
}

/// The headset microphone, where it is part of the stream.
#[derive(Debug, Clone, Copy, PartialEq, Eq, Structural)]
pub struct Microphone {
    pub ase_id: u8,
    /// Which channel of the group carries it.
    pub cis_id: u8,
    pub codec: CodecConfiguration,
}

/// A stream that was planned and checked against what the device publishes.
#[derive(Debug)]
pub struct StreamPlan {
    pub cig_id: u8,
    pub topology: Topology,
    pub codec: CodecConfiguration,
    pub qos: QosConfiguration,
    pub ase_ids: Vec<u8>,
    pub playback_enabled: bool,
    pub microphone: Option<Microphone>,
    pub target_latency: u8,
    pub context: u16,
}

/// What a plan says, whatever holds it.
pub struct Planned {
    pub cig_id: u8,
    pub topology: Topology,
    pub codec: CodecConfiguration,
    pub qos: QosConfiguration,
    pub ase_ids: Seq<u8>,
    pub playback_enabled: bool,
    pub microphone: Option<Microphone>,
    pub target_latency: u8,
    pub context: u16,
}

impl View for StreamPlan {
    type V = Planned;

    open spec fn view(&self) -> Planned {
        Planned {
            cig_id: self.cig_id,
            topology: self.topology,
            codec: self.codec,
            qos: self.qos,
            ase_ids: self.ase_ids@,
            playback_enabled: self.playback_enabled,
            microphone: self.microphone,
            target_latency: self.target_latency,
            context: self.context,
        }
    }
}

impl Clone for StreamPlan {
    fn clone(&self) -> (r: Self)
        ensures
            r@ == self@,
    {
        StreamPlan {
            cig_id: self.cig_id,
            topology: self.topology,
            codec: self.codec,
            qos: self.qos,
            ase_ids: crate::bytes::copied(self.ase_ids.as_slice()),
            playback_enabled: self.playback_enabled,
            microphone: self.microphone,
            target_latency: self.target_latency,
            context: self.context,
        }
    }
}

impl Planned {
    /// How many channels carry playback.
    pub open spec fn playback_channels(self) -> int {
        if self.playback_enabled {
            self.ase_ids.len() as int
        } else {
            0
        }
    }

    /// Which channel carries the microphone.
    pub open spec fn microphone_channel(self) -> Option<int> {
        match self.microphone {
            Some(m) => Some(m.cis_id as int),
            None => None,
        }
    }
}

impl StreamPlan {
    pub fn playback_channels(&self) -> (r: usize)
        ensures
            r == self@.playback_channels(),
    {
        if self.playback_enabled {
            self.ase_ids.len()
        } else {
            0
        }
    }

    pub fn microphone_channel(&self) -> (r: Option<usize>)
        ensures
            r is Some <==> self@.microphone_channel() is Some,
            r is Some ==> r->0 == self@.microphone_channel()->0,
    {
        match self.microphone {
            Some(m) => Some(m.cis_id as usize),
            None => None,
        }
    }
}

} // verus!
