//! The signalling channel of an LE connection.

use vstd::prelude::*;

use crate::bytes::{push_word, word, word_at, word_bytes};

verus! {

pub const PARAMETER_UPDATE_REQUEST: u8 = 0x12;

pub const PARAMETER_UPDATE_RESPONSE: u8 = 0x13;

pub const RESULT_ACCEPTED: u16 = 0;

/// What a peripheral asks the connection to become.
#[derive(Debug, Clone, Copy, PartialEq, Eq, Structural)]
pub struct ConnectionParameters {
    /// In steps of 1.25 ms.
    pub interval_min: u16,
    pub interval_max: u16,
    /// Connection events that the peripheral may skip.
    pub latency: u16,
    /// In steps of 10 ms.
    pub supervision_timeout: u16,
}

/// A request on the signalling channel that wants an answer.
#[derive(Debug, Clone, Copy, PartialEq, Eq, Structural)]
pub enum Signal {
    ParameterUpdateRequest { identifier: u8, parameters: ConnectionParameters },
}

/// The request in a signalling payload: code, identifier, length and four words.
pub open spec fn signal_in(p: Seq<u8>) -> Option<Signal> {
    if p.len() >= 12 && p[0] == PARAMETER_UPDATE_REQUEST && word_at(p, 2) == 8 {
        Some(
            Signal::ParameterUpdateRequest {
                identifier: p[1],
                parameters: ConnectionParameters {
                    interval_min: word_at(p, 4),
                    interval_max: word_at(p, 6),
                    latency: word_at(p, 8),
                    supervision_timeout: word_at(p, 10),
                },
            },
        )
    } else {
        None
    }
}

/// The answer to a parameter request.
pub open spec fn update_response(identifier: u8, result: u16) -> Seq<u8> {
    seq![PARAMETER_UPDATE_RESPONSE, identifier, 2, 0] + word_bytes(result)
}

/// Reads a signalling payload. `None` for anything that wants no answer.
pub fn parse(p: &[u8]) -> (r: Option<Signal>)
    ensures
        r == signal_in(p@),
{
    if p.len() >= 12 && p[0] == PARAMETER_UPDATE_REQUEST && word(p[2], p[3]) == 8 {
        Some(
            Signal::ParameterUpdateRequest {
                identifier: p[1],
                parameters: ConnectionParameters {
                    interval_min: word(p[4], p[5]),
                    interval_max: word(p[6], p[7]),
                    latency: word(p[8], p[9]),
                    supervision_timeout: word(p[10], p[11]),
                },
            },
        )
    } else {
        None
    }
}

/// Answers a parameter request.
pub fn parameter_update_response(identifier: u8, result: u16) -> (r: Vec<u8>)
    ensures
        r@ == update_response(identifier, result),
{
    let mut out: Vec<u8> = vec![PARAMETER_UPDATE_RESPONSE, identifier, 2, 0];
    push_word(&mut out, result);
    assert(out@ =~= update_response(identifier, result));
    out
}

} // verus!
