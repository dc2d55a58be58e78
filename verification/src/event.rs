//! The first message of a connection, and the disconnect request.
//!
//! A client opens by sending either the word `connect` or a decimal
//! score id to resume from; interior spaces in the id are tolerated.
//! At any later point the word `disconnect` asks for the resumable
//! cursor and a graceful close.

use vstd::prelude::*;

use crate::digits::{is_digit, wrap10, SPACE};

verus! {

/// The bytes of `connect`.
pub open spec fn connect_word() -> Seq<u8> {
    seq![99u8, 111u8, 110u8, 110u8, 101u8, 99u8, 116u8]
}

/// The bytes of `disconnect`.
pub open spec fn disconnect_word() -> Seq<u8> {
    seq![100u8, 105u8, 115u8, 99u8, 111u8, 110u8, 110u8, 101u8, 99u8, 116u8]
}

/// A resume id read from `t[i..]`: digits accumulate, spaces are
/// skipped, anything else spoils the payload; at least one digit must
/// occur.
pub open spec fn spaced_digits_from(t: Seq<u8>, i: int, acc: u64, seen: bool) -> Option<u64>
    decreases t.len() - i,
{
    if i < 0 || i >= t.len() {
        if seen {
            Some(acc)
        } else {
            None
        }
    } else if is_digit(t[i]) {
        spaced_digits_from(t, i + 1, wrap10(acc, t[i]), true)
    } else if t[i] == SPACE {
        spaced_digits_from(t, i + 1, acc, seen)
    } else {
        None
    }
}

/// What a handshake payload means.
#[derive(Clone, Copy, PartialEq, Eq, Debug)]
pub enum Event {
    /// Start from the live feed with no replay.
    Connect,
    /// Replay everything newer than this id first.
    Resume { score_id: u64 },
}

/// Why a handshake payload is rejected.
#[derive(Clone, Copy, PartialEq, Eq, Debug)]
pub enum EventError {
    /// The payload is neither `connect` nor a decimal id.
    Bytes,
    /// The frame carried no text or binary data at all.
    Variant,
}

impl EventError {
    /// The words of the error frame sent back for this rejection.
    pub open spec fn message_spec(self) -> Seq<char> {
        match self {
            EventError::Bytes => "message must be either `\"connect\"` \r a score id to resume from"@,
            EventError::Variant => "message must contain text data"@,
        }
    }

    /// The error frame sent back for this rejection.
    pub fn message(&self) -> (r: &'static str)
        ensures
            r@ == self.message_spec(),
    {
        match self {
            EventError::Bytes => "message must be either `\"connect\"` \r a score id to resume from",
            EventError::Variant => "message must contain text data",
        }
    }
}

impl Event {
    /// Reads a resume id, as `spaced_digits_from` states.
    pub fn parse_score_id(bytes: &[u8]) -> (r: Option<u64>)
        ensures
            r == spaced_digits_from(bytes@, 0, 0, false),
    {
        let ghost t = bytes@;
        let len = bytes.len();
        let mut i: usize = 0;
        let mut acc: u64 = 0;
        let mut seen: bool = false;
        while i < len
            invariant
                i <= len,
                len == t.len(),
                t == bytes@,
                spaced_digits_from(t, 0, 0, false) == spaced_digits_from(
                    t,
                    i as int,
                    acc,
                    seen,
                ),
            decreases len - i,
        {
            let b = bytes[i];
            if 48 <= b && b <= 57 {
                acc = acc.wrapping_mul(10).wrapping_add((b - 48) as u64);
                seen = true;
            } else if b == SPACE {
            } else {
                return None;
            }
            i = i + 1;
        }
        if seen {
            Some(acc)
        } else {
            None
        }
    }

    /// Reads a handshake payload: the word `connect`, or a resume id.
    pub fn parse(bytes: &[u8]) -> (r: Result<Event, EventError>)
        ensures
            ({
                if bytes@ == connect_word() {
                    r == Ok::<Event, EventError>(Event::Connect)
                } else {
                    match spaced_digits_from(bytes@, 0, 0, false) {
                        Some(id) => r == Ok::<Event, EventError>(Event::Resume { score_id: id }),
                        None => r == Err::<Event, EventError>(EventError::Bytes),
                    }
                }
            }),
    {
        let connect = connect_word_vec();
        if crate::config::bytes_eq(bytes, connect.as_slice()) {
            return Ok(Event::Connect);
        }
        proof {
            assert(bytes@ != connect_word());
        }
        match Event::parse_score_id(bytes) {
            Some(id) => Ok(Event::Resume { score_id: id }),
            None => Err(EventError::Bytes),
        }
    }
}

/// Whether a frame's payload asks for the disconnect handshake.
pub fn is_disconnect(bytes: &[u8]) -> (r: bool)
    ensures
        r == (bytes@ == disconnect_word()),
{
    let word = disconnect_word_vec();
    crate::config::bytes_eq(bytes, word.as_slice())
}

fn connect_word_vec() -> (r: Vec<u8>)
    ensures
        r@ == connect_word(),
{
    let mut v: Vec<u8> = Vec::new();
    v.push(99);
    v.push(111);
    v.push(110);
    v.push(110);
    v.push(101);
    v.push(99);
    v.push(116);
    proof {
        assert(v@ =~= connect_word());
    }
    v
}

fn disconnect_word_vec() -> (r: Vec<u8>)
    ensures
        r@ == disconnect_word(),
{
    let mut v: Vec<u8> = Vec::new();
    v.push(100);
    v.push(105);
    v.push(115);
    v.push(99);
    v.push(111);
    v.push(110);
    v.push(110);
    v.push(101);
    v.push(99);
    v.push(116);
    proof {
        assert(v@ =~= disconnect_word());
    }
    v
}

} // verus!
