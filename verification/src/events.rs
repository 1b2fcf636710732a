//! The structured event the coordinator reports on success, and its text
//! log line codec.

use vstd::prelude::*;
use crate::hashing::HashValue;
use crate::hexbytes::{
    hex_decode, hex_encode, hex_seq, lemma_hex_round_trip, unhex_seq, valid_hex,
};

verus! {

/// A structured, encoded event for external log consumption.
#[derive(Clone, Debug)]
pub enum MTreeEvent {
    /// The accumulator committed this new logical root.
    NewRootHash(HashValue),
}

/// The tagged binary image of an event: a one-byte tag, then the raw hash.
pub open spec fn event_bytes(e: MTreeEvent) -> Seq<u8> {
    match e {
        MTreeEvent::NewRootHash(h) => seq![0u8] + h@,
    }
}

/// The log line prefix marking an encoded event: the bytes of `EVENT:`.
pub open spec fn event_prefix() -> Seq<u8> {
    seq![69u8, 86u8, 69u8, 78u8, 84u8, 58u8]
}

/// The full text log line for an event: the prefix, then the hex image of
/// the tagged bytes.
pub open spec fn event_log_line(e: MTreeEvent) -> Seq<u8> {
    event_prefix() + hex_seq(event_bytes(e))
}

/// Whether a log line carries a well-formed encoded event: the prefix, then
/// well-formed hex decoding to exactly one tagged 33-byte event image.
pub open spec fn valid_event_line(log: Seq<u8>) -> bool {
    &&& log.len() >= 6
    &&& log.subrange(0, 6) == event_prefix()
    &&& valid_hex(log.skip(6))
    &&& unhex_seq(log.skip(6)).len() == 33
    &&& unhex_seq(log.skip(6))[0] == 0u8
}

/// The root hash carried by a well-formed event log line.
pub open spec fn event_line_root(log: Seq<u8>) -> Seq<u8> {
    unhex_seq(log.skip(6)).skip(1)
}

impl MTreeEvent {
    /// Encodes the event into its text log line.
    pub fn encode_log_line(&self) -> (r: Vec<u8>)
        ensures
            r@ == event_log_line(*self),
    {
        let mut raw: Vec<u8> = Vec::new();
        match self {
            MTreeEvent::NewRootHash(h) => {
                raw.push(0u8);
                let mut i: usize = 0;
                while i < 32
                    invariant
                        i <= 32,
                        raw@ =~= seq![0u8] + h@.subrange(0, i as int),
                    decreases 32 - i,
                {
                    raw.push(h[i]);
                    i = i + 1;
                }
                proof {
                    assert(raw@ =~= event_bytes(*self));
                }
            },
        }
        let mut hexed = hex_encode(raw.as_slice());
        let mut line: Vec<u8> = Vec::new();
        line.push(69u8);
        line.push(86u8);
        line.push(69u8);
        line.push(78u8);
        line.push(84u8);
        line.push(58u8);
        proof {
            assert(line@ =~= event_prefix());
        }
        line.append(&mut hexed);
        proof {
            assert(line@ =~= event_log_line(*self));
        }
        line
    }

    /// Decodes an event from one text log line; returns nothing unless the
    /// line carries a well-formed encoded event.
    pub fn decode(log: &[u8]) -> (r: Option<MTreeEvent>)
        ensures
            r is Some <==> valid_event_line(log@),
            r matches Some(e) ==> match e {
                MTreeEvent::NewRootHash(h) => h@ == event_line_root(log@),
            },
    {
        if log.len() < 6 {
            return None;
        }
        if log[0] != 69 || log[1] != 86 || log[2] != 69 || log[3] != 78 || log[4] != 84 || log[5]
            != 58 {
            proof {
                assert(!(log@.subrange(0, 6) == event_prefix())) by {
                    if log@.subrange(0, 6) == event_prefix() {
                        assert(log@.subrange(0, 6)[0] == 69u8);
                        assert(log@.subrange(0, 6)[1] == 86u8);
                        assert(log@.subrange(0, 6)[2] == 69u8);
                        assert(log@.subrange(0, 6)[3] == 78u8);
                        assert(log@.subrange(0, 6)[4] == 84u8);
                        assert(log@.subrange(0, 6)[5] == 58u8);
                    }
                }
            }
            return None;
        }
        let mut payload: Vec<u8> = Vec::new();
        let mut i: usize = 6;
        while i < log.len()
            invariant
                6 <= i <= log@.len(),
                payload@ =~= log@.subrange(6, i as int),
            decreases log@.len() - i,
        {
            payload.push(log[i]);
            i = i + 1;
        }
        proof {
            assert(payload@ =~= log@.skip(6));
        }
        let raw = match hex_decode(payload.as_slice()) {
            Some(raw) => raw,
            None => {
                return None;
            },
        };
        if raw.len() != 33 {
            return None;
        }
        if raw[0] != 0 {
            return None;
        }
        let mut h: HashValue = [0u8; 32];
        let mut j: usize = 0;
        while j < 32
            invariant
                j <= 32,
                raw@.len() == 33,
                raw@ == unhex_seq(log@.skip(6)),
                forall|k: int| 0 <= k < j ==> h@[k] == raw@[1 + k],
            decreases 32 - j,
        {
            h[j] = raw[1 + j];
            j = j + 1;
        }
        proof {
            assert(h@ =~= raw@.skip(1));
            assert(log@.subrange(0, 6) =~= event_prefix());
        }
        Some(MTreeEvent::NewRootHash(h))
    }
}

/// Law: decoding the encoded log line of an event returns that event's
/// root hash.
pub proof fn lemma_event_log_round_trip(e: MTreeEvent)
    ensures
        valid_event_line(event_log_line(e)),
        match e {
            MTreeEvent::NewRootHash(h) => event_line_root(event_log_line(e)) == h@,
        },
{
    lemma_hex_round_trip(event_bytes(e));
    let line = event_log_line(e);
    assert(line.subrange(0, 6) =~= event_prefix());
    assert(line.skip(6) =~= hex_seq(event_bytes(e)));
    match e {
        MTreeEvent::NewRootHash(h) => {
            assert(event_bytes(e).len() == 33);
            assert(event_bytes(e)[0] == 0u8);
            assert(event_line_root(line) =~= h@);
        },
    }
}

} // verus!
