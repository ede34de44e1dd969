//! The full-stack round trip of the request leg, stated executably and
//! proved: encrypting a plaintext, embedding the envelope in a request,
//! serialising it, then parsing, extracting and decrypting on the other
//! side recovers the plaintext exactly — whenever the keys match and the
//! nonce does not end in a zero octet.  The body performs no I/O: it is one
//! request leg run against itself, and its contract is checked by Verus.

use vstd::prelude::*;
use crate::dns_packet::{carrier_sized, req_extract, DnsParseError, Packet};
use crate::laws::{lemma_packet_round_trip, lemma_req_questions_len, normalize, packet_rt_ok};
use crate::payload::{trim_zeros, Payload};

verus! {

/// Run one request leg against itself: the result is always the plaintext.
pub fn loopback_request(key: &[u8], pt: Vec<u8>, nonce: Vec<u8>) -> (r: Option<Vec<u8>>)
    requires
        key@.len() == 32,
        nonce@.len() == 12,
        nonce@[11] != 0,
        pt@.len() <= 65000,
    ensures
        r is Some,
        r matches Some(v) ==> v@ == pt@,
{
    let ghost ptv = pt@;
    let ghost noncev = nonce@;
    let nonce_again = vstd::slice::slice_to_vec(nonce.as_slice());
    let mut pay = match Payload::new(pt, key, Some(nonce)) {
        Ok(p) => p,
        Err(_) => {
            proof {
                assert(false);
            }
            return None;
        },
    };
    if pay.encrypt().is_err() {
        proof {
            assert(false);
        }
        return None;
    }
    let ghost env = pay@.data;
    let mut pkt = Packet::new(false);
    if pkt.embed_data(pay.as_slice(), None).is_err() {
        proof {
            assert(false);
        }
        return None;
    }
    proof {
        lemma_req_questions_len(env);
        assert(req_extract(pkt@.questions) == Ok::<Seq<u8>, DnsParseError>(env));
        assert forall|i: int| 0 <= i < pkt@.questions.len() implies crate::laws::name_rt_ok(
            (#[trigger] pkt@.questions[i]).name,
        ) by {
            assert(carrier_sized(pkt@.questions[i]));
        }
        assert(packet_rt_ok(pkt@));
    }
    let ghost p0 = pkt@;
    let wire = match pkt.serialize_bytes(1) {
        Ok(w) => w,
        Err(_) => {
            proof {
                assert(false);
            }
            return None;
        },
    };
    proof {
        lemma_packet_round_trip(p0, 1);
    }
    let mut rx = Packet::new(false);
    if rx.deserialize(wire.as_slice()).is_err() {
        proof {
            assert(false);
        }
        return None;
    }
    proof {
        assert(rx@.questions =~= normalize(p0, 1).questions);
        assert(req_extract(rx@.questions) == Ok::<Seq<u8>, DnsParseError>(env));
    }
    let data = match rx.extract_data() {
        Ok(d) => d,
        Err(_) => {
            proof {
                assert(false);
            }
            return None;
        },
    };
    let ghost key0 = key@.subrange(0, 32);
    let ghost sealed = crate::payload::seal_of(key0, noncev, ptv);
    proof {
        assert(data@ == env);
        assert(env == sealed + noncev);
        crate::payload::lemma_envelope_split(sealed, noncev);
        assert(trim_zeros(env) == env);
    }
    let mut rx_pay = match Payload::new(data, key, Some(nonce_again)) {
        Ok(p) => p,
        Err(_) => {
            proof {
                assert(false);
            }
            return None;
        },
    };
    proof {
        let t = trim_zeros(rx_pay@.data);
        assert(t == env);
        assert(t.len() >= 12);
        assert(t.subrange(t.len() - 12, t.len() as int) == noncev);
        assert(t.subrange(0, t.len() - 12) == sealed);
        assert(crate::payload::open_of(key0, noncev, sealed) == Some(ptv));
    }
    match rx_pay.decrypt() {
        Ok(()) => {
            proof {
                assert(rx_pay@.data == ptv);
            }
            Some(vstd::slice::slice_to_vec(rx_pay.as_slice()))
        },
        Err(_) => {
            proof {
                assert(false);
            }
            None
        },
    }
}

} // verus!
