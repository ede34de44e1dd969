//! Authenticated-encryption envelope: ChaCha20-Poly1305 with a 256-bit key,
//! a 96-bit nonce and a 128-bit tag, in the format
//! `ciphertext || tag || nonce`.  Decryption first strips trailing zero
//! octets that RDATA padding may have added.

use vstd::prelude::*;
use chacha20poly1305::aead::{Aead, Generate};
use chacha20poly1305::{ChaCha20Poly1305, KeyInit, Nonce};

verus! {

/// Errors surfaced by the envelope layer.
#[derive(Debug, Clone, Copy, PartialEq, Eq, Structural)]
pub enum PayloadError {
    /// Key material missing or shorter than 32 octets.
    KeyUnreadable,
    /// AEAD verification failed on decrypt.
    AuthFailed,
    /// The envelope is too short to hold a nonce.
    EnvelopeFormat,
    /// The ambient random-number source failed while drawing a nonce.
    RngFailure,
    /// The cipher refused the plaintext.
    CipherFailure,
}

/// The AEAD seal of a plaintext under a 32-octet key and a 12-octet nonce:
/// the ChaCha20-Poly1305 ciphertext followed by its 16-octet tag.
pub uninterp spec fn seal_of(key: Seq<u8>, nonce: Seq<u8>, plaintext: Seq<u8>) -> Seq<u8>;

/// What AEAD opening yields under a 32-octet key and a 12-octet nonce: the
/// plaintext, or nothing when verification fails.
pub uninterp spec fn open_of(key: Seq<u8>, nonce: Seq<u8>, sealed: Seq<u8>) -> Option<Seq<u8>>;

/// Relies on chacha20poly1305's `ChaCha20Poly1305` (RFC 8439) with
/// `KeyInit::new_from_slice` and `Aead::encrypt`: sealing is a deterministic
/// function of key, nonce and plaintext; the output is the ciphertext, of
/// the plaintext's length, followed by the 16-octet tag; `Aead::decrypt`
/// under the same key and nonce gives the plaintext back; and sealing
/// refuses only plaintexts of at least 2^32 - 1 blocks of 64 octets, far
/// above the bound promised here.
#[verifier::external_body]
fn aead_seal(key: &[u8], nonce: &[u8], plaintext: &[u8]) -> (r: Result<Vec<u8>, PayloadError>)
    requires
        key@.len() == 32,
        nonce@.len() == 12,
    ensures
        plaintext@.len() <= 0xffffffff ==> r is Ok,
        r matches Ok(c) ==> {
            &&& c@ == seal_of(key@, nonce@, plaintext@)
            &&& c@.len() == plaintext@.len() + 16
            &&& open_of(key@, nonce@, c@) == Some(plaintext@)
        },
{
    let cipher = match ChaCha20Poly1305::new_from_slice(key) {
        Ok(c) => c,
        Err(_) => return Err(PayloadError::KeyUnreadable),
    };
    let n = match Nonce::try_from(nonce) {
        Ok(n) => n,
        Err(_) => return Err(PayloadError::EnvelopeFormat),
    };
    match cipher.encrypt(&n, plaintext) {
        Ok(c) => Ok(c),
        Err(_) => Err(PayloadError::CipherFailure),
    }
}

/// Relies on chacha20poly1305's `Aead::decrypt` (RFC 8439): opening is a
/// deterministic function of key, nonce and sealed bytes; it errs exactly
/// when verification fails.
#[verifier::external_body]
fn aead_open(key: &[u8], nonce: &[u8], sealed: &[u8]) -> (r: Result<Vec<u8>, PayloadError>)
    requires
        key@.len() == 32,
        nonce@.len() == 12,
    ensures
        r matches Ok(v) ==> open_of(key@, nonce@, sealed@) == Some(v@),
        r is Err ==> open_of(key@, nonce@, sealed@) is None,
        r matches Err(e) ==> e == PayloadError::AuthFailed,
{
    let cipher = match ChaCha20Poly1305::new_from_slice(key) {
        Ok(c) => c,
        Err(_) => return Err(PayloadError::AuthFailed),
    };
    let n = match Nonce::try_from(nonce) {
        Ok(n) => n,
        Err(_) => return Err(PayloadError::AuthFailed),
    };
    match cipher.decrypt(&n, sealed) {
        Ok(v) => Ok(v),
        Err(_) => Err(PayloadError::AuthFailed),
    }
}

/// Relies on crypto-common's `Generate` for the nonce type, backed by the
/// operating system's random source: twelve fresh octets, or a failure of
/// that source.
#[verifier::external_body]
fn gen_nonce() -> (r: Option<Vec<u8>>)
    ensures
        r matches Some(v) ==> v@.len() == 12,
{
    match Nonce::try_generate() {
        Ok(n) => Some(n.to_vec()),
        Err(_) => None,
    }
}

/// `s` with its trailing zero octets removed.
pub open spec fn trim_zeros(s: Seq<u8>) -> Seq<u8>
    decreases s.len(),
{
    if s.len() > 0 && s.last() == 0 {
        trim_zeros(s.drop_last())
    } else {
        s
    }
}

/// Mathematical model of an envelope in flight.
pub struct PayloadV {
    pub data: Seq<u8>,
    pub nonce: Seq<u8>,
    pub key: Seq<u8>,
}

/// A byte payload with its nonce and the pre-shared 32-octet key: plaintext
/// before `encrypt`, envelope bytes after; envelope bytes before `decrypt`,
/// plaintext after.
pub struct Payload {
    data: Vec<u8>,
    nonce: Vec<u8>,
    key: Vec<u8>,
}

impl View for Payload {
    type V = PayloadV;

    closed spec fn view(&self) -> PayloadV {
        PayloadV { data: self.data@, nonce: self.nonce@, key: self.key@ }
    }
}

impl Payload {
    /// The nonce is 12 octets and the key 32.
    pub open spec fn wf(&self) -> bool {
        self@.nonce.len() == 12 && self@.key.len() == 32
    }

    /// Wrap `data` with the first 32 octets of `key` and the given 12-octet
    /// nonce, or a fresh random nonce.  Fails with `KeyUnreadable` when
    /// fewer than 32 key octets are given.
    pub fn new(data: Vec<u8>, key: &[u8], nonce: Option<Vec<u8>>) -> (r: Result<
        Payload,
        PayloadError,
    >)
        requires
            nonce matches Some(n) ==> n@.len() == 12,
        ensures
            r matches Ok(p) ==> {
                &&& p.wf()
                &&& p@.data == data@
                &&& p@.key == key@.subrange(0, 32)
                &&& (nonce matches Some(n) ==> p@.nonce == n@)
            },
            key@.len() < 32 <==> r == Err::<Payload, PayloadError>(PayloadError::KeyUnreadable),
            key@.len() >= 32 && nonce is Some ==> r is Ok,
            r is Err ==> r == Err::<Payload, PayloadError>(PayloadError::KeyUnreadable) || (r
                == Err::<Payload, PayloadError>(PayloadError::RngFailure) && nonce is None),
    {
        if key.len() < 32 {
            return Err(PayloadError::KeyUnreadable);
        }
        let kv = vstd::slice::slice_to_vec(vstd::slice::slice_subrange(key, 0, 32));
        let nv = match nonce {
            Some(n) => n,
            None => match gen_nonce() {
                Some(n) => n,
                None => {
                    return Err(PayloadError::RngFailure);
                },
            },
        };
        Ok(Payload { data, nonce: nv, key: kv })
    }

    /// Seal the held data under the held key and nonce, and append the
    /// nonce: the data becomes `ciphertext || tag || nonce`.  Succeeds for
    /// every plaintext of at most 0xffffffff octets.
    pub fn encrypt(&mut self) -> (r: Result<(), PayloadError>)
        requires
            old(self).wf(),
        ensures
            old(self)@.data.len() <= 0xffffffff ==> r is Ok,
            final(self).wf(),
            final(self)@.nonce == old(self)@.nonce,
            final(self)@.key == old(self)@.key,
            r is Ok ==> {
                &&& final(self)@.data == seal_of(
                    old(self)@.key,
                    old(self)@.nonce,
                    old(self)@.data,
                ) + old(self)@.nonce
                &&& final(self)@.data.len() == old(self)@.data.len() + 28
                &&& open_of(
                    old(self)@.key,
                    old(self)@.nonce,
                    seal_of(old(self)@.key, old(self)@.nonce, old(self)@.data),
                ) == Some(old(self)@.data)
            },
            r matches Err(e) ==> e == PayloadError::CipherFailure,
            r is Err ==> final(self)@.data == old(self)@.data,
    {
        let mut sealed = match aead_seal(
            self.key.as_slice(),
            self.nonce.as_slice(),
            self.data.as_slice(),
        ) {
            Ok(c) => c,
            Err(_) => {
                return Err(PayloadError::CipherFailure);
            },
        };
        let mut nc = vstd::slice::slice_to_vec(self.nonce.as_slice());
        sealed.append(&mut nc);
        self.data = sealed;
        Ok(())
    }

    /// Strip trailing zero octets, split off the last 12 octets as the
    /// nonce, and open the rest under the held key: on success the data
    /// becomes the recovered plaintext and the held nonce the one carried by
    /// the envelope.  A trimmed envelope shorter than the nonce is
    /// `EnvelopeFormat`; a verification failure is `AuthFailed`; either way
    /// the payload is unchanged.
    #[verifier::loop_isolation(false)]
    pub fn decrypt(&mut self) -> (r: Result<(), PayloadError>)
        requires
            old(self).wf(),
        ensures
            final(self).wf(),
            final(self)@.key == old(self)@.key,
            ({
                let t = trim_zeros(old(self)@.data);
                &&& (t.len() < 12 ==> r == Err::<(), PayloadError>(PayloadError::EnvelopeFormat)
                    && *final(self) == *old(self))
                &&& (t.len() >= 12 ==> match open_of(
                    old(self)@.key,
                    t.subrange(t.len() - 12, t.len() as int),
                    t.subrange(0, t.len() - 12),
                ) {
                    Some(p) => r is Ok && final(self)@.data == p && final(self)@.nonce
                        == t.subrange(t.len() - 12, t.len() as int),
                    None => r == Err::<(), PayloadError>(PayloadError::AuthFailed) && *final(self)
                        == *old(self),
                })
            }),
    {
        let ghost dv = self.data@;
        let mut l: usize = self.data.len();
        proof {
            assert(dv.take(l as int) =~= dv);
        }
        while l > 0 && self.data[l - 1] == 0
            invariant
                l <= dv.len(),
                trim_zeros(dv) == trim_zeros(dv.take(l as int)),
            decreases l,
        {
            proof {
                let cur = dv.take(l as int);
                assert(cur.last() == dv[l - 1]);
                assert(cur.drop_last() =~= dv.take(l - 1));
            }
            l = l - 1;
        }
        proof {
            let cur = dv.take(l as int);
            if l > 0 {
                assert(cur.last() == dv[l - 1]);
            }
            assert(trim_zeros(cur) == cur);
            assert(trim_zeros(dv) == dv.take(l as int));
        }
        if l < 12 {
            return Err(PayloadError::EnvelopeFormat);
        }
        let ct = vstd::slice::slice_to_vec(
            vstd::slice::slice_subrange(self.data.as_slice(), 0, l - 12),
        );
        let nn = vstd::slice::slice_to_vec(
            vstd::slice::slice_subrange(self.data.as_slice(), l - 12, l),
        );
        proof {
            let t = trim_zeros(dv);
            assert(ct@ =~= t.subrange(0, t.len() - 12));
            assert(nn@ =~= t.subrange(t.len() - 12, t.len() as int));
        }
        match aead_open(self.key.as_slice(), nn.as_slice(), ct.as_slice()) {
            Ok(p) => {
                self.data = p;
                self.nonce = nn;
                Ok(())
            },
            Err(_) => Err(PayloadError::AuthFailed),
        }
    }

    /// The held bytes.
    pub fn as_slice(&self) -> (r: &[u8])
        ensures
            r@ == self@.data,
    {
        self.data.as_slice()
    }
}

/// Trailing zero octets do not change what trimming yields.
pub proof fn lemma_trim_zeros_suffix(s: Seq<u8>, z: Seq<u8>)
    requires
        forall|i: int| 0 <= i < z.len() ==> z[i] == 0,
    ensures
        trim_zeros(s + z) == trim_zeros(s),
    decreases z.len(),
{
    if z.len() == 0 {
        assert(s + z =~= s);
    } else {
        assert((s + z).last() == z.last());
        assert(z.last() == 0);
        assert((s + z).drop_last() =~= s + z.drop_last());
        assert forall|i: int| 0 <= i < z.drop_last().len() implies z.drop_last()[i] == 0 by {
            assert(z[i] == 0);
        }
        lemma_trim_zeros_suffix(s, z.drop_last());
    }
}

/// Cryptographic round trip, envelope side: when the nonce does not end in
/// a zero octet, the envelope `sealed || nonce` survives the trailing-zero
/// trim and splits back into its sealed part and its nonce.  Together with
/// the contracts of `encrypt` and `decrypt` this gives
/// `decrypt(encrypt(P)) == P` for every plaintext `P`, key, and such nonce.
pub proof fn lemma_envelope_split(sealed: Seq<u8>, nonce: Seq<u8>)
    requires
        nonce.len() == 12,
        nonce[11] != 0,
    ensures
        trim_zeros(sealed + nonce) == sealed + nonce,
        (sealed + nonce).len() >= 12,
        (sealed + nonce).subrange((sealed + nonce).len() - 12, (sealed + nonce).len() as int)
            == nonce,
        (sealed + nonce).subrange(0, (sealed + nonce).len() - 12) == sealed,
{
    let e = sealed + nonce;
    assert(e.last() == nonce[11]);
    assert(trim_zeros(e) == e);
    assert(e.subrange(e.len() - 12, e.len() as int) =~= nonce);
    assert(e.subrange(0, e.len() - 12) =~= sealed);
}

} // verus!
