//! Key material and the chunk cipher.
//!
//! Keys are opaque byte strings: a secret key and the public key derived from
//! it carry the same material, and a ciphertext opens only under the secret
//! key whose material matches the one it was produced for.  The cipher is a
//! stand-in primitive with exactly the contract the routing layer relies on —
//! a blob decrypts to its plaintext under the matching key and refuses to
//! open under any other — so every property of the layer above it is proved,
//! not assumed.  It offers no real secrecy; a deployment would swap in a
//! hardened primitive with the same interface.

use vstd::prelude::*;

use crate::wire::append_u64_le;
use crate::wire::lemma_u64_le_bytes_injective;
use crate::wire::matches_bytes;
use crate::wire::matches_u64_le;
use crate::wire::tail_from;
use crate::wire::u64_le_bytes;
use vstd::string::StringSliceAdditionalSpecFns;
use vstd::string::StrSliceExecFns;

verus! {

/// Ciphertext of `m` under a key of material `pk`: the material's length,
/// the material, then the plaintext.
pub open spec fn enc(pk: Seq<u8>, m: Seq<u8>) -> Seq<u8> {
    u64_le_bytes(pk.len() as u64) + pk + m
}

/// What opening ciphertext `c` under a key of material `sk` yields: the
/// embedded plaintext when the material matches, nothing otherwise.
pub open spec fn dec(sk: Seq<u8>, c: Seq<u8>) -> Option<Seq<u8>> {
    if c.len() >= 8 + sk.len() && c.subrange(0, 8) == u64_le_bytes(sk.len() as u64) && c.subrange(
        8,
        8 + sk.len() as int,
    ) == sk {
        Some(c.skip(8 + sk.len() as int))
    } else {
        None
    }
}

/// Key material small enough to frame with an eight-byte length; every key
/// held in memory satisfies it.
pub open spec fn key_len_ok(d: Seq<u8>) -> bool {
    d.len() <= u64::MAX
}

/// Opening a ciphertext under the matching key yields the plaintext; under
/// any other key it fails.
pub proof fn lemma_dec_enc(sk: Seq<u8>, pk: Seq<u8>, m: Seq<u8>)
    requires
        key_len_ok(sk),
        key_len_ok(pk),
    ensures
        dec(sk, enc(pk, m)) == if sk == pk {
            Some(m)
        } else {
            None::<Seq<u8>>
        },
{
    let c = enc(pk, m);
    assert(c.len() == 8 + pk.len() + m.len());
    assert(c.subrange(0, 8) =~= u64_le_bytes(pk.len() as u64));
    assert(c.subrange(8, 8 + pk.len() as int) =~= pk);
    if sk == pk {
        assert(c.skip(8 + sk.len() as int) =~= m);
    } else if sk.len() == pk.len() {
        assert(c.subrange(8, 8 + sk.len() as int) != sk);
    } else {
        assert(c.subrange(0, 8) != u64_le_bytes(sk.len() as u64)) by {
            if u64_le_bytes(pk.len() as u64) == u64_le_bytes(sk.len() as u64) {
                lemma_u64_le_bytes_injective(pk.len() as u64, sk.len() as u64);
            }
        }
    }
}

/// The sender mark a signing node prepends to a chunk body: a marker byte,
/// the length of the signer's material, then the material.  A verifier
/// recognises it exactly when it holds the matching public key.
pub open spec fn sig_header(d: Seq<u8>) -> Seq<u8> {
    seq![2u8] + u64_le_bytes(d.len() as u64) + d
}

/// How the sender mark lays out, byte for byte.
pub proof fn lemma_sig_header_index(d: Seq<u8>)
    ensures
        sig_header(d).len() == 9 + d.len(),
        sig_header(d)[0] == 2u8,
        forall|k: int| 0 <= k < 8 ==> sig_header(d)[1 + k] == #[trigger] u64_le_bytes(d.len() as u64)[k],
        forall|k: int| 0 <= k < d.len() ==> sig_header(d)[9 + k] == #[trigger] d[k],
{
}

/// The materials of a list of secret keys, in order.
pub open spec fn skey_views(ks: Seq<SecretKey>) -> Seq<Seq<u8>> {
    ks.map_values(|k: SecretKey| k@)
}

/// The materials of a list of public keys, in order.
pub open spec fn pkey_views(ks: Seq<PublicKey>) -> Seq<Seq<u8>> {
    ks.map_values(|k: PublicKey| k@)
}

/// Key material held in memory always fits its length frame.
pub proof fn lemma_secret_key_len(k: &SecretKey)
    ensures
        key_len_ok(k@),
{
    vstd::std_specs::vec::axiom_spec_len(&k.material);
}

/// Key material held in memory always fits its length frame.
pub proof fn lemma_public_key_len(k: &PublicKey)
    ensures
        key_len_ok(k@),
{
    vstd::std_specs::vec::axiom_spec_len(&k.material);
}

/// The secret half of a keypair.  It decrypts, and the public half is derived
/// from it.
pub struct SecretKey {
    material: Vec<u8>,
}

/// The public half of a keypair.  It encrypts.
pub struct PublicKey {
    material: Vec<u8>,
}

impl View for SecretKey {
    type V = Seq<u8>;

    closed spec fn view(&self) -> Seq<u8> {
        self.material@
    }
}

impl View for PublicKey {
    type V = Seq<u8>;

    closed spec fn view(&self) -> Seq<u8> {
        self.material@
    }
}

impl SecretKey {
    /// Makes a secret key out of the given text.  Two keys made of the same
    /// text are the same key.
    pub fn of(text: &str) -> (r: SecretKey)
        ensures
            r@ == text.spec_bytes(),
    {
        SecretKey { material: text.as_bytes_vec() }
    }

    /// Derives the public half of this keypair.
    pub fn pkey(&self) -> (r: PublicKey)
        ensures
            r@ == self@,
    {
        PublicKey { material: crate::wire::copy_bytes(&self.material) }
    }

    /// Attempts to open a ciphertext with this key.
    pub fn decrypt(&self, c: &[u8]) -> (r: Option<Vec<u8>>)
        ensures
            match r {
                Some(m) => dec(self@, c@) == Some(m@),
                None => dec(self@, c@) is None,
            },
    {
        let klen = self.material.len();
        if c.len() < 8 || c.len() - 8 < klen {
            return None;
        }
        if !matches_u64_le(c, 0, klen as u64) {
            return None;
        }
        if !matches_bytes(c, 8, &self.material) {
            return None;
        }
        Some(tail_from(c, 8 + klen))
    }

    /// Produces this key's sender mark, to prepend to a chunk body before
    /// encryption.
    pub fn sign_header(&self) -> (r: Vec<u8>)
        ensures
            r@ == sig_header(self@),
    {
        let mut out: Vec<u8> = Vec::new();
        out.push(2u8);
        append_u64_le(&mut out, self.material.len() as u64);
        let mut body = crate::wire::copy_bytes(&self.material);
        out.append(&mut body);
        assert(out@ =~= sig_header(self@));
        out
    }
}

impl PublicKey {
    /// Makes a public key out of the given text, the same key that
    /// `SecretKey::of` on that text derives.
    pub fn of(text: &str) -> (r: PublicKey)
        ensures
            r@ == text.spec_bytes(),
    {
        PublicKey { material: text.as_bytes_vec() }
    }

    /// Encrypts a plaintext for the holder of the matching secret key.
    pub fn encrypt(&self, m: &[u8]) -> (r: Vec<u8>)
        ensures
            r@ == enc(self@, m@),
    {
        let mut out: Vec<u8> = Vec::new();
        append_u64_le(&mut out, self.material.len() as u64);
        let mut body = crate::wire::copy_bytes(&self.material);
        out.append(&mut body);
        let mut rest = vstd::slice::slice_to_vec(m);
        out.append(&mut rest);
        assert(out@ =~= enc(self@, m@));
        out
    }

    /// Checks whether `body` begins with this key's sender mark; if so,
    /// returns what follows the mark.
    pub fn verify_strip(&self, body: &[u8]) -> (r: Option<Vec<u8>>)
        ensures
            r is Some <==> (body@.len() >= sig_header(self@).len() && body@.take(
                sig_header(self@).len() as int,
            ) == sig_header(self@)),
            r matches Some(rest) ==> rest@ == body@.skip(sig_header(self@).len() as int),
    {
        let klen = self.material.len();
        let ghost h = sig_header(self@);
        assert(h.len() == 9 + klen);
        if body.len() < 9 || body.len() - 9 < klen {
            return None;
        }
        let head_ok = body[0] == 2u8 && matches_u64_le(body, 1, klen as u64) && matches_bytes(
            body,
            9,
            &self.material,
        );
        if head_ok {
            proof {
                lemma_sig_header_index(self@);
                assert(body@.take(h.len() as int) =~= h) by {
                    assert(forall|k: int|
                        1 <= k < 9 ==> body@[k] == #[trigger] body@.subrange(1, 9)[k - 1]);
                    assert(forall|k: int|
                        9 <= k < 9 + klen ==> body@[k] == #[trigger] body@.subrange(
                            9,
                            9 + klen as int,
                        )[k - 9]);
                }
            }
            Some(tail_from(body, 9 + klen))
        } else {
            proof {
                lemma_sig_header_index(self@);
                if body@.take(h.len() as int) == h {
                    let t = body@.take(h.len() as int);
                    assert(forall|k: int| 0 <= k < h.len() ==> body@[k] == #[trigger] t[k]);
                    assert(body@[0] == 2u8);
                    assert(body@.subrange(1, 9) =~= u64_le_bytes(klen as u64)) by {
                        assert(forall|k: int|
                            0 <= k < 8 ==> #[trigger] body@.subrange(1, 9)[k] == body@[k + 1]);
                    }
                    assert(body@.subrange(9, 9 + klen as int) =~= self@) by {
                        assert(forall|k: int|
                            0 <= k < klen ==> #[trigger] body@.subrange(9, 9 + klen as int)[k]
                                == body@[k + 9]);
                    }
                }
            }
            None
        }
    }
}

impl Clone for SecretKey {
    /// The copy carries the same material.
    fn clone(&self) -> (r: Self)
        ensures
            r@ == self@,
    {
        SecretKey { material: crate::wire::copy_bytes(&self.material) }
    }
}

impl Clone for PublicKey {
    /// The copy carries the same material.
    fn clone(&self) -> (r: Self)
        ensures
            r@ == self@,
    {
        PublicKey { material: crate::wire::copy_bytes(&self.material) }
    }
}

} // verus!
