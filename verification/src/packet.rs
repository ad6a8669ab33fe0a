//! Chunks and packets: the atomic routing units, how each is encrypted for
//! exactly one recipient, and how a received wire packet is pulled apart
//! again.
//!
//! A packet is built as an ordered list of (chunk, recipient key) pairs and
//! collapses on the wire to an ordered list of independently encrypted
//! blobs.  Disassembly tries every owned key on every blob, in order, and
//! folds everything that does not open — wrong key, garbled body, unknown
//! tag, bad text, missing or foreign sender mark — into an opaque
//! `Encrypted` chunk, deliberately not telling those cases apart.

use vstd::prelude::*;

use crate::codec::decode_blobs;
use crate::codec::encode_blobs;
use crate::codec::framed;
use crate::codec::utf8_to_string;
use crate::crypto::dec;
use crate::crypto::enc;
use crate::crypto::key_len_ok;
use crate::crypto::lemma_dec_enc;
use crate::crypto::lemma_sig_header_index;
use crate::crypto::pkey_views;
use crate::crypto::sig_header;
use crate::crypto::skey_views;
use crate::crypto::PublicKey;
use crate::crypto::SecretKey;
use crate::transports::TransportFail;
use crate::wire::lemma_u64_le_bytes_injective;
use crate::wire::tail_from;
use crate::wire::u64_le_bytes;
use vstd::string::StrSliceExecFns;
use vstd::utf8::encode_utf8;
use vstd::utf8::valid_utf8;

verus! {

/// One routing unit of a packet.
pub enum Chunk {
    /// An application payload for the node that can decrypt it.
    Message(Vec<u8>),
    /// An instruction to forward the whole packet along the given path.
    Transport(String),
    /// A blob that none of the keys on hand could open.  Disassembly is the
    /// only producer of this variant; builders never make one, and it is
    /// never surfaced as a deliverable message.
    Encrypted(Vec<u8>),
}

/// The mathematical image of a chunk: a forwarding path is carried as its
/// UTF-8 bytes, exactly as it travels inside the encrypted body.
pub enum ChunkModel {
    Message(Seq<u8>),
    Transport(Seq<u8>),
    Encrypted(Seq<u8>),
}

impl View for Chunk {
    type V = ChunkModel;

    open spec fn view(&self) -> ChunkModel {
        match self {
            Chunk::Message(m) => ChunkModel::Message(m@),
            Chunk::Transport(t) => ChunkModel::Transport(encode_utf8(t@)),
            Chunk::Encrypted(v) => ChunkModel::Encrypted(v@),
        }
    }
}

impl DeepView for Chunk {
    type V = ChunkModel;

    open spec fn deep_view(&self) -> ChunkModel {
        self.view()
    }
}

/// A chunk a builder can produce: a message or a forwarding path whose bytes
/// are valid text.
pub open spec fn chunk_buildable(c: ChunkModel) -> bool {
    match c {
        ChunkModel::Message(_) => true,
        ChunkModel::Transport(p) => valid_utf8(p),
        ChunkModel::Encrypted(_) => false,
    }
}

/// The plaintext body of a chunk: a tag byte, then the payload.
pub open spec fn chunk_plain(c: ChunkModel) -> Seq<u8> {
    match c {
        ChunkModel::Message(m) => seq![0u8] + m,
        ChunkModel::Transport(p) => seq![1u8] + p,
        ChunkModel::Encrypted(v) => v,
    }
}

/// What a decrypted body parses to: tag 0 is a message, tag 1 a forwarding
/// path whose remainder must be valid text; anything else is not a chunk.
pub open spec fn parse_plain(b: Seq<u8>) -> Option<ChunkModel> {
    if b.len() == 0 {
        None
    } else if b[0] == 0u8 {
        Some(ChunkModel::Message(b.drop_first()))
    } else if b[0] == 1u8 {
        if valid_utf8(b.drop_first()) {
            Some(ChunkModel::Transport(b.drop_first()))
        } else {
            None
        }
    } else {
        None
    }
}

/// The wire blob of a chunk bound for the holder of `pk`: its body encrypted
/// under `pk`, except that an already-opaque chunk passes through unchanged.
pub open spec fn encrypted_chunk(c: ChunkModel, pk: Seq<u8>) -> Seq<u8> {
    match c {
        ChunkModel::Encrypted(v) => v,
        _ => enc(pk, chunk_plain(c)),
    }
}

/// The wire blob of a chunk in signed mode: the signer's sender mark is
/// prepended to the body before encryption.
pub open spec fn encrypted_chunk_signed(c: ChunkModel, pk: Seq<u8>, signer: Seq<u8>) -> Seq<u8> {
    match c {
        ChunkModel::Encrypted(v) => v,
        _ => enc(pk, sig_header(signer) + chunk_plain(c)),
    }
}

/// One decryption attempt of a blob with one key.
pub open spec fn decrypt_chunk_one(sk: Seq<u8>, blob: Seq<u8>) -> Option<ChunkModel> {
    match dec(sk, blob) {
        Some(body) => parse_plain(body),
        None => None,
    }
}

/// What disassembly makes of one blob: the keys are tried in order, the
/// first that opens the blob to a well-formed body wins, and if none does
/// the blob stays opaque.
pub open spec fn decrypt_chunk(own: Seq<Seq<u8>>, blob: Seq<u8>) -> ChunkModel
    decreases own.len(),
{
    if own.len() == 0 {
        ChunkModel::Encrypted(blob)
    } else {
        match decrypt_chunk_one(own[0], blob) {
            Some(c) => c,
            None => decrypt_chunk(own.drop_first(), blob),
        }
    }
}

/// Strips the first listed sender's mark that opens `b`; at most one sender
/// mark can match a given body.
pub open spec fn strip_sig(senders: Seq<Seq<u8>>, b: Seq<u8>) -> Option<Seq<u8>>
    decreases senders.len(),
{
    if senders.len() == 0 {
        None
    } else {
        let h = sig_header(senders[0]);
        if b.len() >= h.len() && b.take(h.len() as int) == h {
            Some(b.skip(h.len() as int))
        } else {
            strip_sig(senders.drop_first(), b)
        }
    }
}

/// One signed-mode decryption attempt: open, check the sender mark against
/// the allow-list, then parse what follows it.
pub open spec fn decrypt_chunk_one_signed(
    sk: Seq<u8>,
    senders: Seq<Seq<u8>>,
    blob: Seq<u8>,
) -> Option<ChunkModel> {
    match dec(sk, blob) {
        Some(body) => match strip_sig(senders, body) {
            Some(rest) => parse_plain(rest),
            None => None,
        },
        None => None,
    }
}

/// Signed-mode disassembly of one blob: as `decrypt_chunk`, with the sender
/// mark required; a body whose mark no listed sender verifies stays opaque,
/// exactly as an undecryptable one does.
pub open spec fn decrypt_chunk_signed(
    own: Seq<Seq<u8>>,
    senders: Seq<Seq<u8>>,
    blob: Seq<u8>,
) -> ChunkModel
    decreases own.len(),
{
    if own.len() == 0 {
        ChunkModel::Encrypted(blob)
    } else {
        match decrypt_chunk_one_signed(own[0], senders, blob) {
            Some(c) => c,
            None => decrypt_chunk_signed(own.drop_first(), senders, blob),
        }
    }
}

/// The ordered blob list a built packet collapses to.
pub open spec fn wire_blobs(pkt: Seq<(ChunkModel, Seq<u8>)>) -> Seq<Seq<u8>> {
    pkt.map_values(|p: (ChunkModel, Seq<u8>)| encrypted_chunk(p.0, p.1))
}

/// The ordered blob list of a packet signed by `signer`.
pub open spec fn wire_blobs_signed(pkt: Seq<(ChunkModel, Seq<u8>)>, signer: Seq<u8>) -> Seq<
    Seq<u8>,
> {
    pkt.map_values(|p: (ChunkModel, Seq<u8>)| encrypted_chunk_signed(p.0, p.1, signer))
}

/// What disassembling an ordered blob list with the given keys yields.
pub open spec fn disassembled(own: Seq<Seq<u8>>, blobs: Seq<Seq<u8>>) -> Seq<ChunkModel> {
    blobs.map_values(|b: Seq<u8>| decrypt_chunk(own, b))
}

/// Signed-mode counterpart of `disassembled`.
pub open spec fn disassembled_signed(
    own: Seq<Seq<u8>>,
    senders: Seq<Seq<u8>>,
    blobs: Seq<Seq<u8>>,
) -> Seq<ChunkModel> {
    blobs.map_values(|b: Seq<u8>| decrypt_chunk_signed(own, senders, b))
}

impl Chunk {
    /// Collapses this chunk to its wire blob for the holder of `key`.  An
    /// already-opaque chunk passes through unchanged.
    pub fn encrypt(self, key: PublicKey) -> (r: Vec<u8>)
        ensures
            r@ == encrypted_chunk(self@, key@),
    {
        match self {
            Chunk::Message(m) => {
                let mut b: Vec<u8> = Vec::new();
                b.push(0u8);
                let mut payload = m;
                b.append(&mut payload);
                assert(b@ =~= chunk_plain(ChunkModel::Message(m@)));
                key.encrypt(b.as_slice())
            },
            Chunk::Transport(t) => {
                let mut b: Vec<u8> = Vec::new();
                b.push(1u8);
                let mut payload = t.as_str().as_bytes_vec();
                b.append(&mut payload);
                assert(b@ =~= chunk_plain(ChunkModel::Transport(encode_utf8(t@))));
                key.encrypt(b.as_slice())
            },
            Chunk::Encrypted(v) => v,
        }
    }

    /// Signed-mode counterpart of `encrypt`: prepends the signer's sender
    /// mark to the body before encrypting it.
    pub fn encrypt_signed(self, key: PublicKey, signer: &SecretKey) -> (r: Vec<u8>)
        ensures
            r@ == encrypted_chunk_signed(self@, key@, signer@),
    {
        match self {
            Chunk::Message(m) => {
                let mut b = signer.sign_header();
                b.push(0u8);
                let mut payload = m;
                b.append(&mut payload);
                assert(b@ =~= sig_header(signer@) + chunk_plain(ChunkModel::Message(m@)));
                key.encrypt(b.as_slice())
            },
            Chunk::Transport(t) => {
                let mut b = signer.sign_header();
                b.push(1u8);
                let mut payload = t.as_str().as_bytes_vec();
                b.append(&mut payload);
                assert(b@ =~= sig_header(signer@) + chunk_plain(
                    ChunkModel::Transport(encode_utf8(t@)),
                ));
                key.encrypt(b.as_slice())
            },
            Chunk::Encrypted(v) => v,
        }
    }

    /// Parses a decrypted body into a chunk.
    fn parse_body(body: Vec<u8>) -> (r: Result<Chunk, ()>)
        ensures
            r matches Ok(c) ==> parse_plain(body@) == Some(c@),
            r is Err ==> parse_plain(body@) is None,
    {
        if body.len() == 0 {
            return Err(());
        }
        let tag = body[0];
        if tag == 0u8 {
            let m = tail_from(body.as_slice(), 1);
            assert(m@ =~= body@.drop_first());
            Ok(Chunk::Message(m))
        } else if tag == 1u8 {
            let p = tail_from(body.as_slice(), 1);
            assert(p@ =~= body@.drop_first());
            match utf8_to_string(p) {
                Some(s) => Ok(Chunk::Transport(s)),
                None => Err(()),
            }
        } else {
            Err(())
        }
    }

    /// One decryption attempt of a received blob with one own key.
    pub fn decrypt_onekey(bytes: &[u8], key: &SecretKey) -> (r: Result<Chunk, ()>)
        ensures
            r matches Ok(c) ==> decrypt_chunk_one(key@, bytes@) == Some(c@),
            r is Err ==> decrypt_chunk_one(key@, bytes@) is None,
    {
        match key.decrypt(bytes) {
            Some(body) => Self::parse_body(body),
            None => Err(()),
        }
    }

    /// Signed-mode counterpart of `decrypt_onekey`: after opening, the body
    /// must begin with the mark of a listed sender.
    pub fn decrypt_onekey_signed(bytes: &[u8], key: &SecretKey, senders: &[PublicKey]) -> (r:
        Result<Chunk, ()>)
        ensures
            r matches Ok(c) ==> decrypt_chunk_one_signed(key@, pkey_views(senders@), bytes@)
                == Some(c@),
            r is Err ==> decrypt_chunk_one_signed(key@, pkey_views(senders@), bytes@) is None,
    {
        let body = match key.decrypt(bytes) {
            Some(b) => b,
            None => {
                return Err(());
            },
        };
        let n = senders.len();
        let ghost sv = pkey_views(senders@);
        proof {
            assert(sv.skip(0) =~= sv);
        }
        for i in 0..n
            invariant
                n == senders@.len(),
                sv == pkey_views(senders@),
                dec(key@, bytes@) == Some(body@),
                strip_sig(sv, body@) == strip_sig(sv.skip(i as int), body@),
        {
            let attempt = senders[i].verify_strip(body.as_slice());
            proof {
                assert(sv.skip(i as int).len() > 0);
                assert(sv.skip(i as int)[0] == senders@[i as int]@);
                assert(sv.skip(i as int).drop_first() =~= sv.skip(i + 1));
            }
            match attempt {
                Some(rest) => {
                    return Self::parse_body(rest);
                },
                None => {},
            }
        }
        proof {
            assert(sv.skip(n as int).len() == 0);
        }
        Err(())
    }

    /// Disassembles one received blob: every own key is tried in listed
    /// order, the first success wins, and a blob that never opens to a
    /// well-formed body comes back opaque.
    pub fn decrypt(bytes: Vec<u8>, keys: &[SecretKey]) -> (r: Chunk)
        ensures
            r@ == decrypt_chunk(skey_views(keys@), bytes@),
    {
        let n = keys.len();
        let ghost kv = skey_views(keys@);
        proof {
            assert(kv.skip(0) =~= kv);
        }
        for i in 0..n
            invariant
                n == keys@.len(),
                kv == skey_views(keys@),
                decrypt_chunk(kv, bytes@) == decrypt_chunk(kv.skip(i as int), bytes@),
        {
            let attempt = Chunk::decrypt_onekey(bytes.as_slice(), &keys[i]);
            proof {
                assert(kv.skip(i as int).len() > 0);
                assert(kv.skip(i as int)[0] == keys@[i as int]@);
                assert(kv.skip(i as int).drop_first() =~= kv.skip(i + 1));
            }
            match attempt {
                Ok(c) => {
                    return c;
                },
                Err(_) => {},
            }
        }
        proof {
            assert(kv.skip(n as int).len() == 0);
        }
        Chunk::Encrypted(bytes)
    }

    /// Signed-mode counterpart of `decrypt`.
    pub fn decrypt_signed(bytes: Vec<u8>, keys: &[SecretKey], senders: &[PublicKey]) -> (r: Chunk)
        ensures
            r@ == decrypt_chunk_signed(skey_views(keys@), pkey_views(senders@), bytes@),
    {
        let n = keys.len();
        let ghost kv = skey_views(keys@);
        let ghost sv = pkey_views(senders@);
        proof {
            assert(kv.skip(0) =~= kv);
        }
        for i in 0..n
            invariant
                n == keys@.len(),
                kv == skey_views(keys@),
                sv == pkey_views(senders@),
                decrypt_chunk_signed(kv, sv, bytes@) == decrypt_chunk_signed(
                    kv.skip(i as int),
                    sv,
                    bytes@,
                ),
        {
            let attempt = Chunk::decrypt_onekey_signed(bytes.as_slice(), &keys[i], senders);
            proof {
                assert(kv.skip(i as int).len() > 0);
                assert(kv.skip(i as int)[0] == keys@[i as int]@);
                assert(kv.skip(i as int).drop_first() =~= kv.skip(i + 1));
            }
            match attempt {
                Ok(c) => {
                    return c;
                },
                Err(_) => {},
            }
        }
        proof {
            assert(kv.skip(n as int).len() == 0);
        }
        Chunk::Encrypted(bytes)
    }
}

/// A packet under construction: an ordered list of chunks, each with the
/// public key of its intended reader.  The order is the transmission and
/// decryption order; nothing else in the packet encodes routing intent.
pub struct Packet {
    chunks: Vec<(Chunk, PublicKey)>,
}

/// The (chunk, target key) images of a list of build-time pairs.
pub open spec fn pair_views(cs: Seq<(Chunk, PublicKey)>) -> Seq<(ChunkModel, Seq<u8>)> {
    cs.map_values(|p: (Chunk, PublicKey)| (p.0@, p.1@))
}

impl View for Packet {
    type V = Seq<(ChunkModel, Seq<u8>)>;

    closed spec fn view(&self) -> Seq<(ChunkModel, Seq<u8>)> {
        pair_views(self.chunks@)
    }
}

impl Default for Packet {
    /// The empty packet.
    fn default() -> (r: Packet)
        ensures
            r@ == Seq::<(ChunkModel, Seq<u8>)>::empty(),
    {
        let r = Packet { chunks: Vec::new() };
        proof {
            assert(r@ =~= Seq::<(ChunkModel, Seq<u8>)>::empty());
        }
        r
    }
}

impl Packet {
    /// Appends an application payload addressed to the holder of
    /// `target_pkey`.
    pub fn add_message(self, data: &[u8], target_pkey: &PublicKey) -> (r: Packet)
        ensures
            r@ == self@.push((ChunkModel::Message(data@), target_pkey@)),
    {
        let mut chunks = self.chunks;
        chunks.push((Chunk::Message(vstd::slice::slice_to_vec(data)), target_pkey.clone()));
        let r = Packet { chunks };
        proof {
            assert(r@ =~= self@.push((ChunkModel::Message(data@), target_pkey@)));
        }
        r
    }

    /// Appends an instruction for the holder of `node_pkey` to forward the
    /// whole packet along `path`.
    pub fn add_hop(self, path: String, node_pkey: &PublicKey) -> (r: Packet)
        ensures
            r@ == self@.push((ChunkModel::Transport(encode_utf8(path@)), node_pkey@)),
    {
        let mut chunks = self.chunks;
        chunks.push((Chunk::Transport(path), node_pkey.clone()));
        let r = Packet { chunks };
        proof {
            assert(r@ =~= self@.push((ChunkModel::Transport(encode_utf8(path@)), node_pkey@)));
        }
        r
    }

    /// Collapses the packet to wire bytes: every chunk is encrypted under
    /// its own target key, in order, and the blob list is framed by the
    /// outside codec.  The codec cannot fail on a blob list held in memory,
    /// so the call succeeds; the fallible signature stands for codecs that
    /// can.
    pub fn into_bytes(self) -> (r: Result<Vec<u8>, TransportFail>)
        ensures
            r is Ok,
            r matches Ok(b) ==> b@ == framed(wire_blobs(self@)),
    {
        let ghost model = self@;
        let mut chunks = self.chunks;
        let mut blobs: Vec<Vec<u8>> = Vec::new();
        proof {
            assert(pair_views(chunks@) =~= model.skip(0));
        }
        while chunks.len() > 0
            invariant
                blobs@.len() + chunks@.len() == model.len(),
                pair_views(chunks@) =~= model.skip(blobs@.len() as int),
                blobs.deep_view() =~~= wire_blobs(model).take(blobs@.len() as int),
            decreases chunks@.len(),
        {
            let ghost done = blobs@.len() as int;
            let ghost pre = chunks@;
            let pair = chunks.remove(0);
            proof {
                pre.remove_ensures(0);
                assert(chunks@ =~= pre.skip(1));
                assert((pair.0@, pair.1@) == pair_views(pre)[0]);
                assert(pair_views(chunks@) =~= model.skip(done + 1)) by {
                    assert(forall|k: int|
                        0 <= k < chunks@.len() ==> #[trigger] pair_views(chunks@)[k] == pair_views(
                            pre,
                        )[k + 1]);
                }
            }
            let blob = pair.0.encrypt(pair.1);
            blobs.push(blob);
            proof {
                assert(blobs.deep_view() =~~= wire_blobs(model).take(done + 1));
            }
        }
        proof {
            assert(blobs.deep_view() =~~= wire_blobs(model));
        }
        encode_blobs(&blobs)
    }

    /// Signed-mode counterpart of `into_bytes`: every chunk body carries the
    /// signer's sender mark, so that holders of the signer's public key
    /// accept the chunks.
    pub fn into_signed_bytes(self, signer: &SecretKey) -> (r: Result<Vec<u8>, TransportFail>)
        ensures
            r is Ok,
            r matches Ok(b) ==> b@ == framed(wire_blobs_signed(self@, signer@)),
    {
        let ghost model = self@;
        let mut chunks = self.chunks;
        let mut blobs: Vec<Vec<u8>> = Vec::new();
        proof {
            assert(pair_views(chunks@) =~= model.skip(0));
        }
        while chunks.len() > 0
            invariant
                blobs@.len() + chunks@.len() == model.len(),
                pair_views(chunks@) =~= model.skip(blobs@.len() as int),
                blobs.deep_view() =~~= wire_blobs_signed(model, signer@).take(blobs@.len() as int),
            decreases chunks@.len(),
        {
            let ghost done = blobs@.len() as int;
            let ghost pre = chunks@;
            let pair = chunks.remove(0);
            proof {
                pre.remove_ensures(0);
                assert(chunks@ =~= pre.skip(1));
                assert((pair.0@, pair.1@) == pair_views(pre)[0]);
                assert(pair_views(chunks@) =~= model.skip(done + 1)) by {
                    assert(forall|k: int|
                        0 <= k < chunks@.len() ==> #[trigger] pair_views(chunks@)[k] == pair_views(
                            pre,
                        )[k + 1]);
                }
            }
            let blob = pair.0.encrypt_signed(pair.1, signer);
            blobs.push(blob);
            proof {
                assert(blobs.deep_view() =~~= wire_blobs_signed(model, signer@).take(done + 1));
            }
        }
        proof {
            assert(blobs.deep_view() =~~= wire_blobs_signed(model, signer@));
        }
        encode_blobs(&blobs)
    }

    /// Disassembles received wire bytes with the given own keys.  Malformed
    /// framing is fatal for the call; a blob that no key opens comes back as
    /// an opaque chunk, not an error.
    pub fn from_bytes(packet: &[u8], keys: &[SecretKey]) -> (r: Result<Vec<Chunk>, TransportFail>)
        ensures
            r is Ok <== exists|x: Seq<Seq<u8>>| packet@ == #[trigger] framed(x),
            r matches Ok(cs) ==> forall|x: Seq<Seq<u8>>|
                packet@ == #[trigger] framed(x) ==> cs.deep_view() == disassembled(
                    skey_views(keys@),
                    x,
                ),
            r matches Ok(cs) ==> exists|x: Seq<Seq<u8>>|
                #![trigger framed(x)]
                framed(x).len() <= packet@.len() && packet@.take(framed(x).len() as int)
                    == framed(x) && cs.deep_view() == disassembled(skey_views(keys@), x),
            r matches Err(e) ==> e == TransportFail::InvalidPacket,
    {
        let mut blobs = match decode_blobs(packet) {
            Some(v) => v,
            None => {
                return Err(TransportFail::InvalidPacket);
            },
        };
        let ghost bv = blobs.deep_view();
        let ghost kv = skey_views(keys@);
        let mut chunks: Vec<Chunk> = Vec::new();
        proof {
            assert(blobs.deep_view() =~~= bv.skip(0));
        }
        while blobs.len() > 0
            invariant
                kv == skey_views(keys@),
                chunks@.len() + blobs@.len() == bv.len(),
                blobs.deep_view() =~~= bv.skip(chunks@.len() as int),
                chunks.deep_view() =~~= disassembled(kv, bv).take(chunks@.len() as int),
            decreases blobs@.len(),
        {
            let ghost done = chunks@.len() as int;
            let ghost pre = blobs@;
            let blob = blobs.remove(0);
            proof {
                pre.remove_ensures(0);
                assert(blobs@ =~= pre.skip(1));
                assert(blob@ =~~= bv[done]) by {
                    assert(blob.deep_view() == bv.skip(done)[0]);
                }
                assert(blobs.deep_view() =~~= bv.skip(done + 1)) by {
                    assert(forall|k: int|
                        0 <= k < blobs@.len() ==> #[trigger] blobs.deep_view()[k] == bv.skip(
                            done,
                        )[k + 1]);
                }
            }
            let c = Chunk::decrypt(blob, keys);
            chunks.push(c);
            proof {
                assert(chunks.deep_view() =~~= disassembled(kv, bv).take(done + 1));
            }
        }
        proof {
            assert(chunks.deep_view() =~~= disassembled(kv, bv));
        }
        Ok(chunks)
    }

    /// Signed-mode counterpart of `from_bytes`: each blob must additionally
    /// carry the mark of a listed sender, and one that does not stays
    /// opaque, indistinguishable from an undecryptable blob.
    pub fn from_signed_bytes(packet: &[u8], keys: &[SecretKey], sender_keys: &[PublicKey]) -> (r:
        Result<Vec<Chunk>, TransportFail>)
        ensures
            r is Ok <== exists|x: Seq<Seq<u8>>| packet@ == #[trigger] framed(x),
            r matches Ok(cs) ==> forall|x: Seq<Seq<u8>>|
                packet@ == #[trigger] framed(x) ==> cs.deep_view() == disassembled_signed(
                    skey_views(keys@),
                    pkey_views(sender_keys@),
                    x,
                ),
            r matches Ok(cs) ==> exists|x: Seq<Seq<u8>>|
                #![trigger framed(x)]
                framed(x).len() <= packet@.len() && packet@.take(framed(x).len() as int)
                    == framed(x) && cs.deep_view() == disassembled_signed(
                    skey_views(keys@),
                    pkey_views(sender_keys@),
                    x,
                ),
            r matches Err(e) ==> e == TransportFail::InvalidPacket,
    {
        let mut blobs = match decode_blobs(packet) {
            Some(v) => v,
            None => {
                return Err(TransportFail::InvalidPacket);
            },
        };
        let ghost bv = blobs.deep_view();
        let ghost kv = skey_views(keys@);
        let ghost sv = pkey_views(sender_keys@);
        let mut chunks: Vec<Chunk> = Vec::new();
        proof {
            assert(blobs.deep_view() =~~= bv.skip(0));
        }
        while blobs.len() > 0
            invariant
                kv == skey_views(keys@),
                sv == pkey_views(sender_keys@),
                chunks@.len() + blobs@.len() == bv.len(),
                blobs.deep_view() =~~= bv.skip(chunks@.len() as int),
                chunks.deep_view() =~~= disassembled_signed(kv, sv, bv).take(chunks@.len() as int),
            decreases blobs@.len(),
        {
            let ghost done = chunks@.len() as int;
            let ghost pre = blobs@;
            let blob = blobs.remove(0);
            proof {
                pre.remove_ensures(0);
                assert(blobs@ =~= pre.skip(1));
                assert(blob@ =~~= bv[done]) by {
                    assert(blob.deep_view() == bv.skip(done)[0]);
                }
                assert(blobs.deep_view() =~~= bv.skip(done + 1)) by {
                    assert(forall|k: int|
                        0 <= k < blobs@.len() ==> #[trigger] blobs.deep_view()[k] == bv.skip(
                            done,
                        )[k + 1]);
                }
            }
            let c = Chunk::decrypt_signed(blob, keys, sender_keys);
            chunks.push(c);
            proof {
                assert(chunks.deep_view() =~~= disassembled_signed(kv, sv, bv).take(done + 1));
            }
        }
        proof {
            assert(chunks.deep_view() =~~= disassembled_signed(kv, sv, bv));
        }
        Ok(chunks)
    }
}

/// Every key material in the list is small enough to frame.
pub open spec fn keys_len_ok(ks: Seq<Seq<u8>>) -> bool {
    forall|i: int| 0 <= i < ks.len() ==> key_len_ok(#[trigger] ks[i])
}

/// Every chunk of a build-time packet is one a builder makes, and every
/// target key is small enough to frame.
pub open spec fn packet_buildable(pkt: Seq<(ChunkModel, Seq<u8>)>) -> bool {
    forall|i: int|
        0 <= i < pkt.len() ==> chunk_buildable((#[trigger] pkt[i]).0) && key_len_ok(pkt[i].1)
}

/// Every chunk's target key has its secret half among `own`.
pub open spec fn keys_cover(pkt: Seq<(ChunkModel, Seq<u8>)>, own: Seq<Seq<u8>>) -> bool {
    forall|i: int| 0 <= i < pkt.len() ==> own.contains((#[trigger] pkt[i]).1)
}

/// The chunks of a build-time packet, without their target keys.
pub open spec fn built_chunks(pkt: Seq<(ChunkModel, Seq<u8>)>) -> Seq<ChunkModel> {
    pkt.map_values(|p: (ChunkModel, Seq<u8>)| p.0)
}

/// A buildable chunk's body parses back to the chunk.
proof fn lemma_parse_chunk_plain(c: ChunkModel)
    requires
        chunk_buildable(c),
    ensures
        parse_plain(chunk_plain(c)) == Some(c),
{
    let plain = chunk_plain(c);
    match c {
        ChunkModel::Message(m) => {
            assert(plain[0] == 0u8);
            assert(plain.drop_first() =~= m);
        },
        ChunkModel::Transport(p) => {
            assert(plain[0] == 1u8);
            assert(plain.drop_first() =~= p);
        },
        ChunkModel::Encrypted(_) => {},
    }
}

/// A chunk encrypted for a key whose secret half is on hand decrypts back to
/// itself, whatever other keys stand in the list and in whatever order.
pub proof fn lemma_chunk_round_trip(c: ChunkModel, pk: Seq<u8>, own: Seq<Seq<u8>>)
    requires
        chunk_buildable(c),
        key_len_ok(pk),
        keys_len_ok(own),
        own.contains(pk),
    ensures
        decrypt_chunk(own, encrypted_chunk(c, pk)) == c,
    decreases own.len(),
{
    let blob = encrypted_chunk(c, pk);
    let plain = chunk_plain(c);
    assert(own.len() > 0);
    lemma_dec_enc(own[0], pk, plain);
    if own[0] == pk {
        lemma_parse_chunk_plain(c);
    } else {
        assert(decrypt_chunk_one(own[0], blob) is None);
        let rest = own.drop_first();
        assert(rest.contains(pk)) by {
            let i = choose|i: int| 0 <= i < own.len() && own[i] == pk;
            assert(rest[i - 1] == pk);
        }
        assert(keys_len_ok(rest)) by {
            assert(forall|i: int| 0 <= i < rest.len() ==> #[trigger] rest[i] == own[i + 1]);
        }
        lemma_chunk_round_trip(c, pk, rest);
    }
}

/// KEY ISOLATION: a chunk encrypted for a key whose secret half is not among
/// the keys on hand disassembles to the opaque chunk holding the original
/// blob — never an error, never a false-positive message or forwarding
/// instruction.
pub proof fn lemma_chunk_key_isolation(c: ChunkModel, pk: Seq<u8>, own: Seq<Seq<u8>>)
    requires
        chunk_buildable(c),
        key_len_ok(pk),
        keys_len_ok(own),
        !own.contains(pk),
    ensures
        decrypt_chunk(own, encrypted_chunk(c, pk)) == ChunkModel::Encrypted(
            encrypted_chunk(c, pk),
        ),
    decreases own.len(),
{
    if own.len() == 0 {
    } else {
        lemma_dec_enc(own[0], pk, chunk_plain(c));
        assert(own[0] != pk) by {
            if own[0] == pk {
                assert(own.contains(pk));
            }
        }
        let rest = own.drop_first();
        assert(!rest.contains(pk)) by {
            if rest.contains(pk) {
                let i = choose|i: int| 0 <= i < rest.len() && rest[i] == pk;
                assert(own[i + 1] == pk);
                assert(own.contains(pk));
            }
        }
        assert(keys_len_ok(rest)) by {
            assert(forall|i: int| 0 <= i < rest.len() ==> #[trigger] rest[i] == own[i + 1]);
        }
        lemma_chunk_key_isolation(c, pk, rest);
    }
}

/// A body marked by `signer` never passes as marked by a different key `a`.
proof fn lemma_sig_header_mismatch(a: Seq<u8>, signer: Seq<u8>, rest: Seq<u8>)
    requires
        key_len_ok(a),
        key_len_ok(signer),
        a != signer,
    ensures
        !((sig_header(signer) + rest).len() >= sig_header(a).len() && (sig_header(signer)
            + rest).take(sig_header(a).len() as int) == sig_header(a)),
{
    let b = sig_header(signer) + rest;
    let h = sig_header(a);
    lemma_sig_header_index(signer);
    lemma_sig_header_index(a);
    if b.len() >= h.len() && b.take(h.len() as int) == h {
        assert(forall|k: int| 0 <= k < h.len() ==> b[k] == #[trigger] h[k]) by {
            assert(forall|k: int| 0 <= k < h.len() ==> b[k] == #[trigger] b.take(
                h.len() as int,
            )[k]);
        }
        if a.len() == signer.len() {
            assert(exists|j: int| 0 <= j < signer.len() && signer[j] != a[j]) by {
                if forall|j: int| 0 <= j < signer.len() ==> signer[j] == #[trigger] a[j] {
                    assert(signer =~= a);
                }
            }
            let j = choose|j: int| 0 <= j < signer.len() && signer[j] != a[j];
            assert(b[9 + j] == signer[j]);
            assert(h[9 + j] == a[j]);
        } else {
            let la = a.len() as u64;
            let ls = signer.len() as u64;
            assert(u64_le_bytes(ls) != u64_le_bytes(la)) by {
                if u64_le_bytes(ls) == u64_le_bytes(la) {
                    lemma_u64_le_bytes_injective(ls, la);
                }
            }
            assert(exists|j: int| 0 <= j < 8 && u64_le_bytes(ls)[j] != u64_le_bytes(la)[j]) by {
                if forall|j: int| 0 <= j < 8 ==> u64_le_bytes(ls)[j] == #[trigger] u64_le_bytes(
                    la,
                )[j] {
                    assert(u64_le_bytes(ls) =~= u64_le_bytes(la));
                }
            }
            let j = choose|j: int| 0 <= j < 8 && u64_le_bytes(ls)[j] != u64_le_bytes(la)[j];
            assert(b[1 + j] == u64_le_bytes(ls)[j]);
            assert(h[1 + j] == u64_le_bytes(la)[j]);
        }
    }
}

/// Stripping the allow-list against a body marked by a listed sender yields
/// the body behind the mark.
proof fn lemma_strip_sig_match(senders: Seq<Seq<u8>>, signer: Seq<u8>, rest: Seq<u8>)
    requires
        keys_len_ok(senders),
        key_len_ok(signer),
        senders.contains(signer),
    ensures
        strip_sig(senders, sig_header(signer) + rest) == Some(rest),
    decreases senders.len(),
{
    let b = sig_header(signer) + rest;
    assert(senders.len() > 0);
    let h0 = sig_header(senders[0]);
    if senders[0] == signer {
        lemma_sig_header_index(signer);
        assert(b.take(h0.len() as int) =~= h0);
        assert(b.skip(h0.len() as int) =~= rest);
    } else {
        lemma_sig_header_mismatch(senders[0], signer, rest);
        let tail = senders.drop_first();
        assert(tail.contains(signer)) by {
            let i = choose|i: int| 0 <= i < senders.len() && senders[i] == signer;
            assert(tail[i - 1] == signer);
        }
        assert(keys_len_ok(tail)) by {
            assert(forall|i: int| 0 <= i < tail.len() ==> #[trigger] tail[i] == senders[i + 1]);
        }
        lemma_strip_sig_match(tail, signer, rest);
    }
}

/// Stripping the allow-list against a body marked by an unlisted signer
/// fails for every listed sender.
proof fn lemma_strip_sig_foreign(senders: Seq<Seq<u8>>, signer: Seq<u8>, rest: Seq<u8>)
    requires
        keys_len_ok(senders),
        key_len_ok(signer),
        !senders.contains(signer),
    ensures
        strip_sig(senders, sig_header(signer) + rest) is None,
    decreases senders.len(),
{
    if senders.len() == 0 {
    } else {
        assert(senders[0] != signer) by {
            if senders[0] == signer {
                assert(senders.contains(signer));
            }
        }
        lemma_sig_header_mismatch(senders[0], signer, rest);
        let tail = senders.drop_first();
        assert(!tail.contains(signer)) by {
            if tail.contains(signer) {
                let i = choose|i: int| 0 <= i < tail.len() && tail[i] == signer;
                assert(senders[i + 1] == signer);
                assert(senders.contains(signer));
            }
        }
        assert(keys_len_ok(tail)) by {
            assert(forall|i: int| 0 <= i < tail.len() ==> #[trigger] tail[i] == senders[i + 1]);
        }
        lemma_strip_sig_foreign(tail, signer, rest);
    }
}

/// Signed-mode counterpart of `lemma_chunk_round_trip`: with the target's
/// secret half on hand and the signer on the allow-list, a signed chunk
/// decrypts back to itself.
pub proof fn lemma_chunk_round_trip_signed(
    c: ChunkModel,
    pk: Seq<u8>,
    signer: Seq<u8>,
    own: Seq<Seq<u8>>,
    senders: Seq<Seq<u8>>,
)
    requires
        chunk_buildable(c),
        key_len_ok(pk),
        key_len_ok(signer),
        keys_len_ok(own),
        keys_len_ok(senders),
        own.contains(pk),
        senders.contains(signer),
    ensures
        decrypt_chunk_signed(own, senders, encrypted_chunk_signed(c, pk, signer)) == c,
    decreases own.len(),
{
    let body = sig_header(signer) + chunk_plain(c);
    assert(own.len() > 0);
    lemma_dec_enc(own[0], pk, body);
    if own[0] == pk {
        lemma_strip_sig_match(senders, signer, chunk_plain(c));
        lemma_parse_chunk_plain(c);
    } else {
        let rest = own.drop_first();
        assert(rest.contains(pk)) by {
            let i = choose|i: int| 0 <= i < own.len() && own[i] == pk;
            assert(rest[i - 1] == pk);
        }
        assert(keys_len_ok(rest)) by {
            assert(forall|i: int| 0 <= i < rest.len() ==> #[trigger] rest[i] == own[i + 1]);
        }
        lemma_chunk_round_trip_signed(c, pk, signer, rest, senders);
    }
}

/// A chunk whose sender mark no listed sender verifies stays opaque, exactly
/// as an undecryptable chunk would, even for the node that holds the
/// matching decryption key.
pub proof fn lemma_chunk_foreign_signer(
    c: ChunkModel,
    pk: Seq<u8>,
    signer: Seq<u8>,
    own: Seq<Seq<u8>>,
    senders: Seq<Seq<u8>>,
)
    requires
        chunk_buildable(c),
        key_len_ok(pk),
        key_len_ok(signer),
        keys_len_ok(own),
        keys_len_ok(senders),
        !senders.contains(signer),
    ensures
        decrypt_chunk_signed(own, senders, encrypted_chunk_signed(c, pk, signer))
            == ChunkModel::Encrypted(encrypted_chunk_signed(c, pk, signer)),
    decreases own.len(),
{
    if own.len() == 0 {
    } else {
        let body = sig_header(signer) + chunk_plain(c);
        lemma_dec_enc(own[0], pk, body);
        if own[0] == pk {
            lemma_strip_sig_foreign(senders, signer, chunk_plain(c));
        }
        let rest = own.drop_first();
        assert(keys_len_ok(rest)) by {
            assert(forall|i: int| 0 <= i < rest.len() ==> #[trigger] rest[i] == own[i + 1]);
        }
        lemma_chunk_foreign_signer(c, pk, signer, rest, senders);
    }
}

/// ROUND TRIP: a packet built from buildable chunks, disassembled with the
/// secret halves of all its target keys on hand, yields exactly the chunks
/// it was built from — as many, in the same order, with the same payloads.
pub proof fn lemma_packet_round_trip(pkt: Seq<(ChunkModel, Seq<u8>)>, own: Seq<Seq<u8>>)
    requires
        packet_buildable(pkt),
        keys_len_ok(own),
        keys_cover(pkt, own),
    ensures
        disassembled(own, wire_blobs(pkt)) == built_chunks(pkt),
{
    assert(disassembled(own, wire_blobs(pkt)) =~= built_chunks(pkt)) by {
        assert forall|i: int| 0 <= i < pkt.len() implies #[trigger] disassembled(
            own,
            wire_blobs(pkt),
        )[i] == built_chunks(pkt)[i] by {
            lemma_chunk_round_trip(pkt[i].0, pkt[i].1, own);
        }
    }
}

/// Signed-mode counterpart of `lemma_packet_round_trip`, for a packet signed
/// by a listed sender.
pub proof fn lemma_packet_round_trip_signed(
    pkt: Seq<(ChunkModel, Seq<u8>)>,
    signer: Seq<u8>,
    own: Seq<Seq<u8>>,
    senders: Seq<Seq<u8>>,
)
    requires
        packet_buildable(pkt),
        key_len_ok(signer),
        keys_len_ok(own),
        keys_len_ok(senders),
        keys_cover(pkt, own),
        senders.contains(signer),
    ensures
        disassembled_signed(own, senders, wire_blobs_signed(pkt, signer)) == built_chunks(pkt),
{
    assert(disassembled_signed(own, senders, wire_blobs_signed(pkt, signer)) =~= built_chunks(
        pkt,
    )) by {
        assert forall|i: int| 0 <= i < pkt.len() implies #[trigger] disassembled_signed(
            own,
            senders,
            wire_blobs_signed(pkt, signer),
        )[i] == built_chunks(pkt)[i] by {
            lemma_chunk_round_trip_signed(pkt[i].0, pkt[i].1, signer, own, senders);
        }
    }
}

/// No sender mark opens a body that does not begin with the mark byte.
proof fn lemma_strip_sig_unmarked(senders: Seq<Seq<u8>>, b: Seq<u8>)
    requires
        b.len() > 0,
        b[0] != 2u8,
    ensures
        strip_sig(senders, b) is None,
    decreases senders.len(),
{
    if senders.len() == 0 {
    } else {
        let h = sig_header(senders[0]);
        lemma_sig_header_index(senders[0]);
        if b.len() >= h.len() && b.take(h.len() as int) == h {
            assert(b.take(h.len() as int)[0] == b[0]);
        }
        lemma_strip_sig_unmarked(senders.drop_first(), b);
    }
}

/// An unsigned chunk is a no-op to a signed reader: without a sender mark
/// the body fails verification under every key, and the blob stays opaque.
pub proof fn lemma_unsigned_chunk_opaque_to_signed_reader(
    c: ChunkModel,
    pk: Seq<u8>,
    own: Seq<Seq<u8>>,
    senders: Seq<Seq<u8>>,
)
    requires
        chunk_buildable(c),
        key_len_ok(pk),
        keys_len_ok(own),
    ensures
        decrypt_chunk_signed(own, senders, encrypted_chunk(c, pk)) == ChunkModel::Encrypted(
            encrypted_chunk(c, pk),
        ),
    decreases own.len(),
{
    if own.len() == 0 {
    } else {
        let plain = chunk_plain(c);
        lemma_dec_enc(own[0], pk, plain);
        if own[0] == pk {
            assert(plain[0] != 2u8);
            lemma_strip_sig_unmarked(senders, plain);
        }
        let rest = own.drop_first();
        assert(keys_len_ok(rest)) by {
            assert(forall|i: int| 0 <= i < rest.len() ==> #[trigger] rest[i] == own[i + 1]);
        }
        lemma_unsigned_chunk_opaque_to_signed_reader(c, pk, rest, senders);
    }
}

/// A signed chunk is a no-op to an unsigned reader: its body begins with
/// the mark byte, which is no chunk tag, so the blob stays opaque.
pub proof fn lemma_signed_chunk_opaque_to_unsigned_reader(
    c: ChunkModel,
    pk: Seq<u8>,
    signer: Seq<u8>,
    own: Seq<Seq<u8>>,
)
    requires
        chunk_buildable(c),
        key_len_ok(pk),
        key_len_ok(signer),
        keys_len_ok(own),
    ensures
        decrypt_chunk(own, encrypted_chunk_signed(c, pk, signer)) == ChunkModel::Encrypted(
            encrypted_chunk_signed(c, pk, signer),
        ),
    decreases own.len(),
{
    if own.len() == 0 {
    } else {
        let body = sig_header(signer) + chunk_plain(c);
        lemma_dec_enc(own[0], pk, body);
        if own[0] == pk {
            lemma_sig_header_index(signer);
            assert(body[0] == 2u8);
            assert(parse_plain(body) is None);
        }
        let rest = own.drop_first();
        assert(keys_len_ok(rest)) by {
            assert(forall|i: int| 0 <= i < rest.len() ==> #[trigger] rest[i] == own[i + 1]);
        }
        lemma_signed_chunk_opaque_to_unsigned_reader(c, pk, signer, rest);
    }
}

} // verus!
