//! The mesher: the per-node orchestrator that binds key material to
//! registered network backends and routes chunk by chunk.
//!
//! A mesher owns its secret keys, an optional allow-list of sender public
//! keys (non-empty exactly in signed mode), and an exclusive scheme-to-
//! backend registry in which the latest registration for a scheme wins.
//! Receiving drains every backend, disassembles every packet, surfaces the
//! message chunks, and forwards the untouched original packet bytes wherever
//! a forwarding chunk points; opaque chunks are silently dropped.

use vstd::prelude::*;

use crate::codec::framed;
use crate::crypto::pkey_views;
use crate::crypto::skey_views;
use crate::crypto::PublicKey;
use crate::crypto::SecretKey;
use crate::packet::disassembled;
use crate::packet::disassembled_signed;
use crate::packet::Chunk;
use crate::packet::ChunkModel;
use crate::packet::Packet;
use crate::transports::Transport;
use crate::transports::TransportFail;
use vstd::string::StrSliceExecFns;

verus! {

/// A single message received by a mesher, handed to the caller for one
/// receive cycle.
pub struct Message {
    contents: Vec<u8>,
}

impl View for Message {
    type V = Seq<u8>;

    closed spec fn view(&self) -> Seq<u8> {
        self.contents@
    }
}

impl DeepView for Message {
    type V = Seq<u8>;

    open spec fn deep_view(&self) -> Seq<u8> {
        self.view()
    }
}

impl Message {
    /// The contents of the message.
    pub fn contents(&self) -> (r: &[u8])
        ensures
            r@ == self@,
    {
        self.contents.as_slice()
    }
}

/// The payloads of the message chunks of a chunk list, in order; forwarding
/// and opaque chunks contribute nothing.
pub open spec fn messages_of(cs: Seq<ChunkModel>) -> Seq<Seq<u8>>
    decreases cs.len(),
{
    if cs.len() == 0 {
        Seq::empty()
    } else {
        match cs[0] {
            ChunkModel::Message(m) => seq![m] + messages_of(cs.drop_first()),
            _ => messages_of(cs.drop_first()),
        }
    }
}

/// Extending a chunk list by one chunk extends its messages by that chunk's
/// payload when it is a message, and by nothing otherwise.
proof fn lemma_messages_of_push(cs: Seq<ChunkModel>, c: ChunkModel)
    ensures
        messages_of(cs.push(c)) == messages_of(cs) + (match c {
            ChunkModel::Message(m) => seq![m],
            _ => Seq::<Seq<u8>>::empty(),
        }),
    decreases cs.len(),
{
    let tail = match c {
        ChunkModel::Message(m) => seq![m],
        _ => Seq::<Seq<u8>>::empty(),
    };
    if cs.len() == 0 {
        assert(cs.push(c).drop_first() =~= Seq::<ChunkModel>::empty());
        assert(messages_of(Seq::<ChunkModel>::empty()) =~= Seq::<Seq<u8>>::empty());
        assert(messages_of(cs.push(c)) =~= tail);
        assert(messages_of(cs) + tail =~= tail);
    } else {
        assert(cs.push(c).drop_first() =~= cs.drop_first().push(c));
        lemma_messages_of_push(cs.drop_first(), c);
        match cs[0] {
            ChunkModel::Message(m) => {
                assert(messages_of(cs.push(c)) =~= messages_of(cs) + tail);
            },
            _ => {},
        }
    }
}

/// Whether a chunk list holds no forwarding instruction, so that processing
/// it asks nothing of any backend.
pub open spec fn forwarding_free(cs: Seq<ChunkModel>) -> bool {
    forall|i: int| 0 <= i < cs.len() ==> !((#[trigger] cs[i]) is Transport)
}

/// Index of the first colon in a path, or a negative value when there is
/// none.
pub open spec fn colon_pos(s: Seq<char>) -> int
    decreases s.len(),
{
    if s.len() == 0 {
        -1
    } else if s[0] == ':' {
        0
    } else {
        let r = colon_pos(s.drop_first());
        if r < 0 {
            -1
        } else {
            r + 1
        }
    }
}

/// Whether a path carries a scheme: text before a first colon.
pub open spec fn has_scheme(s: Seq<char>) -> bool {
    colon_pos(s) >= 0
}

/// The scheme of a path: everything before its first colon.
pub open spec fn scheme_of(s: Seq<char>) -> Seq<char> {
    s.take(colon_pos(s))
}

/// The first colon is a colon, and nothing before it is one; where the
/// position is negative, the path holds no colon at all.
proof fn lemma_colon_pos(s: Seq<char>)
    ensures
        colon_pos(s) < 0 ==> forall|j: int| 0 <= j < s.len() ==> s[j] != ':',
        colon_pos(s) >= 0 ==> colon_pos(s) < s.len() && s[colon_pos(s)] == ':' && forall|j: int|
            0 <= j < colon_pos(s) ==> s[j] != ':',
    decreases s.len(),
{
    if s.len() == 0 {
    } else if s[0] == ':' {
    } else {
        let d = s.drop_first();
        lemma_colon_pos(d);
        if colon_pos(s) < 0 {
            assert forall|j: int| 0 <= j < s.len() implies s[j] != ':' by {
                if j > 0 {
                    assert(d[j - 1] == s[j]);
                }
            }
        } else {
            assert(s[colon_pos(s)] == d[colon_pos(s) - 1]);
            assert forall|j: int| 0 <= j < colon_pos(s) implies s[j] != ':' by {
                if j > 0 {
                    assert(d[j - 1] == s[j]);
                }
            }
        }
    }
}

/// Finds the first colon of a path, if any.
fn find_colon(path: &str) -> (r: Option<usize>)
    ensures
        match r {
            Some(i) => i == colon_pos(path@),
            None => colon_pos(path@) < 0,
        },
{
    let n = path.unicode_len();
    for i in 0..n
        invariant
            n == path@.len(),
            forall|j: int| 0 <= j < i ==> path@[j] != ':',
    {
        if path.get_char(i) == ':' {
            proof {
                lemma_colon_pos(path@);
            }
            return Some(i);
        }
    }
    proof {
        lemma_colon_pos(path@);
    }
    None
}

/// The control interface for a single node.
///
/// A mesher only stores keys; key management around it is the caller's
/// responsibility.  The backend type is chosen by the caller: a deployment
/// with several kinds of backend gives `T` a tagged union over them.
pub struct Mesher<T: Transport> {
    transports: Vec<(String, T)>,
    own_skeys: Vec<SecretKey>,
    sender_pkeys: Vec<PublicKey>,
}

impl<T: Transport> Mesher<T> {
    /// The registered schemes, in registration order.
    pub closed spec fn schemes(&self) -> Seq<Seq<char>> {
        self.transports@.map_values(|p: (String, T)| p.0@)
    }

    /// The materials of the mesher's own secret keys, in decryption-attempt
    /// order.
    pub closed spec fn own_keys(&self) -> Seq<Seq<u8>> {
        skey_views(self.own_skeys@)
    }

    /// The materials of the allow-listed sender keys; empty means unsigned
    /// mode.
    pub closed spec fn sender_keys(&self) -> Seq<Seq<u8>> {
        pkey_views(self.sender_pkeys@)
    }

    /// Whether the mesher expects incoming chunks to carry a listed sender's
    /// mark.
    pub open spec fn is_signed(&self) -> bool {
        self.sender_keys().len() > 0
    }

    /// The registry maps each scheme to at most one backend.
    pub open spec fn wf(&self) -> bool {
        forall|i: int, j: int|
            0 <= i < j < self.schemes().len() ==> self.schemes()[i] != self.schemes()[j]
    }

    /// Whether a backend is registered for the given scheme.
    pub open spec fn registered(&self, scheme: Seq<char>) -> bool {
        self.schemes().contains(scheme)
    }

    /// What this mesher makes of a received blob list, in its mode.
    pub open spec fn disassembly(&self, blobs: Seq<Seq<u8>>) -> Seq<ChunkModel> {
        if self.is_signed() {
            disassembled_signed(self.own_keys(), self.sender_keys(), blobs)
        } else {
            disassembled(self.own_keys(), blobs)
        }
    }

    /// Creates a mesher which expects incoming chunks to carry the mark of
    /// one of the given senders, and which marks its own outgoing packets
    /// with one of its own keys.  Signed mode asks for at least one listed
    /// sender.
    pub fn signed(own_skeys: Vec<SecretKey>, sender_pkeys: Vec<PublicKey>) -> (r: Mesher<T>)
        requires
            sender_pkeys@.len() > 0,
        ensures
            r.own_keys() == skey_views(own_skeys@),
            r.sender_keys() == pkey_views(sender_pkeys@),
            r.is_signed(),
            r.schemes().len() == 0,
            r.wf(),
    {
        let r = Mesher { transports: Vec::new(), own_skeys, sender_pkeys };
        proof {
            assert(r.schemes() =~= Seq::<Seq<char>>::empty());
        }
        r
    }

    /// Creates a mesher which neither marks outgoing packets nor expects
    /// marks on incoming ones.  The keys decrypt the chunks meant for it.
    pub fn unsigned(own_skeys: Vec<SecretKey>) -> (r: Mesher<T>)
        ensures
            r.own_keys() == skey_views(own_skeys@),
            r.sender_keys().len() == 0,
            !r.is_signed(),
            r.schemes().len() == 0,
            r.wf(),
    {
        let r = Mesher { transports: Vec::new(), own_skeys, sender_pkeys: Vec::new() };
        proof {
            assert(r.schemes() =~= Seq::<Seq<char>>::empty());
            assert(r.sender_keys() =~= Seq::<Seq<u8>>::empty());
        }
        r
    }

    /// Builds a backend for `scheme` and stores it in the registry,
    /// replacing any backend the scheme already had.  A setup failure of the
    /// backend propagates unchanged and registers nothing.
    pub fn add_transport(&mut self, scheme: &str) -> (r: Result<(), TransportFail>)
        requires
            old(self).wf(),
        ensures
            final(self).wf(),
            final(self).own_keys() == old(self).own_keys(),
            final(self).sender_keys() == old(self).sender_keys(),
            r is Ok ==> final(self).schemes() == (if old(self).registered(scheme@) {
                old(self).schemes()
            } else {
                old(self).schemes().push(scheme@)
            }),
            r is Err ==> final(self).schemes() == old(self).schemes(),
    {
        let t = match T::new(scheme) {
            Ok(t) => t,
            Err(e) => {
                return Err(e);
            },
        };
        let key = scheme.to_owned();
        let n = self.transports.len();
        for i in 0..n
            invariant
                *self == *old(self),
                old(self).wf(),
                n == self.transports@.len(),
                key@ == scheme@,
                forall|j: int| 0 <= j < i ==> self.schemes()[j] != scheme@,
        {
            if self.transports[i].0.eq(&key) {
                let ghost pre = self.transports@;
                let entry = &mut self.transports[i];
                *entry = (key, t);
                proof {
                    assert(self.transports@ =~= pre.update(i as int, self.transports@[i as int]));
                    assert(self.schemes() =~= old(self).schemes()) by {
                        assert(forall|j: int|
                            0 <= j < pre.len() && j != i ==> self.transports@[j]
                                == #[trigger] pre[j]);
                        assert(self.transports@[i as int].0@ == pre[i as int].0@);
                    }
                    assert(self.registered(scheme@)) by {
                        assert(self.schemes()[i as int] == scheme@);
                    }
                    assert forall|a: int, b: int|
                        0 <= a < b < self.schemes().len() implies self.schemes()[a]
                        != self.schemes()[b] by {
                        assert(old(self).schemes()[a] != old(self).schemes()[b]);
                    }
                }
                return Ok(());
            }
        }
        proof {
            if old(self).registered(scheme@) {
                let i = choose|i: int|
                    0 <= i < old(self).schemes().len() && old(self).schemes()[i] == scheme@;
                assert(false);
            }
        }
        self.transports.push((key, t));
        proof {
            assert(self.schemes() =~= old(self).schemes().push(scheme@));
        }
        Ok(())
    }

    /// Finds the registered backend for the scheme of `path`, as an index
    /// into the registry.  A path without a colon is an invalid URL; a
    /// scheme without a backend is unregistered.
    fn get_transport_for_path(&self, path: &str) -> (r: Result<usize, TransportFail>)
        requires
            self.wf(),
        ensures
            r matches Ok(i) ==> has_scheme(path@) && i < self.schemes().len() && self.schemes()[i as int] == scheme_of(path@),
            has_scheme(path@) && self.registered(scheme_of(path@)) ==> r is Ok,
            !has_scheme(path@) ==> (r matches Err(e) && e matches TransportFail::InvalidURL(_)),
            has_scheme(path@) && !self.registered(scheme_of(path@)) ==> (r matches Err(e)
                && e matches TransportFail::UnregisteredScheme(s) && s@ == scheme_of(path@)),
    {
        let ci = match find_colon(path) {
            Some(i) => i,
            None => {
                return Err(
                    TransportFail::InvalidURL("no colon-delimited scheme segment".to_owned()),
                );
            },
        };
        proof {
            lemma_colon_pos(path@);
        }
        let scheme = path.substring_char(0, ci).to_owned();
        assert(scheme@ == scheme_of(path@));
        let n = self.transports.len();
        for i in 0..n
            invariant
                n == self.transports@.len(),
                has_scheme(path@),
                scheme@ == scheme_of(path@),
                forall|j: int| 0 <= j < i ==> self.schemes()[j] != scheme@,
        {
            if self.transports[i].0.eq(&scheme) {
                proof {
                    assert(self.schemes()[i as int] == scheme_of(path@));
                    assert(self.registered(scheme_of(path@)));
                }
                return Ok(i);
            }
        }
        proof {
            if self.registered(scheme_of(path@)) {
                let i = choose|i: int|
                    0 <= i < self.schemes().len() && self.schemes()[i] == scheme@;
                assert(false);
            }
        }
        Err(TransportFail::UnregisteredScheme(scheme))
    }

    /// Tells the backend registered for the scheme of `path` to listen on
    /// it.  What listening means is up to the backend.
    pub fn listen_on(&mut self, path: &str) -> (r: Result<(), TransportFail>)
        requires
            old(self).wf(),
        ensures
            final(self).wf(),
            final(self).schemes() == old(self).schemes(),
            final(self).own_keys() == old(self).own_keys(),
            final(self).sender_keys() == old(self).sender_keys(),
            !has_scheme(path@) ==> (r matches Err(e) && e matches TransportFail::InvalidURL(_)),
            has_scheme(path@) && !old(self).registered(scheme_of(path@)) ==> (r matches Err(e)
                && e matches TransportFail::UnregisteredScheme(s) && s@ == scheme_of(path@)),
    {
        let idx = match self.get_transport_for_path(path) {
            Ok(i) => i,
            Err(e) => {
                return Err(e);
            },
        };
        let entry = &mut self.transports[idx].1;
        let r = entry.listen(path.to_owned());
        proof {
            assert(self.schemes() =~= old(self).schemes());
        }
        r
    }

    /// Sends the given bytes along `path` through the matching backend.
    fn bounce(&mut self, packet: &[u8], path: &str) -> (r: Result<(), TransportFail>)
        requires
            old(self).wf(),
        ensures
            final(self).wf(),
            final(self).schemes() == old(self).schemes(),
            final(self).own_keys() == old(self).own_keys(),
            final(self).sender_keys() == old(self).sender_keys(),
            !has_scheme(path@) ==> (r matches Err(e) && e matches TransportFail::InvalidURL(_)),
            has_scheme(path@) && !old(self).registered(scheme_of(path@)) ==> (r matches Err(e)
                && e matches TransportFail::UnregisteredScheme(s) && s@ == scheme_of(path@)),
    {
        let idx = match self.get_transport_for_path(path) {
            Ok(i) => i,
            Err(e) => {
                return Err(e);
            },
        };
        let blob = vstd::slice::slice_to_vec(packet);
        let entry = &mut self.transports[idx].1;
        let r = entry.send(path.to_owned(), blob);
        proof {
            assert(self.schemes() =~= old(self).schemes());
        }
        r
    }

    /// Serializes a packet and hands the bytes to the backend addressed by
    /// `first_hop`.  The originator never disassembles its own outgoing
    /// packet.  In signed mode the packet is marked with one of the
    /// mesher's own keys — which one is unspecified — and with no own key
    /// configured the operation fails with `NoKeys`; otherwise, since
    /// serialization cannot fail, a missing or unregistered scheme in
    /// `first_hop` is reported exactly as `bounce` reports it.
    pub fn launch(&mut self, packet: Packet, first_hop: &str) -> (r: Result<(), TransportFail>)
        requires
            old(self).wf(),
        ensures
            final(self).wf(),
            final(self).schemes() == old(self).schemes(),
            final(self).own_keys() == old(self).own_keys(),
            final(self).sender_keys() == old(self).sender_keys(),
            old(self).is_signed() && old(self).own_keys().len() == 0 ==> (r matches Err(e) && e
                == TransportFail::NoKeys),
            !(old(self).is_signed() && old(self).own_keys().len() == 0) && !has_scheme(
                first_hop@,
            ) ==> (r matches Err(e) && e matches TransportFail::InvalidURL(_)),
            !(old(self).is_signed() && old(self).own_keys().len() == 0) && has_scheme(first_hop@)
                && !old(self).registered(scheme_of(first_hop@)) ==> (r matches Err(e)
                && e matches TransportFail::UnregisteredScheme(s) && s@ == scheme_of(first_hop@)),
    {
        let bytes = if self.sender_pkeys.len() == 0 {
            match packet.into_bytes() {
                Ok(b) => b,
                Err(e) => {
                    return Err(e);
                },
            }
        } else {
            if self.own_skeys.len() == 0 {
                return Err(TransportFail::NoKeys);
            }
            let signer = &self.own_skeys[0];
            match packet.into_signed_bytes(signer) {
                Ok(b) => b,
                Err(e) => {
                    return Err(e);
                },
            }
        };
        self.bounce(bytes.as_slice(), first_hop)
    }

    /// Disassembles one received packet in the mesher's mode: surfaces the
    /// payload of every message chunk in packet order, forwards the
    /// untouched original bytes for every forwarding chunk, and drops every
    /// opaque chunk.  A forwarding failure aborts the call with that error.
    pub fn process_packet(&mut self, pkt: &Vec<u8>) -> (r: Result<Vec<Message>, TransportFail>)
        requires
            old(self).wf(),
        ensures
            final(self).wf(),
            final(self).schemes() == old(self).schemes(),
            final(self).own_keys() == old(self).own_keys(),
            final(self).sender_keys() == old(self).sender_keys(),
            r matches Ok(msgs) ==> forall|x: Seq<Seq<u8>>|
                pkt@ == #[trigger] framed(x) ==> msgs.deep_view() == messages_of(
                    old(self).disassembly(x),
                ),
            forall|x: Seq<Seq<u8>>|
                pkt@ == #[trigger] framed(x) && forwarding_free(old(self).disassembly(x))
                    ==> r is Ok,
    {
        let chunks = if self.sender_pkeys.len() == 0 {
            match Packet::from_bytes(pkt.as_slice(), self.own_skeys.as_slice()) {
                Ok(c) => c,
                Err(e) => {
                    return Err(e);
                },
            }
        } else {
            match Packet::from_signed_bytes(
                pkt.as_slice(),
                self.own_skeys.as_slice(),
                self.sender_pkeys.as_slice(),
            ) {
                Ok(c) => c,
                Err(e) => {
                    return Err(e);
                },
            }
        };
        let ghost dis = chunks.deep_view();
        let mut rest = chunks;
        let mut messages: Vec<Message> = Vec::new();
        proof {
            assert(rest.deep_view() =~~= dis.skip(0));
            assert(messages.deep_view() =~~= messages_of(dis.take(0)));
        }
        while rest.len() > 0
            invariant
                self.wf(),
                self.schemes() == old(self).schemes(),
                self.own_keys() == old(self).own_keys(),
                self.sender_keys() == old(self).sender_keys(),
                forall|x: Seq<Seq<u8>>|
                    pkt@ == #[trigger] framed(x) ==> dis == old(self).disassembly(x),
                rest@.len() <= dis.len(),
                rest.deep_view() =~~= dis.skip(dis.len() - rest@.len()),
                messages.deep_view() =~~= messages_of(dis.take(dis.len() - rest@.len())),
            decreases rest@.len(),
        {
            let ghost done = dis.len() - rest@.len();
            let ghost pre = rest@;
            let c = rest.remove(0);
            proof {
                pre.remove_ensures(0);
                assert(rest@ =~= pre.skip(1));
                assert(c.deep_view() == dis.skip(done)[0]);
                assert(rest.deep_view() =~~= dis.skip(done + 1)) by {
                    assert(forall|k: int|
                        0 <= k < rest@.len() ==> #[trigger] rest.deep_view()[k] == dis.skip(
                            done,
                        )[k + 1]);
                }
                assert(dis.take(done + 1) =~= dis.take(done).push(dis[done]));
                lemma_messages_of_push(dis.take(done), dis[done]);
            }
            match c {
                Chunk::Message(m) => {
                    messages.push(Message { contents: m });
                    proof {
                        assert(messages.deep_view() =~~= messages_of(dis.take(done + 1)));
                    }
                },
                Chunk::Transport(to) => {
                    proof {
                        assert(dis[done] is Transport);
                        assert(forall|x: Seq<Seq<u8>>|
                            pkt@ == #[trigger] framed(x) ==> !forwarding_free(
                                old(self).disassembly(x),
                            ));
                    }
                    match self.bounce(pkt.as_slice(), to.as_str()) {
                        Ok(_) => {},
                        Err(e) => {
                            return Err(e);
                        },
                    }
                    proof {
                        assert(messages.deep_view() =~~= messages_of(dis.take(done + 1)));
                    }
                },
                Chunk::Encrypted(_) => {
                    proof {
                        assert(messages.deep_view() =~~= messages_of(dis.take(done + 1)));
                    }
                },
            }
        }
        proof {
            assert(messages.deep_view() =~~= messages_of(dis));
            assert(dis.take(dis.len() - 0) =~= dis);
        }
        Ok(messages)
    }

    /// Drains every registered backend and processes every packet that had
    /// already arrived, in registry order.  Any backend or forwarding
    /// failure aborts the whole call with that error; no partial result is
    /// returned.
    pub fn recv(&mut self) -> (r: Result<Vec<Message>, TransportFail>)
        requires
            old(self).wf(),
        ensures
            final(self).wf(),
            final(self).schemes() == old(self).schemes(),
            final(self).own_keys() == old(self).own_keys(),
            final(self).sender_keys() == old(self).sender_keys(),
    {
        let mut packets: Vec<Vec<u8>> = Vec::new();
        let n = self.transports.len();
        for i in 0..n
            invariant
                self.wf(),
                n == self.transports@.len(),
                self.schemes() == old(self).schemes(),
                self.own_keys() == old(self).own_keys(),
                self.sender_keys() == old(self).sender_keys(),
        {
            let ghost pre = self.transports@;
            let entry = &mut self.transports[i].1;
            let got = entry.receive();
            proof {
                assert(self.schemes() =~= pre.map_values(|p: (String, T)| p.0@));
            }
            match got {
                Ok(mut v) => {
                    packets.append(&mut v);
                },
                Err(e) => {
                    return Err(e);
                },
            }
        }
        let mut messages: Vec<Message> = Vec::new();
        let m = packets.len();
        for j in 0..m
            invariant
                self.wf(),
                m == packets@.len(),
                self.schemes() == old(self).schemes(),
                self.own_keys() == old(self).own_keys(),
                self.sender_keys() == old(self).sender_keys(),
        {
            match self.process_packet(&packets[j]) {
                Ok(mut ms) => {
                    messages.append(&mut ms);
                },
                Err(e) => {
                    return Err(e);
                },
            }
        }
        Ok(messages)
    }
}

} // verus!
