use std::cell::RefCell;

use mesher::crypto::SecretKey;
use mesher::mesher::Mesher;
use mesher::packet::Packet;
use mesher::transports::Transport;
use mesher::transports::TransportFail;

fn hex_encode(bytes: &[u8]) -> String {
    let mut s = String::new();
    for b in bytes {
        s.push_str(&format!("{:02x}", b));
    }
    s
}

fn hex_decode(s: &str) -> Vec<u8> {
    let chars: Vec<u8> = s.bytes().collect();
    let mut out = Vec::new();
    let mut i = 0;
    while i + 1 < chars.len() {
        let hi = (chars[i] as char).to_digit(16).unwrap() as u8;
        let lo = (chars[i + 1] as char).to_digit(16).unwrap() as u8;
        out.push(hi * 16 + lo);
        i += 2;
    }
    out
}

/// An in-memory backend: `listen` enqueues the packet spelled in hex after
/// the scheme, `send` loops the blob back into its own queue, `receive`
/// drains the queue.
struct Loopback {
    queue: RefCell<Vec<Vec<u8>>>,
}

impl Transport for Loopback {
    fn new(_scheme: &str) -> Result<Self, TransportFail> {
        Ok(Loopback { queue: RefCell::new(Vec::new()) })
    }

    fn send(&mut self, _path: String, blob: Vec<u8>) -> Result<(), TransportFail> {
        self.queue.borrow_mut().push(blob);
        Ok(())
    }

    fn listen(&mut self, path: String) -> Result<(), TransportFail> {
        match path.split_once(':') {
            Some((_, hex)) if !hex.is_empty() => {
                self.queue.borrow_mut().push(hex_decode(hex));
                Ok(())
            }
            _ => Ok(()),
        }
    }

    fn receive(&mut self) -> Result<Vec<Vec<u8>>, TransportFail> {
        let mut q = self.queue.borrow_mut();
        let drained = q.drain(..).collect();
        Ok(drained)
    }
}

/// A backend whose `send` reports the exact bytes it was handed, so a test
/// can observe what a mesher forwards.
struct Capture {
    queue: RefCell<Vec<Vec<u8>>>,
}

impl Transport for Capture {
    fn new(_scheme: &str) -> Result<Self, TransportFail> {
        Ok(Capture { queue: RefCell::new(Vec::new()) })
    }

    fn send(&mut self, _path: String, blob: Vec<u8>) -> Result<(), TransportFail> {
        Err(TransportFail::SendFailure(hex_encode(&blob)))
    }

    fn listen(&mut self, path: String) -> Result<(), TransportFail> {
        match path.split_once(':') {
            Some((_, hex)) if !hex.is_empty() => {
                self.queue.borrow_mut().push(hex_decode(hex));
                Ok(())
            }
            _ => Ok(()),
        }
    }

    fn receive(&mut self) -> Result<Vec<Vec<u8>>, TransportFail> {
        let mut q = self.queue.borrow_mut();
        let drained = q.drain(..).collect();
        Ok(drained)
    }
}

/// A backend that cannot be set up at all.
struct Broken;

impl Transport for Broken {
    fn new(scheme: &str) -> Result<Self, TransportFail> {
        Err(TransportFail::SetupFailure(format!("no backend for {}", scheme)))
    }

    fn send(&mut self, _path: String, _blob: Vec<u8>) -> Result<(), TransportFail> {
        Err(TransportFail::SendFailure("broken".to_string()))
    }

    fn listen(&mut self, _path: String) -> Result<(), TransportFail> {
        Err(TransportFail::ListenFailure("broken".to_string()))
    }

    fn receive(&mut self) -> Result<Vec<Vec<u8>>, TransportFail> {
        Err(TransportFail::ReceiveFailure("broken".to_string()))
    }
}

#[test]
fn unregistered_scheme_and_invalid_url() {
    let mut m: Mesher<Loopback> = Mesher::unsigned(vec![SecretKey::of("k")]);
    match m.listen_on("tcp:[::1]:9999") {
        Err(TransportFail::UnregisteredScheme(s)) => assert_eq!(s, "tcp"),
        _ => panic!("an unregistered scheme must be reported as such"),
    }
    match m.listen_on("nocolon") {
        Err(TransportFail::InvalidURL(_)) => {}
        _ => panic!("a path without a colon is an invalid URL"),
    }
}

#[test]
fn no_keys_on_signed_launch_with_empty_key_set() {
    let sender = SecretKey::of("sender");
    let mut m: Mesher<Loopback> = Mesher::signed(vec![], vec![sender.pkey()]);
    let packet = Packet::default().add_message(b"data", &sender.pkey());
    match m.launch(packet, "mock:nowhere") {
        Err(TransportFail::NoKeys) => {}
        _ => panic!("signing without any own key must fail with NoKeys"),
    }
}

#[test]
fn idle_drain_returns_empty_list() {
    let mut m: Mesher<Loopback> = Mesher::unsigned(vec![SecretKey::of("k")]);
    m.add_transport("mock").unwrap();
    let got = m.recv().unwrap();
    assert_eq!(got.len(), 0);
}

#[test]
fn setup_failure_propagates_from_add_transport() {
    let mut m: Mesher<Broken> = Mesher::unsigned(vec![SecretKey::of("k")]);
    match m.add_transport("tcp") {
        Err(TransportFail::SetupFailure(_)) => {}
        _ => panic!("a backend setup failure must propagate unchanged"),
    }
}

#[test]
fn launch_hands_serialized_packet_to_transport() {
    let target = SecretKey::of("target");
    let mut m: Mesher<Capture> = Mesher::unsigned(vec![]);
    m.add_transport("mock").unwrap();
    let packet = Packet::default().add_message(b"payload", &target.pkey());
    let expected = Packet::default()
        .add_message(b"payload", &target.pkey())
        .into_bytes()
        .unwrap();
    match m.launch(packet, "mock:first-hop") {
        Err(TransportFail::SendFailure(hex)) => assert_eq!(hex_decode(&hex), expected),
        _ => panic!("the capture backend reports what it was handed"),
    }
}

#[test]
fn multi_hop_forwards_byte_identical_packet() {
    let k1 = SecretKey::of("node one");
    let k2 = SecretKey::of("node two");
    let bytes = Packet::default()
        .add_hop("mock:n2".to_string(), &k1.pkey())
        .add_message(b"for the second hop", &k2.pkey())
        .into_bytes()
        .unwrap();

    // Node one holds only its own key; it must forward the untouched
    // original bytes to the path the hop chunk names.
    let mut n1: Mesher<Capture> = Mesher::unsigned(vec![SecretKey::of("node one")]);
    n1.add_transport("mock").unwrap();
    n1.listen_on(&format!("mock:{}", hex_encode(&bytes))).unwrap();
    let forwarded = match n1.recv() {
        Err(TransportFail::SendFailure(hex)) => hex_decode(&hex),
        _ => panic!("node one should have tried to forward the packet"),
    };
    assert_eq!(forwarded, bytes);

    // Node two receives the forwarded bytes and surfaces the message.
    let mut n2: Mesher<Loopback> = Mesher::unsigned(vec![SecretKey::of("node two")]);
    n2.add_transport("mock").unwrap();
    n2.listen_on(&format!("mock:{}", hex_encode(&forwarded))).unwrap();
    let got = n2.recv().unwrap();
    assert_eq!(got.len(), 1);
    assert_eq!(got[0].contents(), b"for the second hop");
}

#[test]
fn forwarded_copy_still_parses_after_loopback() {
    // With a loopback backend the forwarded packet comes back to the same
    // node on its next drain, still validly framed.
    let k1 = SecretKey::of("hop");
    let k2 = SecretKey::of("reader");
    let bytes = Packet::default()
        .add_hop("mock:self".to_string(), &k1.pkey())
        .add_message(b"deep payload", &k2.pkey())
        .into_bytes()
        .unwrap();
    let mut m: Mesher<Loopback> =
        Mesher::unsigned(vec![SecretKey::of("hop"), SecretKey::of("reader")]);
    m.add_transport("mock").unwrap();
    m.listen_on(&format!("mock:{}", hex_encode(&bytes))).unwrap();
    let first = m.recv().unwrap();
    assert_eq!(first.len(), 1);
    assert_eq!(first[0].contents(), b"deep payload");
    // The forwarded copy is drained on the next call and parses again.
    let second = m.recv().unwrap();
    assert_eq!(second.len(), 1);
    assert_eq!(second[0].contents(), b"deep payload");
}

#[test]
fn signed_launch_to_signed_receiver() {
    let sender = SecretKey::of("sender");
    let receiver = SecretKey::of("receiver");

    let mut n1: Mesher<Capture> = Mesher::signed(
        vec![SecretKey::of("sender")],
        vec![sender.pkey()],
    );
    n1.add_transport("mock").unwrap();
    let packet = Packet::default().add_message(b"authentic", &receiver.pkey());
    let sent = match n1.launch(packet, "mock:n2") {
        Err(TransportFail::SendFailure(hex)) => hex_decode(&hex),
        _ => panic!("the capture backend reports what it was handed"),
    };

    let mut n2: Mesher<Loopback> = Mesher::signed(
        vec![SecretKey::of("receiver")],
        vec![sender.pkey()],
    );
    n2.add_transport("mock").unwrap();
    n2.listen_on(&format!("mock:{}", hex_encode(&sent))).unwrap();
    let got = n2.recv().unwrap();
    assert_eq!(got.len(), 1);
    assert_eq!(got[0].contents(), b"authentic");

    // A node whose allow-list does not include the sender sees nothing.
    let mut n3: Mesher<Loopback> = Mesher::signed(
        vec![SecretKey::of("receiver")],
        vec![SecretKey::of("stranger").pkey()],
    );
    n3.add_transport("mock").unwrap();
    n3.listen_on(&format!("mock:{}", hex_encode(&sent))).unwrap();
    let got = n3.recv().unwrap();
    assert_eq!(got.len(), 0);
}

#[test]
fn receive_failure_aborts_recv() {
    // A mesher that never got a working backend for its registered scheme.
    let mut m: Mesher<Loopback> = Mesher::unsigned(vec![SecretKey::of("k")]);
    m.add_transport("mock").unwrap();
    // Malformed bytes in the queue make recv fail with InvalidPacket.
    m.listen_on("mock:ffff").unwrap();
    match m.recv() {
        Err(TransportFail::InvalidPacket) => {}
        _ => panic!("malformed framing aborts the whole call"),
    }
}

#[test]
fn latest_registration_wins() {
    let k = SecretKey::of("k");
    let bytes = Packet::default()
        .add_message(b"queued", &k.pkey())
        .into_bytes()
        .unwrap();
    let mut m: Mesher<Loopback> = Mesher::unsigned(vec![SecretKey::of("k")]);
    m.add_transport("mock").unwrap();
    m.listen_on(&format!("mock:{}", hex_encode(&bytes))).unwrap();
    // Registering the scheme again replaces the backend, and with it the
    // queued data; the mesher still drains cleanly.
    m.add_transport("mock").unwrap();
    let got = m.recv().unwrap();
    assert_eq!(got.len(), 0);
}

#[test]
fn launch_reports_bad_first_hop() {
    let k = SecretKey::of("k");
    let mut m: Mesher<Loopback> = Mesher::unsigned(vec![SecretKey::of("k")]);
    let packet = Packet::default().add_message(b"data", &k.pkey());
    match m.launch(packet, "tcp:[::1]:9999") {
        Err(TransportFail::UnregisteredScheme(s)) => assert_eq!(s, "tcp"),
        _ => panic!("an unregistered first hop must be reported as such"),
    }
    let packet = Packet::default().add_message(b"data", &k.pkey());
    match m.launch(packet, "nocolon") {
        Err(TransportFail::InvalidURL(_)) => {}
        _ => panic!("a first hop without a colon is an invalid URL"),
    }
}

#[test]
fn process_packet_succeeds_without_forwarding() {
    // A validly framed packet with no forwarding chunk asks nothing of any
    // backend, so processing succeeds even with an empty registry.
    let k = SecretKey::of("k");
    let other = SecretKey::of("someone else");
    let bytes = Packet::default()
        .add_message(b"mine", &k.pkey())
        .add_message(b"not mine", &other.pkey())
        .into_bytes()
        .unwrap();
    let mut m: Mesher<Loopback> = Mesher::unsigned(vec![SecretKey::of("k")]);
    let got = m.process_packet(&bytes).unwrap();
    assert_eq!(got.len(), 1);
    assert_eq!(got[0].contents(), b"mine");
}
