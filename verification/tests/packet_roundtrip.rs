use mesher::crypto::PublicKey;
use mesher::crypto::SecretKey;
use mesher::packet::Chunk;
use mesher::packet::Packet;
use mesher::transports::TransportFail;

#[test]
fn round_trip_unsigned_two_chunks() {
    let ka = SecretKey::of("alpha");
    let kb = SecretKey::of("beta");
    let packet = Packet::default()
        .add_message(b"hello world", &ka.pkey())
        .add_hop("tcp:[::1]:18540".to_string(), &kb.pkey());
    let bytes = packet.into_bytes().unwrap();
    let chunks = Packet::from_bytes(&bytes, &[SecretKey::of("alpha"), SecretKey::of("beta")])
        .unwrap();
    assert_eq!(chunks.len(), 2);
    match &chunks[0] {
        Chunk::Message(m) => assert_eq!(m.as_slice(), b"hello world"),
        _ => panic!("first chunk should be a message"),
    }
    match &chunks[1] {
        Chunk::Transport(p) => assert_eq!(p.as_str(), "tcp:[::1]:18540"),
        _ => panic!("second chunk should be a forwarding path"),
    }
}

#[test]
fn round_trip_unsigned_key_order_irrelevant() {
    let ka = SecretKey::of("alpha");
    let packet = Packet::default().add_message(b"x", &ka.pkey());
    let bytes = packet.into_bytes().unwrap();
    let chunks = Packet::from_bytes(
        &bytes,
        &[SecretKey::of("unrelated"), SecretKey::of("alpha")],
    )
    .unwrap();
    assert_eq!(chunks.len(), 1);
    match &chunks[0] {
        Chunk::Message(m) => assert_eq!(m.as_slice(), b"x"),
        _ => panic!("chunk should be a message"),
    }
}

#[test]
fn round_trip_signed() {
    let sender = SecretKey::of("sender");
    let target = SecretKey::of("target");
    let packet = Packet::default()
        .add_message(b"signed payload", &target.pkey())
        .add_hop("mock:next".to_string(), &target.pkey());
    let bytes = packet.into_signed_bytes(&sender).unwrap();
    let chunks =
        Packet::from_signed_bytes(&bytes, &[SecretKey::of("target")], &[sender.pkey()]).unwrap();
    assert_eq!(chunks.len(), 2);
    match &chunks[0] {
        Chunk::Message(m) => assert_eq!(m.as_slice(), b"signed payload"),
        _ => panic!("first chunk should be a message"),
    }
    match &chunks[1] {
        Chunk::Transport(p) => assert_eq!(p.as_str(), "mock:next"),
        _ => panic!("second chunk should be a forwarding path"),
    }
}

#[test]
fn signed_packet_opaque_to_unsigned_reader() {
    let sender = SecretKey::of("sender");
    let target = SecretKey::of("target");
    let bytes = Packet::default()
        .add_message(b"data", &target.pkey())
        .into_signed_bytes(&sender)
        .unwrap();
    let chunks = Packet::from_bytes(&bytes, &[SecretKey::of("target")]).unwrap();
    assert_eq!(chunks.len(), 1);
    assert!(matches!(chunks[0], Chunk::Encrypted(_)));
}

#[test]
fn unsigned_packet_opaque_to_signed_reader() {
    let sender = SecretKey::of("sender");
    let target = SecretKey::of("target");
    let bytes = Packet::default()
        .add_message(b"data", &target.pkey())
        .into_bytes()
        .unwrap();
    let chunks =
        Packet::from_signed_bytes(&bytes, &[SecretKey::of("target")], &[sender.pkey()]).unwrap();
    assert_eq!(chunks.len(), 1);
    assert!(matches!(chunks[0], Chunk::Encrypted(_)));
}

#[test]
fn foreign_signer_degrades_to_encrypted() {
    let sender = SecretKey::of("sender");
    let other = SecretKey::of("someone else");
    let target = SecretKey::of("target");
    let bytes = Packet::default()
        .add_message(b"data", &target.pkey())
        .into_signed_bytes(&sender)
        .unwrap();
    let chunks =
        Packet::from_signed_bytes(&bytes, &[SecretKey::of("target")], &[other.pkey()]).unwrap();
    assert_eq!(chunks.len(), 1);
    assert!(matches!(chunks[0], Chunk::Encrypted(_)));
}

#[test]
fn key_isolation_yields_original_blob() {
    let ka = SecretKey::of("alpha");
    let blob = Chunk::Message(b"secret".to_vec()).encrypt(ka.pkey());
    let got = Chunk::decrypt(blob.clone(), &[SecretKey::of("beta"), SecretKey::of("gamma")]);
    match got {
        Chunk::Encrypted(v) => assert_eq!(v, blob),
        _ => panic!("a blob for another key must stay opaque"),
    }
}

#[test]
fn decrypt_with_no_keys_yields_original_blob() {
    let ka = SecretKey::of("alpha");
    let blob = Chunk::Message(b"secret".to_vec()).encrypt(ka.pkey());
    match Chunk::decrypt(blob.clone(), &[]) {
        Chunk::Encrypted(v) => assert_eq!(v, blob),
        _ => panic!("with no keys every blob stays opaque"),
    }
}

#[test]
fn cipher_exact_bytes() {
    // The wire form of the stand-in cipher: an eight-byte little-endian
    // material length, the material, then the plaintext.
    let pk = PublicKey::of("k");
    assert_eq!(pk.encrypt(&[9]), vec![1, 0, 0, 0, 0, 0, 0, 0, b'k', 9]);
    // A message chunk body prepends tag byte 0.
    let blob = Chunk::Message(vec![9]).encrypt(SecretKey::of("k").pkey());
    assert_eq!(blob, vec![1, 0, 0, 0, 0, 0, 0, 0, b'k', 0, 9]);
}

#[test]
fn decrypt_onekey_rejects_malformed_bodies() {
    let k = SecretKey::of("k");
    // Empty body.
    let empty = k.pkey().encrypt(&[]);
    assert!(Chunk::decrypt_onekey(&empty, &k).is_err());
    // Unknown tag.
    let unknown = k.pkey().encrypt(&[7, 1, 2]);
    assert!(Chunk::decrypt_onekey(&unknown, &k).is_err());
    // Forwarding path that is not valid text.
    let bad_text = k.pkey().encrypt(&[1, 0xff, 0xfe]);
    assert!(Chunk::decrypt_onekey(&bad_text, &k).is_err());
    // A well-formed message body parses.
    let fine = k.pkey().encrypt(&[0, 42]);
    match Chunk::decrypt_onekey(&fine, &k).unwrap() {
        Chunk::Message(m) => assert_eq!(m, vec![42]),
        _ => panic!("tag byte 0 should parse as a message"),
    }
}

#[test]
fn malformed_body_folds_to_encrypted_not_error() {
    let k = SecretKey::of("k");
    let unknown = k.pkey().encrypt(&[7, 1, 2]);
    match Chunk::decrypt(unknown.clone(), &[k]) {
        Chunk::Encrypted(v) => assert_eq!(v, unknown),
        _ => panic!("a garbled body must fold to opaque, not surface"),
    }
}

#[test]
fn malformed_framing_is_invalid_packet() {
    let keys = [SecretKey::of("k")];
    let r = Packet::from_bytes(&[0xff, 0x01, 0x02], &keys);
    assert!(matches!(r, Err(TransportFail::InvalidPacket)));
    let r = Packet::from_bytes(&[], &keys);
    assert!(matches!(r, Err(TransportFail::InvalidPacket)));
    let r = Packet::from_signed_bytes(&[0xff], &keys, &[SecretKey::of("s").pkey()]);
    assert!(matches!(r, Err(TransportFail::InvalidPacket)));
}

#[test]
fn parsable_framing_with_garbage_blobs_is_all_encrypted() {
    // Bytes that frame correctly but whose blobs were never made by a
    // builder resolve to opaque chunks, never a crash, never a message.
    let framed: Vec<u8> = bincode::serialize(&vec![vec![1u8, 2, 3], vec![]]).unwrap();
    let chunks = Packet::from_bytes(&framed, &[SecretKey::of("k")]).unwrap();
    assert_eq!(chunks.len(), 2);
    assert!(matches!(chunks[0], Chunk::Encrypted(_)));
    assert!(matches!(chunks[1], Chunk::Encrypted(_)));
}

#[test]
fn encrypted_chunk_passes_through_encoding_unchanged() {
    let k = SecretKey::of("k");
    let opaque = vec![5u8, 6, 7];
    let blob = Chunk::Encrypted(opaque.clone()).encrypt(k.pkey());
    assert_eq!(blob, opaque);
}

#[test]
fn empty_packet_round_trips() {
    let bytes = Packet::default().into_bytes().unwrap();
    let chunks = Packet::from_bytes(&bytes, &[SecretKey::of("k")]).unwrap();
    assert_eq!(chunks.len(), 0);
}
