use dns_camo::dns_packet::Packet;
use dns_camo::payload::Payload;

const KEY: [u8; 32] = [42u8; 32];
const NONCE_A: [u8; 12] = [9, 9, 9, 9, 9, 9, 9, 9, 9, 9, 9, 9];
const NONCE_B: [u8; 12] = [3, 1, 4, 1, 5, 9, 2, 6, 5, 3, 5, 8];

/// One request/response exchange, end to end: encrypt, embed, serialise,
/// parse, extract, decrypt — on both legs.
#[test]
fn full_stack_round_trip() {
    // Client side: encrypt and embed the request.
    let plaintext = b"attack at dawn".to_vec();
    let mut payload = Payload::new(plaintext.clone(), &KEY, Some(NONCE_A.to_vec())).unwrap();
    payload.encrypt().unwrap();
    let mut packet = Packet::new(false);
    packet.embed_data(payload.as_slice(), None).unwrap();
    let wire = packet.serialize(1).unwrap().to_bytes();
    assert!(wire.len() <= 512);

    // Server side: parse, extract, decrypt.
    let mut recv = Packet::new(false);
    recv.deserialize(&wire).unwrap();
    let data = recv.extract_data().unwrap();
    let mut recv_payload = Payload::new(data, &KEY, None).unwrap();
    recv_payload.decrypt().unwrap();
    assert_eq!(recv_payload.as_slice(), plaintext.as_slice());

    // Server side: encrypt and embed the reply into a response that mirrors
    // the received request.
    let reply = vec![recv_payload.as_slice().len() as u8];
    let mut reply_payload = Payload::new(reply.clone(), &KEY, Some(NONCE_B.to_vec())).unwrap();
    reply_payload.encrypt().unwrap();
    let mut reply_packet = Packet::new(true);
    reply_packet.embed_data(reply_payload.as_slice(), Some(&recv)).unwrap();
    let reply_wire = reply_packet.serialize(1).unwrap().to_bytes();

    // Client side: parse the response, extract, decrypt.
    let mut recv_reply = Packet::new(true);
    recv_reply.deserialize(&reply_wire).unwrap();
    assert!(recv_reply.is_response);
    assert_eq!(recv_reply.questions, recv.questions);
    let reply_data = recv_reply.extract_data().unwrap();
    let mut final_payload = Payload::new(reply_data, &KEY, None).unwrap();
    final_payload.decrypt().unwrap();
    assert_eq!(final_payload.as_slice(), &[plaintext.len() as u8]);
}

/// A longer payload that spills from the mirrored answers into additional
/// records still survives the whole stack.
#[test]
fn full_stack_long_response() {
    let mut req = Packet::new(false);
    req.embed_data(b"tiny", None).unwrap();

    let blob: Vec<u8> = (1..=120).collect();
    let mut payload = Payload::new(blob.clone(), &KEY, Some(NONCE_B.to_vec())).unwrap();
    payload.encrypt().unwrap();

    let mut resp = Packet::new(true);
    resp.embed_data(payload.as_slice(), Some(&req)).unwrap();
    let wire = resp.serialize(1).unwrap().to_bytes();

    let mut parsed = Packet::new(true);
    parsed.deserialize(&wire).unwrap();
    let data = parsed.extract_data().unwrap();
    let mut out = Payload::new(data, &KEY, None).unwrap();
    out.decrypt().unwrap();
    assert_eq!(out.as_slice(), blob.as_slice());
}

/// The verified loopback: the library proves the recovered plaintext equals
/// the input; run it once on concrete values.
#[test]
fn verified_loopback() {
    let pt = b"proof-carrying datagram".to_vec();
    let out = dns_camo::loopback::loopback_request(&KEY, pt.clone(), NONCE_B.to_vec());
    assert_eq!(out, Some(pt));
}
