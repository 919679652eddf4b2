use tapframe::dataframer::Framer as FramerStrategy;
use tapframe::dataframer::Identity;
use tapframe::serialframe;

fn encode(payload: &[u8]) -> Vec<u8> {
    <serialframe::Framer as FramerStrategy>::frame_data(payload)
}

fn ingest(decoder: &mut serialframe::Framer, bytes: &[u8]) -> Vec<Vec<u8>> {
    decoder.add_slice(bytes)
}

#[test]
fn round_trip_plain_payload() {
    let payload = vec![0x00u8, 0x10, 0x41, 0xFF, 0x7E];
    let mut decoder = serialframe::Framer::new();
    let frames = ingest(&mut decoder, &encode(&payload));
    assert_eq!(frames, vec![payload]);
}

#[test]
fn round_trip_control_bytes() {
    let payload = vec![0x02u8, 0x03, 0x04, 0x02, 0x05];
    let mut decoder = serialframe::Framer::new();
    let frames = ingest(&mut decoder, &encode(&payload));
    assert_eq!(frames, vec![payload]);
}

#[test]
fn round_trip_empty_payload() {
    let payload: Vec<u8> = Vec::new();
    let mut decoder = serialframe::Framer::new();
    let frames = ingest(&mut decoder, &encode(&payload));
    assert_eq!(frames, vec![payload]);
}

#[test]
fn round_trip_all_byte_values() {
    let payload: Vec<u8> = (0u8..=255).collect();
    let mut decoder = serialframe::Framer::new();
    let frames = ingest(&mut decoder, &encode(&payload));
    assert_eq!(frames, vec![payload]);
}

#[test]
fn resync_on_repeated_start() {
    let mut decoder = serialframe::Framer::new();
    let frames = ingest(&mut decoder, &[0x02, b'a', b'b', 0x02, b'c', 0x03]);
    assert_eq!(frames, vec![vec![b'c']]);
}

#[test]
fn noise_rejection() {
    let mut decoder = serialframe::Framer::new();
    let frames = ingest(&mut decoder, &[0x00, b'x', 0x03, 0x04, 0xFF, b'y']);
    assert_eq!(frames, Vec::<Vec<u8>>::new());
}

#[test]
fn chunked_delivery_two_pieces() {
    let payload = vec![0x41u8, 0x02, 0x42];
    let wire = encode(&payload);
    for cut in 1..wire.len() {
        let mut decoder = serialframe::Framer::new();
        let mut frames = ingest(&mut decoder, &wire[..cut]);
        frames.extend(ingest(&mut decoder, &wire[cut..]));
        assert_eq!(frames, vec![payload.clone()]);
    }
}

#[test]
fn chunked_delivery_byte_at_a_time() {
    let payload = vec![0x02u8, 0x00, 0x03, 0x7F];
    let wire = encode(&payload);
    let mut decoder = serialframe::Framer::new();
    let mut frames: Vec<Vec<u8>> = Vec::new();
    for byte in &wire {
        frames.extend(ingest(&mut decoder, &[*byte]));
    }
    assert_eq!(frames, vec![payload]);
}

#[test]
fn escaping_exact_wire_bytes() {
    assert_eq!(encode(&[0x02]), vec![0x02, 0x04, 0xFD, 0x03]);
    let mut decoder = serialframe::Framer::new();
    let frames = ingest(&mut decoder, &[0x02, 0x04, 0xFD, 0x03]);
    assert_eq!(frames, vec![vec![0x02]]);
}

#[test]
fn escaping_is_bitwise_complement() {
    assert_eq!(encode(&[0x03]), vec![0x02, 0x04, 0xFC, 0x03]);
    assert_eq!(encode(&[0x04]), vec![0x02, 0x04, 0xFB, 0x03]);
}

#[test]
fn multi_frame_batch() {
    let a = vec![0x10u8, 0x02, 0x20];
    let b = vec![0x30u8, 0x03];
    let mut wire = encode(&a);
    wire.extend_from_slice(&encode(&b));
    let mut decoder = serialframe::Framer::new();
    let frames = ingest(&mut decoder, &wire);
    assert_eq!(frames, vec![a, b]);
}

#[test]
fn reset_discards_partial_frame() {
    let mut decoder = serialframe::Framer::new();
    let frames = ingest(&mut decoder, &[0x02, b'a', b'b']);
    assert_eq!(frames, Vec::<Vec<u8>>::new());
    decoder.reset();
    let frames = ingest(&mut decoder, &[b'c', b'd', 0x03]);
    assert_eq!(frames, Vec::<Vec<u8>>::new());
    let frames = ingest(&mut decoder, &encode(&[b'e']));
    assert_eq!(frames, vec![vec![b'e']]);
}

#[test]
fn unmatched_end_and_escape_outside_frame_are_ignored() {
    let mut decoder = serialframe::Framer::new();
    let frames = ingest(&mut decoder, &[0x03, 0x04, 0x04]);
    assert_eq!(frames, Vec::<Vec<u8>>::new());
    let frames = ingest(&mut decoder, &encode(&[0x55]));
    assert_eq!(frames, vec![vec![0x55]]);
}

#[test]
fn identity_ingest_returns_input_as_one_frame() {
    let mut identity = Identity {};
    let bytes = vec![0x02u8, 0x03, 0x41, 0x00];
    let frames = identity.add_slice(&bytes);
    assert_eq!(frames, vec![bytes]);
}

#[test]
fn identity_encode_returns_input_unchanged() {
    let bytes = vec![0x02u8, 0x03, 0x41, 0x00];
    assert_eq!(<Identity as FramerStrategy>::frame_data(&bytes), bytes);
}
