use phrasekit::{load_payloads, write_payloads, Payload, PayloadError};

#[test]
fn test_payload_roundtrip() {
    let payload = Payload::new(12345, 2.13f32.to_bits(), 314, 2);

    let mut buf = Vec::new();
    payload.write_to(&mut buf);

    let loaded = Payload::read_from(&buf).unwrap();

    assert_eq!(loaded.phrase_id, 12345);
    assert_eq!(loaded.count, 314);
    assert_eq!(loaded.n, 2);
    assert!((f32::from_bits(loaded.salience_bits) - 2.13).abs() < 0.001);
}

#[test]
fn record_layout_is_seventeen_little_endian_bytes() {
    let payload = Payload::new(0x0403_0201, 1.5f32.to_bits(), 0x0c0b_0a09, 7);
    let mut buf = vec![0xaa];
    payload.write_to(&mut buf);
    let s = 1.5f32.to_bits().to_le_bytes();
    assert_eq!(
        buf,
        vec![0xaa, 1, 2, 3, 4, s[0], s[1], s[2], s[3], 9, 10, 11, 12, 0, 0, 0, 0, 7]
    );
}

#[test]
fn salience_bits_survive_exactly() {
    for s in [0.0f32, -0.0, 3.0, 1.0e-40, f32::MAX, f32::INFINITY] {
        let p = Payload::new(9, s.to_bits(), 1, 1);
        let mut buf = Vec::new();
        p.write_to(&mut buf);
        assert_eq!(Payload::read_from(&buf), Some(p));
    }
}

#[test]
fn reserved_bytes_are_ignored_on_read() {
    let mut buf = Vec::new();
    Payload::new(5, 0, 6, 3).write_to(&mut buf);
    buf[12] = 0xff;
    buf[15] = 0x11;
    assert_eq!(Payload::read_from(&buf), Some(Payload::new(5, 0, 6, 3)));
}

#[test]
fn short_source_reads_nothing() {
    assert_eq!(Payload::read_from(&[]), None);
    assert_eq!(Payload::read_from(&[0u8; 16]), None);
}

#[test]
fn table_round_trip() {
    let ps = vec![Payload::new(1, 2, 3, 4), Payload::new(5, 6, 7, 8), Payload::new(9, 10, 11, 12)];
    let bytes = write_payloads(&ps);
    assert_eq!(bytes.len(), 51);
    assert_eq!(load_payloads(&bytes), Ok(ps));
    assert_eq!(load_payloads(&[]), Ok(Vec::new()));
}

#[test]
fn partial_trailing_record_is_refused() {
    let bytes = write_payloads(&[Payload::new(1, 2, 3, 4)]);
    assert_eq!(load_payloads(&bytes[..16]), Err(PayloadError::TruncatedRecord));
    let mut longer = bytes.clone();
    longer.push(0);
    assert_eq!(load_payloads(&longer), Err(PayloadError::TruncatedRecord));
}
