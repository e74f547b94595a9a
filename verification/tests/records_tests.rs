use activity::proto::{gained_focus_bundle, infocus_proto_len, wifi_record_fields, wifi_record_windows};

fn infocus_slot_with_crc() -> Vec<u8> {
    let mut slot = vec![0x10, 0x01, 0x18, 0x01, 0x21, 0xb7, 0x09, 0xa7, 0x5d, 0x63, 0xcf, 0xc7, 0x41, 0x32, 0x11];
    slot.extend_from_slice(b"com.brave.Browser");
    slot.extend_from_slice(&[0x4a, 0x0c]);
    slot.extend_from_slice(b"147.1.0.3591");
    slot.extend_from_slice(&[0x58, 0x01, 0x60, 0x01, 0x68, 0x00]);
    slot.extend_from_slice(&[0x00, 0x00, 0x00, 0x00, 0x26, 0x7e, 0x9b, 0x45]);
    slot
}

#[test]
fn infocus_proto_ends_before_padding() {
    let slot = infocus_slot_with_crc();
    assert_eq!(slot.len(), 60);
    assert_eq!(infocus_proto_len(&slot), 52);
    assert_eq!(gained_focus_bundle(1, &slot[15..32]).as_deref(), Some("com.brave.Browser"));
}

#[test]
fn infocus_proto_stops_at_field_with_other_wire_type() {
    let mut slot = vec![0x10, 0x01, 0x18, 0x01, 0x21, 0x1a, 0x34, 0x7e, 0xd6, 0x7c, 0xd9, 0xc7, 0x41, 0x32, 0x0b];
    slot.extend_from_slice(b"us.zoom.xos");
    slot.extend_from_slice(&[0x4a, 0x0d]);
    slot.extend_from_slice(b"7.0.0 (77593)");
    slot.extend_from_slice(&[0x52, 0x0b]);
    slot.extend_from_slice(b"7.0.0.77593");
    slot.extend_from_slice(&[0x58, 0x01, 0x60, 0x01, 0x68, 0x00, 0x48, 0xd1, 0x44, 0xc4]);
    assert_eq!(slot.len(), 64);
    assert_eq!(infocus_proto_len(&slot), 60);
}

#[test]
fn infocus_proto_of_empty_slot() {
    assert_eq!(infocus_proto_len(&[]), 0);
    assert_eq!(infocus_proto_len(&[0x00, 0x00, 0x00, 0x00]), 0);
}

#[test]
fn wifi_windows_need_the_marker() {
    assert!(wifi_record_windows(&[]).is_empty());
    assert!(wifi_record_windows(b"hello world no marker here").is_empty());
    let mut bytes = b"xx/wifi/connection".to_vec();
    bytes.extend_from_slice(&[1, 2, 3]);
    assert_eq!(wifi_record_windows(&bytes), vec![(18, 21)]);
    assert!(wifi_record_windows(b"/wifi/connection").is_empty());
}

#[test]
fn wifi_windows_are_at_most_512_bytes() {
    let mut bytes = b"/wifi/connection".to_vec();
    bytes.extend_from_slice(&[7u8; 600]);
    assert_eq!(wifi_record_windows(&bytes), vec![(16, 528)]);
}

#[test]
fn wifi_record_fields_read_times_and_ssid() {
    let mut buf = vec![0x12, 0x02, 0x08, 0x01];
    buf.push(0x11);
    buf.extend_from_slice(&750_000_000.0f64.to_le_bytes());
    buf.push(0x19);
    buf.extend_from_slice(&750_003_600.0f64.to_le_bytes());
    buf.extend_from_slice(&[0x22, 0x08, 0x08, 0x05, 0x1a, 0x04]);
    buf.extend_from_slice(b"corp");
    buf.extend_from_slice(&[0xff, 0xff]);
    let fields = wifi_record_fields(&buf);
    assert_eq!(fields.start_bits, Some(4_739_574_664_366_391_296));
    assert_eq!(fields.end_bits, Some(4_739_574_694_565_380_096));
    assert_eq!(fields.ssid.as_deref(), Some("corp"));
}

#[test]
fn wifi_record_fields_missing_ssid() {
    let mut buf = vec![0x11];
    buf.extend_from_slice(&1.0f64.to_le_bytes());
    let fields = wifi_record_fields(&buf);
    assert_eq!(fields.start_bits, Some(1.0f64.to_bits()));
    assert_eq!(fields.end_bits, None);
    assert_eq!(fields.ssid, None);
}
