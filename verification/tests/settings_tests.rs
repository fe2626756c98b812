use settings_frame::frame::{Error, Head, CONNECTION_STREAM_ID, SETTINGS_KIND};
use settings_frame::settings::{Setting, Settings, SettingsFlags};

fn record(id: u16, val: u32) -> Vec<u8> {
    let mut r = Vec::new();
    r.extend_from_slice(&id.to_be_bytes());
    r.extend_from_slice(&val.to_be_bytes());
    r
}

fn settings_head(flag: u8, stream_id: u32) -> Head {
    Head::new(SETTINGS_KIND, flag, stream_id)
}

fn load_one(id: u16, val: u32) -> Result<Settings, Error> {
    Settings::load(settings_head(0, 0), &record(id, val))
}

#[test]
fn round_trip_through_wire() {
    let mut s = Settings::default();
    s.set_initial_window_size(Some(128));
    s.set_max_concurrent_streams(Some(77));
    s.set_max_frame_size(Some(20_000));
    s.set_max_header_list_size(Some(9_999));
    s.set_enable_push(false);

    let mut buf = bytes::BytesMut::new();
    s.encode(&mut buf);

    // Skip the nine header bytes and decode the payload.
    let payload = &buf[9..];
    let decoded = Settings::load(settings_head(0, 0), payload).unwrap();

    assert!(!decoded.is_ack());
    assert_eq!(decoded.initial_window_size(), Some(128));
    assert_eq!(decoded.max_concurrent_streams(), Some(77));
    assert_eq!(decoded.max_frame_size(), Some(20_000));
    assert_eq!(decoded.max_header_list_size(), Some(9_999));
    assert!(!decoded.is_push_enabled());
}

#[test]
fn encode_is_deterministic_across_setter_order() {
    let mut a = Settings::default();
    a.set_initial_window_size(Some(4096));
    a.set_max_frame_size(Some(65_535));
    a.set(0x99, Some(7));

    let mut b = Settings::default();
    b.set(0x99, Some(7));
    b.set_max_frame_size(Some(65_535));
    b.set_initial_window_size(Some(4096));

    let mut buf_a = bytes::BytesMut::new();
    let mut buf_b = bytes::BytesMut::new();
    a.encode(&mut buf_a);
    b.encode(&mut buf_b);
    assert_eq!(&buf_a[..], &buf_b[..]);
}

#[test]
fn encode_exact_bytes() {
    let mut s = Settings::default();
    s.set_max_concurrent_streams(Some(100));
    s.set(0x99, Some(7));

    let mut buf = bytes::BytesMut::new();
    s.encode(&mut buf);

    let expected: Vec<u8> = vec![
        0x00, 0x00, 0x0c, // payload length: two six-byte records
        0x04, // frame type: SETTINGS
        0x00, // flags: not an acknowledgment
        0x00, 0x00, 0x00, 0x00, // stream identifier: connection-level
        0x00, 0x03, 0x00, 0x00, 0x00, 0x64, // MaxConcurrentStreams = 100
        0x00, 0x99, 0x00, 0x00, 0x00, 0x07, // opaque 0x99 = 7
    ];
    assert_eq!(&buf[..], &expected[..]);
}

#[test]
fn ack_encodes_header_only() {
    let s = Settings::ack();
    let mut buf = bytes::BytesMut::new();
    s.encode(&mut buf);
    let expected: Vec<u8> = vec![0x00, 0x00, 0x00, 0x04, 0x01, 0x00, 0x00, 0x00, 0x00];
    assert_eq!(&buf[..], &expected[..]);
}

#[test]
fn ack_with_empty_payload_loads() {
    let s = Settings::load(settings_head(0x1, 0), &[]).unwrap();
    assert!(s.is_ack());
    assert_eq!(s.get(0x1), None);
}

#[test]
fn ack_with_payload_is_rejected() {
    let r = Settings::load(settings_head(0x1, 0), &record(0x3, 1));
    assert_eq!(r.unwrap_err(), Error::InvalidPayloadLength);
}

#[test]
fn non_zero_stream_id_is_rejected() {
    let r = Settings::load(settings_head(0, 1), &record(0x3, 1));
    assert_eq!(r.unwrap_err(), Error::InvalidStreamId);
    // Rejected before any payload inspection: a malformed payload reports
    // the stream identifier error just the same.
    let r = Settings::load(settings_head(0, 7), &[1, 2, 3]);
    assert_eq!(r.unwrap_err(), Error::InvalidStreamId);
}

#[test]
fn ragged_payload_is_rejected() {
    let r = Settings::load(settings_head(0, 0), &[0, 3, 0, 0, 0, 1, 9]);
    assert_eq!(r.unwrap_err(), Error::InvalidSettingsPayloadLength);
}

#[test]
fn empty_payload_loads_empty_settings() {
    let s = Settings::load(settings_head(0, 0), &[]).unwrap();
    assert!(!s.is_ack());
    assert_eq!(s.get(0x1), None);
}

#[test]
fn max_frame_size_boundaries() {
    assert_eq!(load_one(0x5, 16_383).unwrap_err(), Error::InvalidSettingValue);
    assert_eq!(load_one(0x5, 1 << 24).unwrap_err(), Error::InvalidSettingValue);
    let s = load_one(0x5, 16_384).unwrap();
    assert_eq!(s.max_frame_size(), Some(16_384));
    let s = load_one(0x5, (1 << 24) - 1).unwrap();
    assert_eq!(s.max_frame_size(), Some((1 << 24) - 1));
}

#[test]
fn initial_window_size_boundaries() {
    assert_eq!(load_one(0x4, 1u32 << 31).unwrap_err(), Error::InvalidSettingValue);
    let s = load_one(0x4, (1 << 31) - 1).unwrap();
    assert_eq!(s.initial_window_size(), Some((1u32 << 31) - 1));
}

#[test]
fn enable_push_boundaries() {
    assert_eq!(load_one(0x2, 2).unwrap_err(), Error::InvalidSettingValue);
    let s = load_one(0x2, 0).unwrap();
    assert!(!s.is_push_enabled());
    let s = load_one(0x2, 1).unwrap();
    assert!(s.is_push_enabled());
}

#[test]
fn one_bad_record_rejects_whole_frame() {
    // A legal record followed by an out-of-range one: nothing survives.
    let mut payload = record(0x3, 10);
    payload.extend_from_slice(&record(0x2, 9));
    let r = Settings::load(settings_head(0, 0), &payload);
    assert_eq!(r.unwrap_err(), Error::InvalidSettingValue);
}

#[test]
fn unknown_identifier_passes_through() {
    let s = load_one(0x99, 42).unwrap();
    assert_eq!(s.get(0x99), Some(42));

    let mut buf = bytes::BytesMut::new();
    s.encode(&mut buf);
    assert_eq!(&buf[9..], &record(0x99, 42)[..]);
}

#[test]
fn duplicate_identifier_last_wins() {
    let mut payload = record(0x4, 100);
    payload.extend_from_slice(&record(0x4, 200));
    let s = Settings::load(settings_head(0, 0), &payload).unwrap();
    assert_eq!(s.initial_window_size(), Some(200));
}

#[test]
fn push_defaults_to_enabled() {
    let s = Settings::default();
    assert!(s.is_push_enabled());
}

#[test]
fn set_replaces_and_removes() {
    let mut s = Settings::default();
    s.set(0x4, Some(1));
    s.set(0x4, Some(2));
    assert_eq!(s.get(0x4), Some(2));
    s.set(0x4, None);
    assert_eq!(s.get(0x4), None);
    s.set_max_header_list_size(Some(5));
    s.set_max_header_list_size(None);
    assert_eq!(s.max_header_list_size(), None);
}

#[test]
fn flags_mask_unrecognized_bits() {
    let f = SettingsFlags::load(0xfe);
    assert!(!f.is_ack());
    assert_eq!(f.bits(), 0);
    let f = SettingsFlags::load(0xff);
    assert!(f.is_ack());
    assert_eq!(f.bits(), 0x1);
    assert!(!SettingsFlags::empty().is_ack());
    assert!(SettingsFlags::ack().is_ack());
    assert_eq!(SettingsFlags::ack().bits(), 0x1);
}

#[test]
fn reserved_flag_bits_do_not_make_an_ack() {
    // Flag byte 0xfe has every bit but ACK set: still a plain frame.
    let s = Settings::load(settings_head(0xfe, 0), &record(0x3, 1)).unwrap();
    assert!(!s.is_ack());
    assert_eq!(s.max_concurrent_streams(), Some(1));
}

#[test]
fn setting_from_id_maps_identifiers() {
    assert!(matches!(Setting::from_id(0x1, 9), Some(Setting::HeaderTableSize(9))));
    assert!(matches!(Setting::from_id(0x2, 1), Some(Setting::EnablePush(1))));
    assert!(matches!(Setting::from_id(0x3, 5), Some(Setting::MaxConcurrentStreams(5))));
    assert!(matches!(Setting::from_id(0x4, 7), Some(Setting::InitialWindowSize(7))));
    assert!(matches!(Setting::from_id(0x5, 16_384), Some(Setting::MaxFrameSize(16_384))));
    assert!(matches!(Setting::from_id(0x6, 2), Some(Setting::MaxHeaderListSize(2))));
    assert!(matches!(Setting::from_id(0x99, 42), Some(Setting::Opaque(0x99, 42))));
}

#[test]
fn setting_load_parses_big_endian() {
    let raw = record(0x0102, 0x0a0b0c0d);
    assert!(matches!(Setting::load(&raw), Some(Setting::Opaque(0x0102, 0x0a0b0c0d))));
}

#[test]
fn setting_encode_writes_six_bytes() {
    let mut buf = bytes::BytesMut::new();
    Setting::MaxFrameSize(16_385).encode(&mut buf);
    assert_eq!(&buf[..], &record(0x5, 16_385)[..]);
    let mut buf = bytes::BytesMut::new();
    Setting::Opaque(0x99, 42).encode(&mut buf);
    assert_eq!(&buf[..], &record(0x99, 42)[..]);
}

#[test]
fn head_encode_writes_nine_bytes() {
    let h = Head::new(SETTINGS_KIND, 0x1, CONNECTION_STREAM_ID);
    let mut buf = bytes::BytesMut::new();
    h.encode(0x010203, &mut buf);
    let expected: Vec<u8> = vec![0x01, 0x02, 0x03, 0x04, 0x01, 0x00, 0x00, 0x00, 0x00];
    assert_eq!(&buf[..], &expected[..]);
    assert_eq!(h.kind(), SETTINGS_KIND);
    assert_eq!(h.flag(), 0x1);
    assert_eq!(h.stream_id(), 0);
}

#[test]
fn loaded_frame_reencodes_identically() {
    let mut payload = record(0x1, 4096);
    payload.extend_from_slice(&record(0x4, 100));
    payload.extend_from_slice(&record(0x99, 42));
    let s = Settings::load(settings_head(0, 0), &payload).unwrap();
    let mut buf = bytes::BytesMut::new();
    s.encode(&mut buf);
    assert_eq!(&buf[9..], &payload[..]);
}

#[test]
fn equality_ignores_build_order() {
    let mut a = Settings::default();
    a.set_initial_window_size(Some(4096));
    a.set_enable_push(true);

    let mut b = Settings::default();
    b.set_enable_push(true);
    b.set_initial_window_size(Some(4096));

    assert_eq!(a, b);
    b.set_enable_push(false);
    assert_ne!(a, b);
    assert_ne!(Settings::ack(), Settings::default());

    let decoded = load_one(0x4, 4096).unwrap();
    let mut built = Settings::default();
    built.set_initial_window_size(Some(4096));
    assert_eq!(decoded, built);
}
