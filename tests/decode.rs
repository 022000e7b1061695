use bthome_metrics::decode::decode;
use bthome_metrics::object::{Kind, Object};

#[test]
fn worked_example_decodes_battery_and_temperature() {
    let r = decode(&[0x40, 0x01, 0x64, 0x02, 0xCA, 0x09]);
    assert_eq!(r, vec![Object::Battery(100), Object::Temperature(2506)]);
}

#[test]
fn empty_payload_gives_nothing() {
    assert_eq!(decode(&[]), vec![]);
}

#[test]
fn encrypted_payload_gives_nothing() {
    assert_eq!(decode(&[0x41, 0x01, 0x64]), vec![]);
}

#[test]
fn other_version_gives_nothing() {
    assert_eq!(decode(&[0x20, 0x01, 0x64]), vec![]);
    assert_eq!(decode(&[0x60, 0x01, 0x64]), vec![]);
}

#[test]
fn header_only_gives_nothing() {
    assert_eq!(decode(&[0x40]), vec![]);
}

#[test]
fn all_core_kinds_decode() {
    let r = decode(&[
        0x40, 0x01, 0x37, 0x02, 0xF3, 0xFD, 0x03, 0xC6, 0x11, 0x0C, 0xC4, 0x0B, 0x10, 0x01, 0x10,
        0x00,
    ]);
    assert_eq!(
        r,
        vec![
            Object::Battery(0x37),
            Object::Temperature(-525),
            Object::Humidity(4550),
            Object::Voltage(3012),
            Object::Power(true),
            Object::Power(false),
        ]
    );
}

#[test]
fn skipped_ids_consume_their_width() {
    // packet id (1 byte), then pressure (3 bytes), then battery
    let r = decode(&[0x40, 0x00, 0x07, 0x04, 0x13, 0x8A, 0x01, 0x01, 0x50]);
    assert_eq!(r, vec![Object::Battery(0x50)]);
}

#[test]
fn unknown_id_stops_decoding() {
    let r = decode(&[0x40, 0x01, 0x10, 0xF0, 0x01, 0x02, 0x01, 0x20]);
    assert_eq!(r, vec![Object::Battery(0x10)]);
}

#[test]
fn truncated_record_keeps_what_came_before() {
    let r = decode(&[0x40, 0x01, 0x64, 0x02, 0xCA]);
    assert_eq!(r, vec![Object::Battery(100)]);
}

#[test]
fn every_prefix_decodes_to_a_prefix() {
    let full = [0x40u8, 0x01, 0x64, 0x02, 0xCA, 0x09, 0x03, 0x10, 0x27, 0x10, 0x01];
    let all = decode(&full);
    assert_eq!(all.len(), 4);
    for n in 0..=full.len() {
        let part = decode(&full[..n]);
        assert!(part.len() <= all.len());
        assert_eq!(&all[..part.len()], &part[..]);
    }
    assert_eq!(decode(&full[..5]), vec![Object::Battery(100)]);
    assert_eq!(decode(&full[..6]).len(), 2);
}

#[test]
fn duplicate_kinds_are_both_emitted() {
    let r = decode(&[0x40, 0x01, 0x10, 0x01, 0x20]);
    assert_eq!(r, vec![Object::Battery(0x10), Object::Battery(0x20)]);
}

#[test]
fn round_trip_of_encoded_records() {
    let objs = vec![
        Object::Voltage(65535),
        Object::Temperature(-32768),
        Object::Temperature(32767),
        Object::Humidity(0),
        Object::Power(true),
        Object::Battery(255),
    ];
    let mut payload = vec![0x40u8];
    for o in &objs {
        match o {
            Object::Battery(v) => payload.extend([0x01, *v]),
            Object::Temperature(v) => {
                payload.push(0x02);
                payload.extend(v.to_le_bytes());
            }
            Object::Humidity(v) => {
                payload.push(0x03);
                payload.extend(v.to_le_bytes());
            }
            Object::Voltage(v) => {
                payload.push(0x0C);
                payload.extend(v.to_le_bytes());
            }
            Object::Power(b) => payload.extend([0x10, *b as u8]),
            Object::Rssi(_) => unreachable!(),
        }
    }
    assert_eq!(decode(&payload), objs);
}

#[test]
fn kinds_ignore_magnitude() {
    assert!(Object::Temperature(1).same_kind(&Object::Temperature(2)));
    assert!(!Object::Temperature(1).same_kind(&Object::Humidity(1)));
    assert_eq!(Object::Rssi(-3).kind(), Kind::Rssi);
}

#[test]
fn any_nonzero_power_byte_is_on() {
    let r = decode(&[0x40, 0x10, 0x05, 0x10, 0x00, 0x10, 0xFF]);
    assert_eq!(r, vec![Object::Power(true), Object::Power(false), Object::Power(true)]);
}

#[test]
fn prefix_keeps_exactly_the_whole_records() {
    // records end at offsets 3, 6, 8
    let full = [0x40u8, 0x02, 0x18, 0xFC, 0x03, 0x01, 0x00, 0x10, 0x07];
    let objs = [Object::Temperature(-1000), Object::Humidity(1), Object::Power(true)];
    let ends = [3usize, 6, 8];
    for n in 1..=full.len() {
        let m = ends.iter().filter(|&&e| e <= n - 1).count();
        assert_eq!(decode(&full[..n]), objs[..m].to_vec(), "prefix {n}");
    }
}
