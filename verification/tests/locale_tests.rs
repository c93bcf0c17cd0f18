use il2_groups::locale::{
    decode_locale_bytes, encode_locale_utf16le, merge_template_sidecars, parse_locale, serialize_locale,
    LocaleTable,
};

#[test]
fn merge_first_wins_on_collision() {
    let mut table = parse_locale("13:First\n");
    table.merge(parse_locale("13:Second\n"));
    assert_eq!(table.get(13), Some("First"));
}

#[test]
fn overlay_last_wins_on_collision() {
    let mut table = parse_locale("13:First\n14:Keep\n");
    table.overlay(parse_locale("13:Second\n"));
    assert_eq!(table.get(13), Some("Second"));
    assert_eq!(table.get(14), Some("Keep"));
}

#[test]
fn parse_skips_blank_and_malformed_lines() {
    let table = parse_locale("\r\n3:\r\nnot a line\r\nx:y\r\n20:Zone in Triggered\r\r\n7:a:b\n");
    assert_eq!(table.get(3), Some(""));
    assert_eq!(table.get(20), Some("Zone in Triggered"));
    assert_eq!(table.get(7), Some("a:b"));
    assert_eq!(table.max_id(), Some(20));
    assert!(table.get(4).is_none());
}

#[test]
fn serialize_orders_by_id_with_crlf() {
    let mut table = LocaleTable::new();
    table.insert(20, "b");
    table.insert(3, "a");
    table.insert(-1, "z");
    assert_eq!(serialize_locale(&table), "-1:z\r\n3:a\r\n20:b\r\n");
    assert!(table.contains_text("a"));
    assert!(!table.contains_text("c"));
    assert!(!table.is_empty());
    assert!(LocaleTable::default().is_empty());
}

#[test]
fn round_trip_utf16_preserves_entries() {
    let table = parse_locale("13:Enemy Concentration Noted\n19:Enemy Spotted!<br>Targets noted on flight plans.\n3:\n20:Zone in Triggered\n30:敵 🚀\n");
    let bytes = encode_locale_utf16le(&serialize_locale(&table));
    assert!(bytes.starts_with(&[0xFF, 0xFE]));
    let again = parse_locale(&decode_locale_bytes(&bytes).unwrap());
    assert_eq!(table, again);
    assert_eq!(again.get(13), Some("Enemy Concentration Noted"));
    assert_eq!(again.get(30), Some("敵 🚀"));
}

#[test]
fn decode_handles_boms_and_errors() {
    assert_eq!(decode_locale_bytes(&[0xFE, 0xFF, 0x00, 0x41]).unwrap(), "A");
    assert_eq!(decode_locale_bytes(&[0xEF, 0xBB, 0xBF, b'h', b'i']).unwrap(), "hi");
    assert_eq!(decode_locale_bytes(b"1:x").unwrap(), "1:x");
    assert!(decode_locale_bytes(&[0xFF, 0xFE, 0x00, 0xD8]).is_err());
    assert!(decode_locale_bytes(&[0xC3, 0x28]).is_err());
    assert_eq!(encode_locale_utf16le("A"), vec![0xFF, 0xFE, 0x41, 0x00]);
}

#[test]
fn sidecars_merge_per_language() {
    let inputs = vec![
        ("eng".to_string(), "1:One\n2:Two\n".to_string()),
        ("rus".to_string(), "1:Odin\n".to_string()),
        ("eng".to_string(), "2:Second two\n3:Three\n".to_string()),
    ];
    let tables = merge_template_sidecars(&inputs);
    assert_eq!(tables.len(), 2);
    assert_eq!(tables[0].0, "eng");
    assert_eq!(tables[0].1.get(2), Some("Two"));
    assert_eq!(tables[0].1.get(3), Some("Three"));
    assert_eq!(tables[1].0, "rus");
    assert_eq!(tables[1].1.get(1), Some("Odin"));
}
