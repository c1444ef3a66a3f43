use reap::line::{parse_address, Line, ParseError};

fn line() -> Line {
    Line {
        address: None,
        memsize: None,
        references: Vec::new(),
        object_type: String::new(),
        class: None,
        name: None,
        length: None,
        size: None,
        value: None,
    }
}

#[test]
fn address_conversion() {
    assert_eq!(parse_address("0x1a"), Some(26));
    assert_eq!(parse_address("0x7f9d6ab8"), Some(0x7f9d6ab8));
    assert_eq!(parse_address("0xABC"), Some(0xabc));
    assert_eq!(parse_address("0x"), None);
    assert_eq!(parse_address("0"), None);
    assert_eq!(parse_address("0xg1"), None);
    // 17 hex digits with a leading non-zero overflow a 64-bit word.
    assert_eq!(parse_address("0x10000000000000000"), None);
    assert_eq!(parse_address("0x0ffffffffffffffff"), Some(usize::MAX));
}

#[test]
fn object_fields_carry_over() {
    let mut l = line();
    l.address = Some("0x10".to_string());
    l.memsize = Some(64);
    l.object_type = "OBJECT".to_string();
    l.references = vec!["0x20".to_string(), "0x30".to_string()];
    l.class = Some("0x40".to_string());
    let p = l.parse().unwrap().unwrap();
    assert_eq!(p.object.address, 16);
    assert_eq!(p.object.bytes, 64);
    assert_eq!(p.object.kind, "OBJECT");
    assert_eq!(p.object.label, None);
    assert_eq!(p.references, vec![32, 48]);
    assert_eq!(p.module, Some(64));
}

#[test]
fn addressless_non_root_is_dropped() {
    let mut l = line();
    l.object_type = "OBJECT".to_string();
    assert!(l.parse().unwrap().is_none());
}

#[test]
fn root_record_survives_without_address() {
    let mut l = line();
    l.object_type = "ROOT".to_string();
    l.references = vec!["0x10".to_string()];
    let p = l.parse().unwrap().unwrap();
    assert_eq!(p.object.address, 0);
    assert_eq!(p.references, vec![16]);
}

#[test]
fn malformed_address_is_an_error() {
    let mut l = line();
    l.address = Some("0xzz".to_string());
    l.object_type = "OBJECT".to_string();
    let e = l.parse().unwrap_err();
    let ParseError::Malformed(s) = e;
    assert_eq!(s, "0xzz");
}

#[test]
fn malformed_reference_is_an_error() {
    let mut l = line();
    l.address = Some("0x10".to_string());
    l.object_type = "OBJECT".to_string();
    l.references = vec!["0xzz".to_string()];
    assert!(l.parse().is_err());
}

#[test]
fn class_label_includes_kind() {
    let mut l = line();
    l.address = Some("0x10".to_string());
    l.object_type = "CLASS".to_string();
    l.name = Some("Widget".to_string());
    let p = l.parse().unwrap().unwrap();
    assert_eq!(p.object.label.as_deref(), Some("Widget[CLASS]"));
}

#[test]
fn array_without_length_is_dropped() {
    let mut l = line();
    l.address = Some("0x10".to_string());
    l.object_type = "ARRAY".to_string();
    assert!(l.parse().unwrap().is_none());

    let mut l2 = line();
    l2.address = Some("0x10".to_string());
    l2.object_type = "ARRAY".to_string();
    l2.length = Some(3);
    let p = l2.parse().unwrap().unwrap();
    assert_eq!(p.object.label.as_deref(), Some("Array[len=3]"));
}

#[test]
fn hash_without_size_is_dropped() {
    let mut l = line();
    l.address = Some("0x10".to_string());
    l.object_type = "HASH".to_string();
    assert!(l.parse().unwrap().is_none());

    let mut l2 = line();
    l2.address = Some("0x10".to_string());
    l2.object_type = "HASH".to_string();
    l2.size = Some(7);
    let p = l2.parse().unwrap().unwrap();
    assert_eq!(p.object.label.as_deref(), Some("Hash[size=7]"));
}

#[test]
fn string_label_truncates_and_escapes() {
    let mut l = line();
    l.address = Some("0x10".to_string());
    l.object_type = "STRING".to_string();
    let long: String = "x".repeat(60);
    l.value = Some(long);
    let p = l.parse().unwrap().unwrap();
    assert_eq!(p.object.label.as_deref(), Some("x".repeat(40).as_str()));

    let mut l2 = line();
    l2.address = Some("0x10".to_string());
    l2.object_type = "STRING".to_string();
    l2.value = Some("a\\b\nc".to_string());
    let p2 = l2.parse().unwrap().unwrap();
    assert_eq!(p2.object.label.as_deref(), Some("a\u{fe68}bc"));

    // A leading control character does not count against the limit of
    // 40: the first 40 non-control characters are all kept.
    let mut l3 = line();
    l3.address = Some("0x10".to_string());
    l3.object_type = "STRING".to_string();
    let mut v = String::from("\n");
    v.push_str(&"x".repeat(40));
    l3.value = Some(v);
    let p3 = l3.parse().unwrap().unwrap();
    assert_eq!(p3.object.label.as_deref(), Some("x".repeat(40).as_str()));
}
