use trackjoy::classify::{
    classify_name_suffix, classify_suffix_attr, pad_attrs_confirm, parse_usb_path, pick_best,
    DeviceType, NodeClass, ScanEntry,
};

#[test]
fn parse_typical_by_path_name() {
    let parts = parse_usb_path("pci-0000:00:14.0-usb-0:3:1.0-event-mouse").unwrap();
    assert_eq!(parts.path, "pci-0000:00:14.0-usb-0:3");
    assert_eq!(parts.configuration, 1);
    assert_eq!(parts.interface, 0);
    assert_eq!(parts.suffix, "-event-mouse");
}

#[test]
fn parse_multi_digit_interface() {
    let parts = parse_usb_path("a:1.23-kbd").unwrap();
    assert_eq!(parts.path, "a");
    assert_eq!(parts.configuration, 1);
    assert_eq!(parts.interface, 23);
    assert_eq!(parts.suffix, "-kbd");
}

#[test]
fn parse_rejects_unstructured_names() {
    assert!(parse_usb_path("plainname").is_none());
    assert!(parse_usb_path("").is_none());
    assert!(parse_usb_path("a:x.1-kbd").is_none());
    assert!(parse_usb_path("a:1.x-kbd").is_none());
    assert!(parse_usb_path("a:1.2kbd").is_none());
    assert!(parse_usb_path("a:1.2-").is_none());
    assert!(parse_usb_path("a:1.2-KBD").is_none());
    assert!(parse_usb_path("a:1.2-x9").is_none());
    assert!(parse_usb_path("a:12.3-kbd").is_none());
}

#[test]
fn parse_rejects_interface_overflow() {
    assert!(parse_usb_path("a:1.99999999999999999999999999-kbd").is_none());
}

#[test]
fn parse_takes_last_colon() {
    let parts = parse_usb_path("x:y:2.7-mouse").unwrap();
    assert_eq!(parts.path, "x:y");
    assert_eq!(parts.configuration, 2);
    assert_eq!(parts.interface, 7);
    assert_eq!(parts.suffix, "-mouse");
}

#[test]
fn attr_suffix_classification() {
    assert_eq!(classify_suffix_attr("-event-mouse"), NodeClass::NeedsPadCheck);
    assert_eq!(classify_suffix_attr("-mouse"), NodeClass::NeedsPadCheck);
    assert_eq!(classify_suffix_attr("-event-kbd"), NodeClass::Keys);
    assert_eq!(classify_suffix_attr("-kbd"), NodeClass::Keys);
    assert_eq!(classify_suffix_attr("-event-joystick"), NodeClass::Skip);
}

#[test]
fn name_suffix_policy() {
    assert!(matches!(classify_name_suffix("front-keys"), Some(DeviceType::Keys)));
    assert!(matches!(classify_name_suffix("front-pad"), Some(DeviceType::Pad)));
    assert!(classify_name_suffix("front-joystick").is_none());
    assert!(classify_name_suffix("").is_none());
}

#[test]
fn pad_attrs_marker_detected() {
    let with = b"  ATTRS{id}==\"x\"\n  DRIVERS==\"hid-multitouch\"\n  more".to_vec();
    assert!(pad_attrs_confirm(&with));
    let without = b"  DRIVERS==\"hid-generic\"\n".to_vec();
    assert!(!pad_attrs_confirm(&without));
    // a reversed or partial marker must not match: catches an
    // implementation that ignores its needle
    let partial = b"DRIVERS==\"hid-multitouc\"".to_vec();
    assert!(!pad_attrs_confirm(&partial));
    assert!(!pad_attrs_confirm(&Vec::new()));
}

fn entry(physical: &str, cfg: usize, iface: usize, kind: DeviceType, name: &str) -> ScanEntry {
    ScanEntry {
        physical: physical.to_string(),
        configuration: cfg,
        interface: iface,
        device: kind,
        name: name.to_string(),
    }
}

#[test]
fn pick_best_keeps_highest_rank_per_path() {
    let entries = vec![
        entry("usb1", 1, 0, DeviceType::Pad, "usb1:1.0-event-mouse"),
        entry("usb1", 1, 2, DeviceType::Keys, "usb1:1.2-event-kbd"),
        entry("usb2", 1, 0, DeviceType::Keys, "usb2:1.0-event-kbd"),
    ];
    let out = pick_best(entries);
    assert_eq!(out.len(), 2);
    // per physical path, the highest (configuration, interface) survives
    assert!(matches!(out[0].device, DeviceType::Keys));
    assert_eq!(out[0].path, "usb1:1.2-event-kbd");
    assert!(matches!(out[1].device, DeviceType::Keys));
    assert_eq!(out[1].path, "usb2:1.0-event-kbd");
}

#[test]
fn pick_best_first_appearance_order() {
    let entries = vec![
        entry("b", 1, 0, DeviceType::Pad, "b0"),
        entry("a", 1, 0, DeviceType::Pad, "a0"),
        entry("b", 2, 0, DeviceType::Pad, "b1"),
    ];
    let out = pick_best(entries);
    assert_eq!(out.len(), 2);
    assert_eq!(out[0].path, "b1");
    assert_eq!(out[1].path, "a0");
}

#[test]
fn pick_best_empty() {
    let out = pick_best(Vec::new());
    assert_eq!(out.len(), 0);
}
