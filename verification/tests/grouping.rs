use trackjoy::classify::{Device, DeviceType};
use trackjoy::group::find_groupings;

fn dev(kind: DeviceType, path: &str) -> Device {
    Device { device: kind, path: path.to_string() }
}

fn group_paths(groups: &Vec<Vec<Device>>) -> Vec<Vec<String>> {
    groups.iter().map(|g| g.iter().map(|d| d.path.clone()).collect()).collect()
}

#[test]
fn grouping_pairs_keys_and_pad() {
    let input = vec![
        dev(DeviceType::Pad, "pad-b"),
        dev(DeviceType::Keys, "kbd-a"),
        dev(DeviceType::Pad, "pad-a"),
        dev(DeviceType::Keys, "kbd-b"),
    ];
    let groups = find_groupings(1, 1, input).unwrap();
    // keyboards sort before pads, so the two keyboards are adjacent and the
    // first group closes after one of them
    assert_eq!(
        group_paths(&groups),
        vec![
            vec!["kbd-a".to_string()],
            vec!["kbd-b".to_string(), "pad-a".to_string()],
            vec!["pad-b".to_string()],
        ]
    );
}

#[test]
fn grouping_is_maximal_per_quota() {
    let input = vec![
        dev(DeviceType::Keys, "k1"),
        dev(DeviceType::Pad, "p1"),
        dev(DeviceType::Keys, "k2"),
        dev(DeviceType::Pad, "p2"),
    ];
    let groups = find_groupings(1, 1, input).unwrap();
    // after sorting, both keyboards precede both pads
    assert_eq!(
        group_paths(&groups),
        vec![
            vec!["k1".to_string()],
            vec!["k2".to_string(), "p1".to_string()],
            vec!["p2".to_string()],
        ]
    );
}

#[test]
fn grouping_quota_zero_pad_fails() {
    // quotas accept one keyboard and no pads; a pad descriptor must fail
    // with the "no configuration for this device type" error, not be skipped
    let input = vec![dev(DeviceType::Pad, "only-pad")];
    let err = find_groupings(1, 0, input).unwrap_err();
    assert_eq!(err.device.path, "only-pad");
    assert!(matches!(err.device.device, DeviceType::Pad));
}

#[test]
fn grouping_keys_in_catalog_fails_pad_only_quota() {
    // a valid pad-only grouping exists, but the keyboard in the catalog has
    // quota zero and keyboards sort first, so grouping must fail
    let input = vec![
        dev(DeviceType::Pad, "pad-node"),
        dev(DeviceType::Keys, "keys-node"),
    ];
    let err = find_groupings(0, 1, input).unwrap_err();
    assert_eq!(err.device.path, "keys-node");
    assert!(matches!(err.device.device, DeviceType::Keys));
}

#[test]
fn grouping_deterministic_under_reordering() {
    let a = vec![
        dev(DeviceType::Pad, "p2"),
        dev(DeviceType::Keys, "k1"),
        dev(DeviceType::Pad, "p1"),
    ];
    let b = vec![
        dev(DeviceType::Keys, "k1"),
        dev(DeviceType::Pad, "p1"),
        dev(DeviceType::Pad, "p2"),
    ];
    let ga = find_groupings(1, 2, a).unwrap();
    let gb = find_groupings(1, 2, b).unwrap();
    assert_eq!(group_paths(&ga), group_paths(&gb));
    assert_eq!(
        group_paths(&ga),
        vec![vec!["k1".to_string(), "p1".to_string(), "p2".to_string()]]
    );
}

#[test]
fn grouping_closes_group_at_quota_boundary() {
    let input = vec![
        dev(DeviceType::Pad, "p1"),
        dev(DeviceType::Pad, "p2"),
        dev(DeviceType::Pad, "p3"),
    ];
    let groups = find_groupings(0, 2, input).unwrap();
    assert_eq!(
        group_paths(&groups),
        vec![
            vec!["p1".to_string(), "p2".to_string()],
            vec!["p3".to_string()],
        ]
    );
}

#[test]
fn grouping_empty_input_is_empty() {
    let groups = find_groupings(1, 1, Vec::new()).unwrap();
    assert_eq!(groups.len(), 0);
}
