use darkroom_core::scope::{all_field_keys, fields_for_groups, groups, subset_keys};

#[test]
fn scope_groups_cover_field_keys() {
    let all = all_field_keys();
    assert!(all.contains(&"exposure") && all.contains(&"cbRgb") && all.contains(&"masks"));
    let mut sorted = all.clone();
    sorted.sort_unstable();
    let mut dedup = sorted.clone();
    dedup.dedup();
    assert_eq!(sorted, dedup, "scope groups must be disjoint");

    let light = fields_for_groups(&["light".into()]);
    assert!(light.contains(&"exposure".to_string()) && light.contains(&"blacks".to_string()));
    assert!(!light.contains(&"temp".to_string()));
}

#[test]
fn all_groups_select_every_field_in_order() {
    let keys: Vec<String> = groups().iter().map(|g| g.key.to_string()).collect();
    let all: Vec<String> = all_field_keys().iter().map(|s| s.to_string()).collect();
    assert_eq!(fields_for_groups(&keys), all);
    assert_eq!(all.len(), 19);
}

#[test]
fn unknown_groups_select_nothing_and_order_follows_panel() {
    assert!(fields_for_groups(&["nope".into()]).is_empty());
    let f = fields_for_groups(&["masks".into(), "whiteBalance".into()]);
    assert_eq!(f, vec!["temp".to_string(), "tint".to_string(), "masks".to_string()]);
}

#[test]
fn group_labels_follow_keys() {
    let g = groups();
    assert_eq!(g.len(), 10);
    assert_eq!((g[0].key, g[0].label), ("whiteBalance", "White Balance"));
    assert_eq!(g[6].fields, &["sharpen", "nrLuma", "nrColor"]);
}

#[test]
fn subset_keeps_the_wanted_keys_the_object_holds() {
    let present: Vec<String> = ["contrast", "exposure", "temp"].iter().map(|s| s.to_string()).collect();
    let wanted: Vec<String> = ["temp", "tint", "exposure"].iter().map(|s| s.to_string()).collect();
    assert_eq!(subset_keys(&present, &wanted), vec!["temp".to_string(), "exposure".to_string()]);
    assert!(subset_keys(&[], &wanted).is_empty());
}
