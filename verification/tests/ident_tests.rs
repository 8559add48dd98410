use codex::link_text_is_node_name;
use codex::power_of_ten;
use codex::prepare_path_name;
use codex::format_display_name;
use codex::get_parent;

#[test]
fn test_link_text_is_node_name() {
    assert!(link_text_is_node_name(
        &"Journal".to_string(),
        &"01-Journal".to_string()
    ));
    assert!(!link_text_is_node_name(
        &"journal".to_string(),
        &"01-Journal".to_string()
    ));
    assert!(link_text_is_node_name(
        &"jazz-node".to_string(),
        &"1-Desk/0001-jazz-node".to_string()
    ));
    assert!(link_text_is_node_name(
        &"A Show About Nothing".to_string(),
        &"1-Desk/0101-A-Show-About-Nothing".to_string()
    ));
    assert!(!link_text_is_node_name(
        &"A SHOW ABOUT NOTHING".to_string(),
        &"1-Desk/0101-a-show-about-nothing".to_string()
    ));
}

#[test]
fn test_power_of_ten() {
    assert_eq!(power_of_ten(0), None);
    assert_eq!(power_of_ten(9), None);
    assert_eq!(power_of_ten(11), None);
    assert_eq!(power_of_ten(10), Some(1));
    assert_eq!(power_of_ten(100), Some(2));
    assert_eq!(power_of_ten(100_000), Some(5));
}

#[test]
fn test_format_display_name() {
    assert!(format_display_name("002-desk") == *"desk");
    assert!(format_display_name("002-desk/1-cool-jazz") == *"desk / cool jazz");
}

#[test]
fn power_of_ten_rejects_non_powers() {
    assert_eq!(power_of_ten(55), None);
    assert_eq!(power_of_ten(20), None);
    assert_eq!(power_of_ten(101), None);
    assert_eq!(power_of_ten(1), None);
}

#[test]
fn power_of_ten_largest_in_range() {
    assert_eq!(power_of_ten(10_000_000_000_000_000_000), Some(19));
    assert_eq!(power_of_ten(1_000_000_000_000_000_000), Some(18));
}

#[test]
fn prepare_path_name_maps_spaces_only() {
    assert_eq!(prepare_path_name("cool jazz"), "cool-jazz".to_string());
    assert_eq!(prepare_path_name("Mixed Case Kept"), "Mixed-Case-Kept".to_string());
    assert_eq!(prepare_path_name("already-hyphened"), "already-hyphened".to_string());
    assert_eq!(prepare_path_name(""), "".to_string());
}

#[test]
fn get_parent_splits_on_last_slash() {
    assert_eq!(get_parent(&"2-desk/1-a".to_string()), Some("2-desk".to_string()));
    assert_eq!(
        get_parent(&"2-desk/1-a/3-b".to_string()),
        Some("2-desk/1-a".to_string())
    );
    assert_eq!(get_parent(&"1-journal".to_string()), None);
}

#[test]
fn display_name_strips_only_first_hyphen_prefix() {
    assert_eq!(format_display_name("10-a-b"), "a b".to_string());
}
