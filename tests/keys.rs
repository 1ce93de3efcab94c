use fresh::keys::{
    format_chord_keys, key_code_to_config_name, modifiers_to_config_names, KeyCode, KeyModifiers,
    ALT, CONTROL, SHIFT, SUPER,
};

#[test]
fn key_names_follow_the_configuration() {
    assert_eq!(key_code_to_config_name(KeyCode::Char('x')), "x");
    assert_eq!(key_code_to_config_name(KeyCode::Esc), "Escape");
    assert_eq!(key_code_to_config_name(KeyCode::PageDown), "PageDown");
    assert_eq!(key_code_to_config_name(KeyCode::F(5)), "F5");
    assert_eq!(key_code_to_config_name(KeyCode::F(12)), "F12");
    assert_eq!(key_code_to_config_name(KeyCode::F(255)), "F255");
    assert_eq!(key_code_to_config_name(KeyCode::Other("BackTab".to_string())), "BackTab");
}

#[test]
fn modifier_names_come_in_fixed_order() {
    let all = KeyModifiers { bits: SHIFT | CONTROL | ALT | SUPER };
    assert_eq!(modifiers_to_config_names(all), vec!["ctrl", "alt", "shift", "super"]);
    assert_eq!(
        modifiers_to_config_names(KeyModifiers { bits: SHIFT | ALT }),
        vec!["alt", "shift"]
    );
    assert!(modifiers_to_config_names(KeyModifiers { bits: 0 }).is_empty());
    assert!(modifiers_to_config_names(KeyModifiers { bits: 16 }).is_empty());
}

#[test]
fn chords_skip_unreadable_keys() {
    let keys = vec![Some("Ctrl+K".to_string()), None, Some("Ctrl+S".to_string())];
    assert_eq!(format_chord_keys(&keys), "Ctrl+K Ctrl+S");
    assert_eq!(format_chord_keys(&vec![None, Some("A".to_string())]), "A");
    assert_eq!(format_chord_keys(&vec![]), "");
}
