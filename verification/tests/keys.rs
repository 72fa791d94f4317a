use im_switch::keys::format_key;
use im_switch::keys::KeyModifiers;

fn no_modifiers() -> KeyModifiers {
    KeyModifiers {
        super_key: false,
        hyper: false,
        meta: false,
        control: false,
        alt: false,
        shift: false,
    }
}

#[test]
fn plain_key_shows_name_and_keycode() {
    let name = String::from("a");
    assert_eq!(format_key(38, no_modifiers(), Some(&name)), "a (38)");
}

#[test]
fn modifier_prefix_is_added() {
    let name = String::from("Return");
    let m = KeyModifiers { control: true, ..no_modifiers() };
    assert_eq!(format_key(36, m, Some(&name)), "Ctrl+Return (36)");
    let m = KeyModifiers { shift: true, ..no_modifiers() };
    assert_eq!(format_key(36, m, Some(&name)), "Shift+Return (36)");
    let m = KeyModifiers { alt: true, ..no_modifiers() };
    assert_eq!(format_key(36, m, Some(&name)), "Alt+Return (36)");
}

#[test]
fn only_the_highest_ranked_modifier_is_shown() {
    let name = String::from("q");
    let m = KeyModifiers { control: true, shift: true, ..no_modifiers() };
    assert_eq!(format_key(24, m, Some(&name)), "Ctrl+q (24)");
    let m = KeyModifiers { super_key: true, control: true, shift: true, ..no_modifiers() };
    assert_eq!(format_key(24, m, Some(&name)), "Super+q (24)");
    let m = KeyModifiers { hyper: true, meta: true, ..no_modifiers() };
    assert_eq!(format_key(24, m, Some(&name)), "Hyper+q (24)");
}

#[test]
fn nameless_key_reads_unknown() {
    assert_eq!(format_key(255, no_modifiers(), None), "Unknown (255)");
}

#[test]
fn keycode_is_written_in_decimal() {
    let name = String::from("x");
    assert_eq!(format_key(0, no_modifiers(), Some(&name)), "x (0)");
    assert_eq!(format_key(7, no_modifiers(), Some(&name)), "x (7)");
    assert_eq!(format_key(10, no_modifiers(), Some(&name)), "x (10)");
    assert_eq!(format_key(65535, no_modifiers(), Some(&name)), "x (65535)");
}
