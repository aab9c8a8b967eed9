use fish_session::client::control::{
    find_control_key, parse_control_key_binding, parse_csi_u_control, parse_csi_u_enter,
    strip_leading_enter_events, ControlAction, ControlKey, ControlKeyBindings, InputBridge,
};
use fish_session::config::{AppConfig, KeyConfig, ZoxideConfig};

fn bindings() -> ControlKeyBindings {
    ControlKeyBindings::from_config(&AppConfig::default())
}

fn config(open: &str, detach: &str) -> AppConfig {
    AppConfig {
        zoxide: ZoxideConfig::default(),
        keys: KeyConfig { open: open.to_string(), detach: detach.to_string() },
    }
}

#[test]
fn default_keys_are_ctrl_g_and_ctrl_bracket() {
    let keys = bindings();
    assert_eq!(
        keys.switch,
        ControlKey { raw_byte: 0x07, csi_primary: 'g' as u32, csi_shifted: Some('G' as u32) }
    );
    assert_eq!(
        keys.detach,
        ControlKey { raw_byte: 0x1d, csi_primary: ']' as u32, csi_shifted: None }
    );
}

#[test]
fn bindings_follow_the_settings() {
    let keys = ControlKeyBindings::from_config(&config(" CTRL-P ", "nonsense"));
    assert_eq!(keys.switch, ControlKey::ctrl_letter(b'p'));
    assert_eq!(keys.detach, ControlKey::ctrl_right_bracket());
    assert_eq!(parse_control_key_binding("Ctrl-A"), Some(ControlKey::ctrl_letter(b'a')));
    assert_eq!(parse_control_key_binding("ctrl-]"), Some(ControlKey::ctrl_right_bracket()));
    assert_eq!(parse_control_key_binding("ctrl-1"), None);
    assert_eq!(parse_control_key_binding("alt-a"), None);
}

#[test]
fn ctrl_letter_covers_odd_bytes() {
    assert_eq!(ControlKey::ctrl_letter(b'a').raw_byte, 1);
    assert_eq!(ControlKey::ctrl_letter(b'z').raw_byte, 26);
    assert_eq!(ControlKey::ctrl_letter(b'!').raw_byte, 1);
    assert_eq!(ControlKey::ctrl_letter(b'!').csi_shifted, Some('!' as u32));
}

#[test]
fn finds_control_keys_in_both_forms() {
    let keys = bindings();
    assert_eq!(find_control_key(b"ab\x07c", keys), Some((2, 1, ControlAction::Switch)));
    assert_eq!(find_control_key(b"\x1d", keys), Some((0, 1, ControlAction::Detach)));
    assert_eq!(find_control_key(b"x\x1b[103;5u", keys), Some((1, 8, ControlAction::Switch)));
    assert_eq!(find_control_key(b"x\x1b[93;5u", keys), Some((1, 7, ControlAction::Detach)));
    assert_eq!(find_control_key(b"x\x1b[103;2u", keys), None);
    assert_eq!(find_control_key(b"plain", keys), None);
    assert_eq!(parse_csi_u_control(b"\x1b[71;6u", keys), Some((7, ControlAction::Switch)));
    assert_eq!(parse_csi_u_control(b"\x1b[71;6", keys), None);
    assert_eq!(parse_csi_u_control(b"\x1b[;6u", keys), None);
    assert_eq!(parse_csi_u_control(b"\x1b[71;u", keys), None);
}

#[test]
fn numbers_are_capped() {
    let keys = bindings();
    assert_eq!(parse_csi_u_control(b"\x1b[4294967399;5u", keys), None);
    assert_eq!(
        parse_csi_u_control(b"\x1b[103;99999999999u", keys),
        Some((18, ControlAction::Switch))
    );
    assert_eq!(parse_csi_u_control(b"\x1b[103;0u", keys), None);
}

#[test]
fn enter_is_known_in_every_form() {
    assert_eq!(parse_csi_u_enter(b"\x1b[13;1u"), Some(7));
    assert_eq!(parse_csi_u_enter(b"\x1b[13;1:3u"), None);
    assert_eq!(parse_csi_u_enter(b"\x1b[14;1u"), None);
    let mut bytes = b"\r\n\n\x1b[13;1u\rls\r".to_vec();
    strip_leading_enter_events(&mut bytes);
    assert_eq!(bytes, b"ls\r");
    strip_leading_enter_events(&mut bytes);
    assert_eq!(bytes, b"ls\r");
}

#[test]
fn first_enter_is_swallowed_once() {
    let mut input = InputBridge::new(true, bindings());
    let step = input.on_input(b"\r", false);
    assert!(step.forward.is_empty() && step.action.is_none());
    let step = input.on_input(b"\rls\r", false);
    assert_eq!(step.forward, b"ls\r");
    let step = input.on_input(b"\r", false);
    assert_eq!(step.forward, b"\r");
}

#[test]
fn enter_is_not_swallowed_when_late_or_not_expected() {
    let mut late = InputBridge::new(true, bindings());
    assert_eq!(late.on_input(b"\r", true).forward, b"\r");
    let mut other = InputBridge::new(false, bindings());
    assert_eq!(other.on_input(b"\r", false).forward, b"\r");
}

#[test]
fn a_control_key_ends_the_input() {
    let mut input = InputBridge::new(false, bindings());
    let step = input.on_input(b"ls\x1b]11;rgb:0\x07\x07rest", false);
    assert_eq!(step.forward, b"ls");
    assert_eq!(step.action, Some(ControlAction::Switch));
    let step = input.on_input(b"\x1d", false);
    assert!(step.forward.is_empty());
    assert_eq!(step.action, Some(ControlAction::Detach));
}
