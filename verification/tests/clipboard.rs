use passman::clipboard::{backend_for_session, clear_command, copy_command, ClipboardBackend, CLEAR_DELAY_DEFAULT};

#[test]
fn clear_schedule_delay_uses_default() {
    assert_eq!(CLEAR_DELAY_DEFAULT, 15);
}

#[test]
fn clear_commands_per_backend() {
    assert_eq!(clear_command(ClipboardBackend::WlCopy), "sleep 15; wl-copy --clear");
    assert_eq!(clear_command(ClipboardBackend::Xclip), "sleep 15; echo -n | xclip -selection clipboard");
}

#[test]
fn copy_commands_per_backend() {
    assert_eq!(copy_command(ClipboardBackend::WlCopy), vec!["wl-copy"]);
    assert_eq!(copy_command(ClipboardBackend::Xclip), vec!["xclip", "-selection", "clipboard"]);
}

#[test]
fn wayland_selects_wl_copy() {
    assert_eq!(backend_for_session(true), Some(ClipboardBackend::WlCopy));
    assert_eq!(backend_for_session(false), None);
}
