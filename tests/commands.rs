use epic_bar::commands::{is_activity_event, socket_path, switch_window, switch_workspace};

#[test]
fn watched_event_line_is_activity() {
    assert!(is_activity_event("workspace>>5"));
    assert!(is_activity_event("activewindow>>kitty,~"));
    assert!(is_activity_event("openwindow>>80e62df0,2,kitty,Kitty"));
    assert!(is_activity_event("closewindow>>80e62df0"));
    assert!(is_activity_event("movewindow>>80e62df0,3"));
}

#[test]
fn other_event_line_is_not_activity() {
    assert!(!is_activity_event("somethingelse>>5"));
    assert!(!is_activity_event("workspacev2>>5,5"));
    assert!(!is_activity_event("activewindowv2>>80e62df0"));
    assert!(!is_activity_event(""));
    assert!(!is_activity_event(">>workspace"));
}

#[test]
fn event_name_without_separator_is_whole_line() {
    assert!(is_activity_event("workspace"));
    assert!(!is_activity_event("workspace 5"));
}

#[test]
fn focus_window_command() {
    assert_eq!(switch_window(&"55d3e1c0a8f0".to_string()), "dispatch focuswindow address:0x55d3e1c0a8f0");
}

#[test]
fn workspace_command() {
    assert_eq!(switch_workspace(3), "dispatch workspace 3");
    assert_eq!(switch_workspace(0), "dispatch workspace 0");
    assert_eq!(switch_workspace(120), "dispatch workspace 120");
    assert_eq!(switch_workspace(usize::MAX), format!("dispatch workspace {}", usize::MAX));
}

#[test]
fn socket_paths() {
    assert_eq!(socket_path("/run/user/1000", "abc_123", ""), "/run/user/1000/hypr/abc_123/.socket.sock");
    assert_eq!(socket_path("/run/user/1000", "abc_123", "2"), "/run/user/1000/hypr/abc_123/.socket2.sock");
}
