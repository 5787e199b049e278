use epic_bar::clients::get_windows;
use epic_bar::workspaces::{
    assign_tags_to_win, check_empty_active_workspace, get_workspaces, ProtocolError, Window,
    Workspace, Workspaces,
};

fn record(address: &str, tag: usize, class: &str, title: &str, order: usize) -> String {
    format!(
        "Window {address} -> {title}:\n\tworkspace: {tag} ({tag})\n\tclass: {class}\n\ttitle: {title}\n\tinitialClass: {class}\n\tinitialTitle: {title}\n\tpid: 1\n\tfocusHistoryID: {order}\n"
    )
}

fn window(tag: usize, order: usize) -> Window {
    Window {
        name: format!("w{order}"),
        info: String::new(),
        address: format!("{order:x}"),
        class: "app".to_string(),
        tag,
        order,
    }
}

fn active_response(tag: usize) -> String {
    format!("workspace ID {tag} ({tag}) on monitor DP-1:\n\tmonitorID: 0\n")
}

fn active_count(ws: &Workspaces) -> usize {
    ws.values().filter(|w| w.active).count()
}

#[test]
fn scenario_single_window() {
    let text = "Window 0xabc -> Firefox:\n\tworkspace: 3 (3)\n\tclass: firefox\n\ttitle: Firefox\n\tinitialClass: firefox\n\tinitialTitle: Mozilla Firefox\n\tpid: 123\n\tfocusHistoryID: 0\n";
    let ws = get_workspaces(text, &active_response(3)).unwrap();
    assert_eq!(ws.len(), 1);
    let w = &ws[&3];
    assert_eq!(w.tag, 3);
    assert_eq!(w.order, 0);
    assert!(w.active);
    assert_eq!(w.windows.len(), 1);
    assert_eq!(w.windows[0].order, 0);
    assert_eq!(w.windows[0].class, "firefox");
    assert_eq!(w.windows[0].address, "abc");
    assert_eq!(w.windows[0].name, "Mozilla Firefox");
}

#[test]
fn scenario_two_tags_grouped() {
    let mut text = record("a1", 4, "kitty", "shell", 0);
    text.push_str(&record("b2", 6, "firefox", "web", 1));
    let ws = assign_tags_to_win(get_windows(&text).unwrap());
    assert_eq!(ws.len(), 2);
    assert_eq!(ws[&4].tag, 4);
    assert_eq!(ws[&4].order, 0);
    assert!(ws[&4].active);
    assert_eq!(ws[&6].tag, 6);
    assert_eq!(ws[&6].order, 1);
    assert!(!ws[&6].active);
}

#[test]
fn scenario_two_tags_reconciled() {
    let mut text = record("a1", 4, "kitty", "shell", 0);
    text.push_str(&record("b2", 6, "firefox", "web", 1));
    let ws = get_workspaces(&text, &active_response(4)).unwrap();
    assert_eq!(ws[&4].order, 0);
    assert!(ws[&4].active);
    assert_eq!(ws[&6].order, 2);
    assert!(!ws[&6].active);
}

#[test]
fn scenario_empty_active_workspace() {
    let mut text = record("a1", 1, "kitty", "shell", 0);
    text.push_str(&record("b2", 2, "firefox", "web", 1));
    text.push_str(&record("c3", 1, "mpv", "video", 2));
    let before = assign_tags_to_win(get_windows(&text).unwrap());
    assert_eq!(before[&1].order, 0);
    assert_eq!(before[&2].order, 1);
    let ws = get_workspaces(&text, &active_response(7)).unwrap();
    assert_eq!(ws.len(), 3);
    let seven = &ws[&7];
    assert!(seven.windows.is_empty());
    assert!(seven.active);
    assert_eq!(seven.order, 0);
    assert_eq!(seven.tag, 7);
    assert_eq!(ws[&1].order, 1);
    assert!(!ws[&1].active);
    assert_eq!(ws[&1].windows.len(), 2);
    assert_eq!(ws[&2].order, 2);
    assert!(!ws[&2].active);
    assert_eq!(active_count(&ws), 1);
}

#[test]
fn grouping_keeps_discovery_order() {
    let ws = assign_tags_to_win(vec![window(5, 0), window(2, 1), window(5, 2), window(9, 3), window(2, 4)]);
    let keys: Vec<usize> = ws.keys().copied().collect();
    assert_eq!(keys, vec![2, 5, 9]);
    assert_eq!(ws[&5].order, 0);
    assert_eq!(ws[&2].order, 1);
    assert_eq!(ws[&9].order, 2);
    let fives: Vec<usize> = ws[&5].windows.iter().map(|w| w.order).collect();
    assert_eq!(fives, vec![0, 2]);
    let twos: Vec<usize> = ws[&2].windows.iter().map(|w| w.order).collect();
    assert_eq!(twos, vec![1, 4]);
    assert!(ws[&5].active);
    assert!(!ws[&2].active);
    assert!(!ws[&9].active);
}

#[test]
fn grouping_nothing_gives_nothing() {
    assert!(assign_tags_to_win(Vec::new()).is_empty());
}

#[test]
fn one_active_workspace_in_snapshot() {
    let mut text = record("a1", 1, "kitty", "shell", 1);
    text.push_str(&record("b2", 2, "firefox", "web", 0));
    text.push_str(&record("c3", 3, "mpv", "video", 2));
    let ws = get_workspaces(&text, &active_response(2)).unwrap();
    assert_eq!(active_count(&ws), 1);
    assert!(ws[&2].active);
}

#[test]
fn focused_window_in_first_workspace() {
    let mut text = record("a1", 8, "kitty", "shell", 3);
    text.push_str(&record("b2", 2, "firefox", "web", 0));
    text.push_str(&record("c3", 8, "mpv", "video", 1));
    let ws = get_workspaces(&text, &active_response(2)).unwrap();
    for space in ws.values() {
        for w in &space.windows {
            if w.order == 0 {
                assert_eq!(space.order, 0);
                assert_eq!(space.tag, 2);
            }
        }
    }
    assert_eq!(ws[&8].order, 2);
}

#[test]
fn reconciling_twice_moves_others_back_again() {
    let mut ws = assign_tags_to_win(vec![window(1, 0), window(2, 1), window(3, 2)]);
    check_empty_active_workspace(&mut ws, 1);
    let orders_once: Vec<usize> = ws.values().map(|w| w.order).collect();
    let active_once: Vec<bool> = ws.values().map(|w| w.active).collect();
    assert_eq!(orders_once, vec![0, 2, 3]);
    check_empty_active_workspace(&mut ws, 1);
    let orders_twice: Vec<usize> = ws.values().map(|w| w.order).collect();
    let active_twice: Vec<bool> = ws.values().map(|w| w.active).collect();
    assert_eq!(orders_twice, vec![0, 3, 4]);
    assert_eq!(active_once, active_twice);
    assert_eq!(active_twice, vec![true, false, false]);
}

#[test]
fn reconcile_compares_the_tag_field() {
    let mut ws: Workspaces = Workspaces::new();
    ws.insert(1, Workspace { windows: Vec::new(), tag: 4, order: 5, active: true });
    check_empty_active_workspace(&mut ws, 4);
    assert_eq!(ws.len(), 2);
    assert_eq!(ws[&1].order, 5);
    assert!(ws[&1].active);
    assert_eq!(ws[&4].order, 0);
    assert!(ws[&4].active);
}

#[test]
fn errors_reach_the_snapshot() {
    assert_eq!(get_workspaces("Window a workspace:", &active_response(1)).unwrap_err(), ProtocolError::MissingValue);
    assert_eq!(get_workspaces("", "no id here").unwrap_err(), ProtocolError::MissingField);
}

#[test]
fn no_windows_gives_only_the_active_workspace() {
    let ws = get_workspaces("", &active_response(5)).unwrap();
    assert_eq!(ws.len(), 1);
    assert!(ws[&5].active);
    assert_eq!(ws[&5].order, 0);
}

#[test]
fn focused_tag_without_focused_window_becomes_active() {
    let text = record("a1", 2, "kitty", "shell", 1);
    let ws = get_workspaces(&text, &active_response(2)).unwrap();
    assert_eq!(ws.len(), 1);
    assert!(ws[&2].active);
    assert_eq!(ws[&2].order, 0);
    assert_eq!(active_count(&ws), 1);
}

#[test]
fn focus_elsewhere_moves_the_active_flag() {
    let mut text = record("a1", 1, "kitty", "shell", 0);
    text.push_str(&record("b2", 2, "firefox", "web", 1));
    let ws = get_workspaces(&text, &active_response(2)).unwrap();
    assert_eq!(active_count(&ws), 1);
    assert!(ws[&2].active);
    assert_eq!(ws[&2].order, 1);
    assert!(!ws[&1].active);
    assert_eq!(ws[&1].order, 1);
}

#[test]
fn scenario_first_tag_focused() {
    let mut text = record("a1", 1, "kitty", "shell", 0);
    text.push_str(&record("b2", 2, "firefox", "web", 1));
    let ws = get_workspaces(&text, &active_response(1)).unwrap();
    let keys: Vec<usize> = ws.keys().copied().collect();
    assert_eq!(keys, vec![1, 2]);
    assert_eq!(ws[&1].order, 0);
    assert!(ws[&1].active);
    assert_eq!(ws[&1].windows[0].address, "a1");
    assert!(!ws[&2].active);
    assert_eq!(ws[&2].order, 2);
}

#[test]
fn reconcile_activates_present_focused_workspace() {
    let mut ws: Workspaces = Workspaces::new();
    ws.insert(1, Workspace { windows: Vec::new(), tag: 1, order: 0, active: true });
    ws.insert(2, Workspace { windows: Vec::new(), tag: 2, order: usize::MAX, active: false });
    check_empty_active_workspace(&mut ws, 2);
    assert!(ws[&2].active);
    assert_eq!(ws[&2].order, usize::MAX);
    assert!(!ws[&1].active);
    assert_eq!(ws[&1].order, 1);
}

#[test]
fn focused_window_outside_focused_workspace_moves_back() {
    let text = record("a1", 1, "kitty", "shell", 0);
    let ws = get_workspaces(&text, &active_response(7)).unwrap();
    assert_eq!(ws[&1].windows[0].order, 0);
    assert_eq!(ws[&1].order, 1);
    assert_eq!(ws[&7].order, 0);
}
