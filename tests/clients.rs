use epic_bar::clients::{get_windows, parse_active_workspace};
use epic_bar::tokens::{peek_until_newline, split_tokens};
use epic_bar::workspaces::ProtocolError;

fn record(address: &str, tag: usize, class: &str, title: &str, initial_title: &str, order: usize) -> String {
    format!(
        "Window {address} -> {title}:\n\tmapped: 1\n\thidden: 0\n\tat: 10,50\n\tsize: 1900,1020\n\tworkspace: {tag} ({tag})\n\tfloating: 0\n\tpseudo: 0\n\tmonitor: 0\n\tclass: {class}\n\ttitle: {title}\n\tinitialClass: {class}\n\tinitialTitle: {initial_title}\n\tpid: 123\n\txwayland: 0\n\tpinned: 0\n\tfullscreen: 0\n\tfullscreenClient: 0\n\tgrouped: 0\n\ttags: \n\tswallowing: 0\n\tfocusHistoryID: {order}\n\tinhibitingIdle: 0\n\n"
    )
}

fn chars(s: &str) -> Vec<char> {
    s.chars().collect()
}

#[test]
fn tokens_split_at_any_whitespace() {
    let toks = split_tokens("  a\tbc\n\n d \u{a0}e ");
    let expected: Vec<Vec<char>> = vec![chars("a"), chars("bc"), chars("d"), chars("e")];
    assert_eq!(toks, expected);
    assert!(split_tokens(" \n\t ").is_empty());
}

#[test]
fn sentinel_without_whitespace_is_found() {
    let toks = split_tokens("title: Mozilla FirefoxinitialClass: firefox");
    let mut pos: usize = 1;
    let value = peek_until_newline(&toks, &mut pos, &chars("initialClass:"));
    assert_eq!(value, chars("Mozilla Firefox"));
    assert_eq!(pos, 2);
    assert_eq!(toks[pos], chars("FirefoxinitialClass:"));
}

#[test]
fn sentinel_token_alone_gives_empty_value() {
    let toks = split_tokens("title: initialClass: x");
    let mut pos: usize = 1;
    let value = peek_until_newline(&toks, &mut pos, &chars("initialClass:"));
    assert!(value.is_empty());
    assert_eq!(pos, 1);
}

#[test]
fn value_runs_to_end_without_sentinel() {
    let toks = split_tokens("class: a b c");
    let mut pos: usize = 1;
    let value = peek_until_newline(&toks, &mut pos, &chars("title:"));
    assert_eq!(value, chars("a b c"));
    assert_eq!(pos, 4);
}

#[test]
fn title_glued_to_next_field_in_response() {
    let text = "Window 1a2b\n workspace: 2 (2)\n class: kitty\n title: ~/srcinitialClass: kitty\n initialTitle: kitty\n pid: 9\n focusHistoryID: 0\n";
    let ws = get_windows(text).unwrap();
    assert_eq!(ws.len(), 1);
    assert_eq!(ws[0].info, "~/src");
    assert_eq!(ws[0].name, "kitty");
}

#[test]
fn one_record_is_read() {
    let text = record("0xabc", 3, "firefox", "Firefox", "Mozilla Firefox", 0);
    let ws = get_windows(&text).unwrap();
    assert_eq!(ws.len(), 1);
    let w = &ws[0];
    assert_eq!(w.tag, 3);
    assert_eq!(w.order, 0);
    assert_eq!(w.class, "firefox");
    assert_eq!(w.address, "abc");
    assert_eq!(w.name, "Mozilla Firefox");
    assert_eq!(w.info, "Firefox");
}

#[test]
fn records_round_trip_with_denoising() {
    let mut text = String::new();
    text.push_str(&record("55d3e1c0a8f0", 1, "kitty", "nvim lib.rs", "kitty", 2));
    text.push_str(&record("55d3e1c0b9a1", 2, "chromium", "News - Chromium", "Chromium Web Browser", 0));
    text.push_str(&record("55d3e1c0c7b2", 1, "org.pwmt.zathura", "/home/u/docs/report.pdf", "/home/u/docs/report.pdf", 1));
    text.push_str(&record("55d3e1c0d6c3", 4, "com.obsproject.Studio", "OBS 30.1", "OBS 30.1 - Profile", 3));
    text.push_str(&record("55d3e1c0e5d4", 5, "whatsapp", "(3) WhatsApp Web", "WhatsApp Desktop", 4));
    let ws = get_windows(&text).unwrap();
    assert_eq!(ws.len(), 5);
    let orders: Vec<usize> = ws.iter().map(|w| w.order).collect();
    assert_eq!(orders, vec![0, 1, 2, 3, 4]);
    assert_eq!(ws[0].address, "55d3e1c0b9a1");
    assert_eq!(ws[0].tag, 2);
    assert_eq!(ws[0].class, "chromium");
    assert_eq!(ws[0].name, "Chromium");
    assert_eq!(ws[0].info, "News - Chromium");
    assert_eq!(ws[1].name, "report.pdf");
    assert_eq!(ws[1].info, "report.pdf");
    assert_eq!(ws[1].class, "org.pwmt.zathura");
    assert_eq!(ws[2].name, "kitty");
    assert_eq!(ws[2].info, "nvim lib.rs");
    assert_eq!(ws[2].address, "55d3e1c0a8f0");
    assert_eq!(ws[3].name, "OBS Studio");
    assert_eq!(ws[3].info, "OBS 30.1");
    assert_eq!(ws[4].name, "WhatsApp");
    assert_eq!(ws[4].tag, 5);
}

#[test]
fn empty_response_has_no_windows() {
    assert!(get_windows("").unwrap().is_empty());
    assert!(get_windows("   \n").unwrap().is_empty());
}

#[test]
fn equal_orders_keep_their_order() {
    let mut text = String::new();
    text.push_str(&record("a1", 1, "one", "t", "first", 1));
    text.push_str(&record("a2", 2, "two", "t", "second", 1));
    text.push_str(&record("a3", 3, "three", "t", "third", 0));
    let ws = get_windows(&text).unwrap();
    let names: Vec<&str> = ws.iter().map(|w| w.name.as_str()).collect();
    assert_eq!(names, vec!["third", "first", "second"]);
}

#[test]
fn workspace_without_value_is_missing_value() {
    assert_eq!(get_windows("Window ab workspace:").unwrap_err(), ProtocolError::MissingValue);
    assert_eq!(get_windows("Window").unwrap_err(), ProtocolError::MissingValue);
    assert_eq!(get_windows("Window a workspace: 1 focusHistoryID:").unwrap_err(), ProtocolError::MissingValue);
}

#[test]
fn non_numeric_workspace_is_bad_number() {
    assert_eq!(get_windows("Window ab workspace: -98 (special)").unwrap_err(), ProtocolError::BadNumber);
    assert_eq!(get_windows("Window a workspace: 1 focusHistoryID: x").unwrap_err(), ProtocolError::BadNumber);
    assert_eq!(
        get_windows("Window a workspace: 99999999999999999999999 focusHistoryID: 0").unwrap_err(),
        ProtocolError::BadNumber
    );
}

#[test]
fn record_without_address_is_incomplete() {
    assert_eq!(get_windows("workspace: 1 focusHistoryID: 0").unwrap_err(), ProtocolError::IncompleteRecord);
    assert_eq!(get_windows("Window a focusHistoryID: 0").unwrap_err(), ProtocolError::IncompleteRecord);
}

#[test]
fn plus_sign_and_largest_number_are_accepted() {
    let ws = get_windows("Window a workspace: +4 focusHistoryID: 18446744073709551615").unwrap();
    assert_eq!(ws[0].tag, 4);
    assert_eq!(ws[0].order, 18446744073709551615);
}

#[test]
fn active_workspace_id_is_read() {
    let text = "workspace ID 7 (7) on monitor eDP-1:\n\tmonitorID: 0\n\twindows: 0\n\thasfullscreen: 0\n\tlastwindow: 0x0\n\tlastwindowtitle: \n";
    assert_eq!(parse_active_workspace(text), Ok(7));
}

#[test]
fn active_workspace_errors() {
    assert_eq!(parse_active_workspace("workspace 7"), Err(ProtocolError::MissingField));
    assert_eq!(parse_active_workspace("workspace ID"), Err(ProtocolError::MissingValue));
    assert_eq!(parse_active_workspace("workspace ID seven"), Err(ProtocolError::BadNumber));
}
