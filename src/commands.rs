//! What is sent to and read from the compositor's sockets: socket paths,
//! dispatch commands, and the classification of event lines.
use vstd::prelude::*;

use crate::text::{
    chars_of, decimal, eq_chars, find, find_exec, lemma_find_from_occurs, prefix, push_decimal,
};

verus! {

/// The filesystem path of a compositor socket: `<runtime_dir>/hypr/<signature>/.socket<channel>.sock`,
/// where `channel` is empty for the command channel and `"2"` for the event channel.
pub fn socket_path(runtime_dir: &str, signature: &str, channel: &str) -> (r: String)
    ensures
        r@ == runtime_dir@ + "/hypr/"@ + signature@ + "/.socket"@ + channel@ + ".sock"@,
{
    let mut r = runtime_dir.to_owned();
    r.append("/hypr/");
    r.append(signature);
    r.append("/.socket");
    r.append(channel);
    r.append(".sock");
    r
}

/// The dispatch command that focuses the window with address `adr`
/// (given without its `0x` prefix).
pub fn switch_window(adr: &String) -> (r: String)
    ensures
        r@ == "dispatch focuswindow address:0x"@ + adr@,
{
    let mut r = "dispatch focuswindow address:0x".to_owned();
    r.append(adr.as_str());
    r
}

/// The dispatch command that switches to the workspace `tag`.
pub fn switch_workspace(tag: usize) -> (r: String)
    ensures
        r@ == "dispatch workspace "@ + decimal(tag as nat),
{
    let mut r = "dispatch workspace ".to_owned();
    push_decimal(&mut r, tag);
    r
}

/// The event name of an event-channel line: what stands before its first `>>`,
/// or the whole line when it holds none.
pub open spec fn event_name(line: Seq<char>) -> Seq<char> {
    match find(line, ">>"@) {
        Some(k) => line.take(k),
        None => line,
    }
}

/// The events that change what the bar shows: a workspace change, an active
/// window change, and a window that opens, closes or moves.
pub open spec fn is_watched_event(name: Seq<char>) -> bool {
    ||| name == "workspace"@
    ||| name == "activewindow"@
    ||| name == "openwindow"@
    ||| name == "closewindow"@
    ||| name == "movewindow"@
}

/// Whether an event-channel line (without its line terminator) reports
/// activity that calls for a new snapshot.
pub fn is_activity_event(line: &str) -> (r: bool)
    ensures
        r == is_watched_event(event_name(line@)),
{
    let cs = chars_of(line);
    let sep = chars_of(">>");
    let found = find_exec(&cs, &sep);
    proof {
        lemma_find_from_occurs(cs@, sep@, 0);
    }
    let name = match found {
        Some(k) => prefix(&cs, k),
        None => cs,
    };
    eq_chars(&name, &chars_of("workspace")) || eq_chars(&name, &chars_of("activewindow"))
        || eq_chars(&name, &chars_of("openwindow")) || eq_chars(&name, &chars_of("closewindow"))
        || eq_chars(&name, &chars_of("movewindow"))
}

} // verus!
