//! Parsing the compositor's `clients` and `activeworkspace` responses.
use vstd::prelude::*;

use crate::text::{
    chars_of, contains, contains_exec, eq_chars, last_segment, last_segment_exec, parse_usize,
    parse_usize_exec, string_of,
};
use crate::tokens::{end_until, peek_until_newline, split_tokens, tokens, value_until};
use crate::workspaces::{ProtocolError, Window, WindowModel};

verus! {

pub open spec fn key_workspace() -> Seq<char> {
    "workspace:"@
}

pub open spec fn key_title() -> Seq<char> {
    "title:"@
}

pub open spec fn key_initial_class() -> Seq<char> {
    "initialClass:"@
}

pub open spec fn key_initial_title() -> Seq<char> {
    "initialTitle:"@
}

pub open spec fn key_pid() -> Seq<char> {
    "pid:"@
}

pub open spec fn key_focus() -> Seq<char> {
    "focusHistoryID:"@
}

pub open spec fn key_window() -> Seq<char> {
    "Window"@
}

pub open spec fn key_class() -> Seq<char> {
    "class:"@
}

pub open spec fn key_id() -> Seq<char> {
    "ID"@
}

/// A window's name with known noisy names collapsed, and a document path
/// reduced to its file name.
pub open spec fn clean_name(raw: Seq<char>) -> Seq<char> {
    if contains(raw, "Chromium"@) {
        "Chromium"@
    } else if contains(raw, "OBS"@) {
        "OBS Studio"@
    } else if contains(raw, ".pdf"@) {
        last_segment(raw)
    } else if contains(raw, "WhatsApp"@) {
        "WhatsApp"@
    } else {
        raw
    }
}

/// A window's title, with a document path reduced to its file name.
pub open spec fn clean_info(raw: Seq<char>) -> Seq<char> {
    if contains(raw, ".pdf"@) {
        last_segment(raw)
    } else {
        raw
    }
}

/// An address token without its `0x` prefix.
pub open spec fn bare_address(t: Seq<char>) -> Seq<char> {
    if t.len() >= 2 && t[0] == '0' && t[1] == 'x' {
        t.skip(2)
    } else {
        t
    }
}

/// The fields of the window record being read.
pub struct Draft {
    pub name: Seq<char>,
    pub info: Seq<char>,
    pub class: Seq<char>,
    pub address: Option<Seq<char>>,
    pub tag: Option<usize>,
}

pub open spec fn empty_draft() -> Draft {
    Draft { name: seq![], info: seq![], class: seq![], address: None, tag: None }
}

pub proof fn lemma_read_until_bounds(toks: Seq<Seq<char>>, i: int, sentinel: Seq<char>)
    requires
        0 <= i <= toks.len(),
    ensures
        i <= end_until(toks, i, sentinel) <= toks.len(),
    decreases toks.len() - i,
{
    if i < toks.len() {
        lemma_read_until_bounds(toks, i + 1, sentinel);
    }
}

/// The window records of the tokens from `i` on, in the order they end,
/// given the record `d` being read and the records `done` already read.
pub open spec fn parse_from(toks: Seq<Seq<char>>, i: int, d: Draft, done: Seq<WindowModel>) -> Result<
    Seq<WindowModel>,
    ProtocolError,
>
    decreases toks.len() - i,
{
    if i < 0 || i >= toks.len() {
        Ok(done)
    } else if toks[i] == key_workspace() {
        if i + 1 >= toks.len() {
            Err(ProtocolError::MissingValue)
        } else {
            match parse_usize(toks[i + 1]) {
                Some(n) => parse_from(toks, i + 1, Draft { tag: Some(n), ..d }, done),
                None => Err(ProtocolError::BadNumber),
            }
        }
    } else if toks[i] == key_title() {
        proof {
            lemma_read_until_bounds(toks, i + 1, key_initial_class());
        }
        parse_from(
            toks,
            end_until(toks, i + 1, key_initial_class()),
            Draft { info: clean_info(value_until(toks, i + 1, key_initial_class())), ..d },
            done,
        )
    } else if toks[i] == key_initial_title() {
        proof {
            lemma_read_until_bounds(toks, i + 1, key_pid());
        }
        parse_from(
            toks,
            end_until(toks, i + 1, key_pid()),
            Draft { name: clean_name(value_until(toks, i + 1, key_pid())), ..d },
            done,
        )
    } else if toks[i] == key_focus() {
        if i + 1 >= toks.len() {
            Err(ProtocolError::MissingValue)
        } else {
            match parse_usize(toks[i + 1]) {
                Some(n) => match (d.address, d.tag) {
                    (Some(a), Some(t)) => parse_from(
                        toks,
                        i + 1,
                        empty_draft(),
                        done.push(
                            WindowModel {
                                name: d.name,
                                info: d.info,
                                address: a,
                                class: d.class,
                                tag: t,
                                order: n,
                            },
                        ),
                    ),
                    _ => Err(ProtocolError::IncompleteRecord),
                },
                None => Err(ProtocolError::BadNumber),
            }
        }
    } else if toks[i] == key_window() {
        if i + 1 >= toks.len() {
            Err(ProtocolError::MissingValue)
        } else {
            parse_from(toks, i + 1, Draft { address: Some(bare_address(toks[i + 1])), ..d }, done)
        }
    } else if toks[i] == key_class() {
        proof {
            lemma_read_until_bounds(toks, i + 1, key_title());
        }
        parse_from(
            toks,
            end_until(toks, i + 1, key_title()),
            Draft { class: value_until(toks, i + 1, key_title()), ..d },
            done,
        )
    } else {
        parse_from(toks, i + 1, d, done)
    }
}

/// The window records that the tokens of a `clients` response hold, in the
/// order they appear.
pub open spec fn records_of_tokens(toks: Seq<Seq<char>>) -> Result<Seq<WindowModel>, ProtocolError> {
    parse_from(toks, 0, empty_draft(), seq![])
}

/// The window records of a `clients` response, in the order they appear.
pub open spec fn records(text: Seq<char>) -> Result<Seq<WindowModel>, ProtocolError> {
    records_of_tokens(tokens(text))
}

/// `w` inserted into `s` after every record whose order is at most its own.
pub open spec fn insert_by_order(s: Seq<WindowModel>, w: WindowModel) -> Seq<WindowModel>
    decreases s.len(),
{
    if s.len() == 0 {
        seq![w]
    } else if w.order < s[0].order {
        seq![w] + s
    } else {
        seq![s[0]] + insert_by_order(s.drop_first(), w)
    }
}

/// `s` sorted by ascending order; records of equal order keep their order.
pub open spec fn sort_by_order(s: Seq<WindowModel>) -> Seq<WindowModel>
    decreases s.len(),
{
    if s.len() == 0 {
        s
    } else {
        insert_by_order(sort_by_order(s.drop_last()), s.last())
    }
}

/// The windows of a `clients` response, sorted by ascending order.
pub open spec fn parse_clients(text: Seq<char>) -> Result<Seq<WindowModel>, ProtocolError> {
    match records(text) {
        Ok(ws) => Ok(sort_by_order(ws)),
        Err(e) => Err(e),
    }
}

proof fn lemma_insert_at(s: Seq<WindowModel>, w: WindowModel, k: int)
    requires
        0 <= k <= s.len(),
        forall|i: int| 0 <= i < k ==> s[i].order <= w.order,
        k < s.len() ==> s[k].order > w.order,
    ensures
        insert_by_order(s, w) == s.insert(k, w),
    decreases k,
{
    if k == 0 {
        assert(s.insert(0, w) == seq![w] + s);
    } else {
        lemma_insert_at(s.drop_first(), w, k - 1);
        assert(s.insert(k, w) == seq![s[0]] + s.drop_first().insert(k - 1, w));
    }
}

fn clean_name_exec(raw: Vec<char>) -> (r: Vec<char>)
    ensures
        r@ == clean_name(raw@),
{
    if contains_exec(&raw, &chars_of("Chromium")) {
        chars_of("Chromium")
    } else if contains_exec(&raw, &chars_of("OBS")) {
        chars_of("OBS Studio")
    } else if contains_exec(&raw, &chars_of(".pdf")) {
        last_segment_exec(&raw)
    } else if contains_exec(&raw, &chars_of("WhatsApp")) {
        chars_of("WhatsApp")
    } else {
        raw
    }
}

fn clean_info_exec(raw: Vec<char>) -> (r: Vec<char>)
    ensures
        r@ == clean_info(raw@),
{
    if contains_exec(&raw, &chars_of(".pdf")) {
        last_segment_exec(&raw)
    } else {
        raw
    }
}

fn bare_address_exec(t: &Vec<char>) -> (r: Vec<char>)
    ensures
        r@ == bare_address(t@),
{
    let start: usize = if t.len() >= 2 && t[0] == '0' && t[1] == 'x' {
        2
    } else {
        0
    };
    let mut r: Vec<char> = Vec::new();
    let mut i: usize = start;
    while i < t.len()
        invariant
            start <= i <= t@.len(),
            r@ == t@.subrange(start as int, i as int),
        decreases t@.len() - i,
    {
        r.push(t[i]);
        assert(t@.subrange(start as int, i + 1) == t@.subrange(start as int, i as int).push(
            t@[i as int],
        ));
        i = i + 1;
    }
    assert(t@.skip(start as int) == t@.subrange(start as int, t@.len() as int));
    assert(t@.skip(0) == t@);
    r
}

/// Puts `w` into `out`, which is sorted by order, after every window whose
/// order is at most its own.
fn insert_window(out: &mut Vec<Window>, w: Window)
    ensures
        final(out)@.map_values(|x: Window| x@) == insert_by_order(
            old(out)@.map_values(|x: Window| x@),
            w@,
        ),
{
    let ghost s = out@.map_values(|x: Window| x@);
    let mut k: usize = 0;
    while k < out.len() && out[k].order <= w.order
        invariant
            s == out@.map_values(|x: Window| x@),
            k <= out@.len(),
            forall|i: int| 0 <= i < k ==> s[i].order <= w.order,
        decreases out@.len() - k,
    {
        k = k + 1;
    }
    proof {
        lemma_insert_at(s, w@, k as int);
    }
    let ghost wv = w@;
    out.insert(k, w);
    assert(out@.map_values(|x: Window| x@) == s.insert(k as int, wv));
}

/// The draft that the parser's variables hold.
pub open spec fn draft_of(
    name: Seq<char>,
    info: Seq<char>,
    class: Seq<char>,
    address: Option<Vec<char>>,
    tag: Option<usize>,
) -> Draft {
    Draft {
        name,
        info,
        class,
        address: match address {
            Some(a) => Some(a@),
            None => None,
        },
        tag,
    }
}

/// Parses a `clients` response into its windows, sorted by ascending order
/// (index 0 is the focused window).
///
/// A record ends at its `focusHistoryID:` field and must have had a `Window`
/// and a `workspace:` field since the previous one ended; a class, title or
/// name it does not give is empty. Multi-word values end where the next
/// field's name begins, even with no space before it.
pub fn get_windows(response: &str) -> (r: Result<Vec<Window>, ProtocolError>)
    ensures
        match r {
            Ok(ws) => parse_clients(response@) == Ok::<Seq<WindowModel>, ProtocolError>(
                ws@.map_values(|w: Window| w@),
            ),
            Err(e) => parse_clients(response@) == Err::<Seq<WindowModel>, ProtocolError>(e),
        },
{
    let toks_v = split_tokens(response);
    let ghost toks = toks_v@.map_values(|t: Vec<char>| t@);
    let k_workspace = chars_of("workspace:");
    let k_title = chars_of("title:");
    let k_initial_class = chars_of("initialClass:");
    let k_initial_title = chars_of("initialTitle:");
    let k_pid = chars_of("pid:");
    let k_focus = chars_of("focusHistoryID:");
    let k_window = chars_of("Window");
    let k_class = chars_of("class:");

    let mut pos: usize = 0;
    let mut name: Vec<char> = Vec::new();
    let mut info: Vec<char> = Vec::new();
    let mut class: Vec<char> = Vec::new();
    let mut address: Option<Vec<char>> = None;
    let mut tag: Option<usize> = None;
    let mut out: Vec<Window> = Vec::new();
    let ghost mut done: Seq<WindowModel> = seq![];
    while pos < toks_v.len()
        invariant
            toks == toks_v@.map_values(|t: Vec<char>| t@),
            toks == tokens(response@),
            k_workspace@ == key_workspace(),
            k_title@ == key_title(),
            k_initial_class@ == key_initial_class(),
            k_initial_title@ == key_initial_title(),
            k_pid@ == key_pid(),
            k_focus@ == key_focus(),
            k_window@ == key_window(),
            k_class@ == key_class(),
            pos <= toks.len(),
            records(response@) == parse_from(
                toks,
                pos as int,
                draft_of(name@, info@, class@, address, tag),
                done,
            ),
            out@.map_values(|w: Window| w@) == sort_by_order(done),
        decreases toks.len() - pos,
    {
        let key = &toks_v[pos];
        assert(toks[pos as int] == key@);
        if eq_chars(key, &k_workspace) {
            if pos + 1 >= toks_v.len() {
                return Err(ProtocolError::MissingValue);
            }
            match parse_usize_exec(&toks_v[pos + 1]) {
                Some(n) => {
                    tag = Some(n);
                    pos = pos + 1;
                },
                None => {
                    return Err(ProtocolError::BadNumber);
                },
            }
        } else if eq_chars(key, &k_title) {
            let mut p = pos + 1;
            let v = peek_until_newline(&toks_v, &mut p, &k_initial_class);
            info = clean_info_exec(v);
            pos = p;
        } else if eq_chars(key, &k_initial_title) {
            let mut p = pos + 1;
            let v = peek_until_newline(&toks_v, &mut p, &k_pid);
            name = clean_name_exec(v);
            pos = p;
        } else if eq_chars(key, &k_focus) {
            if pos + 1 >= toks_v.len() {
                return Err(ProtocolError::MissingValue);
            }
            match parse_usize_exec(&toks_v[pos + 1]) {
                Some(n) => {
                    match (&address, tag) {
                        (Some(a), Some(t)) => {
                            let w = Window {
                                name: string_of(&name),
                                info: string_of(&info),
                                address: string_of(a),
                                class: string_of(&class),
                                tag: t,
                                order: n,
                            };
                            proof {
                                let d = draft_of(name@, info@, class@, address, tag);
                                assert(w@ == WindowModel {
                                    name: d.name,
                                    info: d.info,
                                    address: a@,
                                    class: d.class,
                                    tag: t,
                                    order: n,
                                });
                                assert(done.push(w@).drop_last() == done);
                            }
                            insert_window(&mut out, w);
                            proof {
                                done = done.push(w@);
                            }
                            name = Vec::new();
                            info = Vec::new();
                            class = Vec::new();
                            address = None;
                            tag = None;
                            pos = pos + 1;
                        },
                        _ => {
                            return Err(ProtocolError::IncompleteRecord);
                        },
                    }
                },
                None => {
                    return Err(ProtocolError::BadNumber);
                },
            }
        } else if eq_chars(key, &k_window) {
            if pos + 1 >= toks_v.len() {
                return Err(ProtocolError::MissingValue);
            }
            address = Some(bare_address_exec(&toks_v[pos + 1]));
            pos = pos + 1;
        } else if eq_chars(key, &k_class) {
            let mut p = pos + 1;
            class = peek_until_newline(&toks_v, &mut p, &k_title);
            pos = p;
        } else {
            pos = pos + 1;
        }
    }
    Ok(out)
}

/// The focused workspace's tag that an `activeworkspace` response gives from
/// token `i` on, where `found` is the tag of the last `ID` field before `i`.
pub open spec fn active_from(toks: Seq<Seq<char>>, i: int, found: Option<usize>) -> Result<
    usize,
    ProtocolError,
>
    decreases toks.len() - i,
{
    if i < 0 || i >= toks.len() {
        match found {
            Some(t) => Ok(t),
            None => Err(ProtocolError::MissingField),
        }
    } else if toks[i] == key_id() {
        if i + 1 >= toks.len() {
            Err(ProtocolError::MissingValue)
        } else {
            match parse_usize(toks[i + 1]) {
                Some(n) => active_from(toks, i + 1, Some(n)),
                None => Err(ProtocolError::BadNumber),
            }
        }
    } else {
        active_from(toks, i + 1, found)
    }
}

/// The tag of an `activeworkspace` response: the number after its last `ID`.
pub open spec fn active_tag(text: Seq<char>) -> Result<usize, ProtocolError> {
    active_from(tokens(text), 0, None)
}

/// Reads the focused workspace's tag from an `activeworkspace` response.
pub fn parse_active_workspace(response: &str) -> (r: Result<usize, ProtocolError>)
    ensures
        r == active_tag(response@),
{
    let toks_v = split_tokens(response);
    let ghost toks = toks_v@.map_values(|t: Vec<char>| t@);
    let k_id = chars_of("ID");
    let mut found: Option<usize> = None;
    let mut pos: usize = 0;
    while pos < toks_v.len()
        invariant
            toks == toks_v@.map_values(|t: Vec<char>| t@),
            toks == tokens(response@),
            k_id@ == key_id(),
            pos <= toks.len(),
            active_tag(response@) == active_from(toks, pos as int, found),
        decreases toks.len() - pos,
    {
        assert(toks[pos as int] == toks_v[pos as int]@);
        if eq_chars(&toks_v[pos], &k_id) {
            if pos + 1 >= toks_v.len() {
                return Err(ProtocolError::MissingValue);
            }
            match parse_usize_exec(&toks_v[pos + 1]) {
                Some(n) => {
                    found = Some(n);
                },
                None => {
                    return Err(ProtocolError::BadNumber);
                },
            }
        }
        pos = pos + 1;
    }
    match found {
        Some(t) => Ok(t),
        None => Err(ProtocolError::MissingField),
    }
}

/// Whether the windows of `s` come in ascending order.
pub open spec fn sorted_by_order(s: Seq<WindowModel>) -> bool {
    forall|i: int, j: int| 0 <= i < j < s.len() ==> #[trigger] s[i].order <= #[trigger] s[j].order
}

proof fn lemma_insert_sorted(s: Seq<WindowModel>, w: WindowModel)
    requires
        sorted_by_order(s),
    ensures
        sorted_by_order(insert_by_order(s, w)),
        insert_by_order(s, w).len() == s.len() + 1,
        forall|i: int|
            0 <= i < s.len() + 1 ==> #[trigger] insert_by_order(s, w)[i] == w || s.contains(
                insert_by_order(s, w)[i],
            ),
    decreases s.len(),
{
    if s.len() > 0 && w.order >= s[0].order {
        let rest = s.drop_first();
        lemma_insert_sorted(rest, w);
        let r = insert_by_order(s, w);
        let tail = insert_by_order(rest, w);
        assert forall|i: int| 0 <= i < s.len() + 1 implies #[trigger] r[i] == w || s.contains(
            r[i],
        ) by {
            if i == 0 {
                assert(s[0] == r[0]);
            } else {
                assert(r[i] == tail[i - 1]);
                if r[i] != w {
                    let j = choose|j: int| 0 <= j < rest.len() && rest[j] == r[i];
                    assert(s[j + 1] == r[i]);
                }
            }
        }
        assert forall|i: int, j: int| 0 <= i < j < r.len() implies #[trigger] r[i].order
            <= #[trigger] r[j].order by {
            if i == 0 {
                assert(r[j] == tail[j - 1]);
                if tail[j - 1] != w {
                    let k = choose|k: int| 0 <= k < rest.len() && rest[k] == tail[j - 1];
                    assert(s[k + 1] == rest[k]);
                }
            } else {
                assert(r[i] == tail[i - 1]);
                assert(r[j] == tail[j - 1]);
            }
        }
    } else if s.len() > 0 {
        let r = insert_by_order(s, w);
        assert forall|i: int| 0 <= i < s.len() + 1 implies #[trigger] r[i] == w || s.contains(
            r[i],
        ) by {
            if i > 0 {
                assert(r[i] == s[i - 1]);
            }
        }
        assert forall|i: int, j: int| 0 <= i < j < r.len() implies #[trigger] r[i].order
            <= #[trigger] r[j].order by {
            assert(r[j] == s[j - 1]);
            if i > 0 {
                assert(r[i] == s[i - 1]);
            }
        }
    }
}

proof fn lemma_insert_permutes(s: Seq<WindowModel>, w: WindowModel)
    ensures
        insert_by_order(s, w).to_multiset() == s.to_multiset().insert(w),
    decreases s.len(),
{
    broadcast use vstd::seq_lib::group_to_multiset_ensures;
    broadcast use vstd::multiset::group_multiset_axioms;

    if s.len() == 0 {
        assert(seq![w] == Seq::<WindowModel>::empty().push(w));
    } else {
        let head = seq![s[0]];
        assert(head == Seq::<WindowModel>::empty().push(s[0]));
        assert(s == head + s.drop_first());
        vstd::seq_lib::lemma_multiset_commutative(head, s.drop_first());
        if w.order < s[0].order {
            assert(seq![w] == Seq::<WindowModel>::empty().push(w));
            vstd::seq_lib::lemma_multiset_commutative(seq![w], s);
            assert(insert_by_order(s, w).to_multiset() =~= s.to_multiset().insert(w));
        } else {
            lemma_insert_permutes(s.drop_first(), w);
            vstd::seq_lib::lemma_multiset_commutative(head, insert_by_order(s.drop_first(), w));
            assert(insert_by_order(s, w).to_multiset() =~= s.to_multiset().insert(w));
        }
    }
}

/// Sorting by order gives a sorted sequence of the same windows: a
/// permutation of the input.
pub proof fn lemma_sort_sorted(s: Seq<WindowModel>)
    ensures
        sorted_by_order(sort_by_order(s)),
        sort_by_order(s).len() == s.len(),
        sort_by_order(s).to_multiset() == s.to_multiset(),
    decreases s.len(),
{
    broadcast use vstd::seq_lib::group_to_multiset_ensures;

    if s.len() > 0 {
        lemma_sort_sorted(s.drop_last());
        lemma_insert_sorted(sort_by_order(s.drop_last()), s.last());
        lemma_insert_permutes(sort_by_order(s.drop_last()), s.last());
        assert(s.drop_last().push(s.last()) == s);
    }
}

/// The windows that a `clients` response yields come in ascending order.
pub proof fn lemma_parsed_sorted(text: Seq<char>)
    ensures
        parse_clients(text) matches Ok(ws) ==> sorted_by_order(ws),
{
    if let Ok(ws) = records(text) {
        lemma_sort_sorted(ws);
    }
}

} // verus!
