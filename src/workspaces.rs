//! The workspace/window snapshot: its types, the grouping of windows into
//! workspaces, and the reconciliation with the focused workspace.
use vstd::prelude::*;
use vstd::std_specs::btree::spec_keys_iter;
use vstd::std_specs::iter::IteratorSpec;

use crate::clients::{
    active_tag, get_windows, lemma_parsed_sorted, parse_active_workspace, parse_clients,
};

verus! {

/// One open application window.
#[derive(Debug)]
pub struct Window {
    /// Display name, with known noisy names collapsed.
    pub name: String,
    /// Secondary text (the window title).
    pub info: String,
    /// The compositor's identity token for the window, without a `0x` prefix.
    pub address: String,
    /// Application class.
    pub class: String,
    /// The workspace the window belongs to.
    pub tag: usize,
    /// Recency rank among all windows; `0` is the focused one.
    pub order: usize,
}

/// What a `Window` holds, as plain values.
pub struct WindowModel {
    pub name: Seq<char>,
    pub info: Seq<char>,
    pub address: Seq<char>,
    pub class: Seq<char>,
    pub tag: usize,
    pub order: usize,
}

impl View for Window {
    type V = WindowModel;

    open spec fn view(&self) -> WindowModel {
        WindowModel {
            name: self.name@,
            info: self.info@,
            address: self.address@,
            class: self.class@,
            tag: self.tag,
            order: self.order,
        }
    }
}

/// One numbered workspace.
#[derive(Debug)]
pub struct Workspace {
    /// Its windows, in the order they were found.
    pub windows: Vec<Window>,
    pub tag: usize,
    /// Recency rank among workspaces; `0` is the most recently focused.
    pub order: usize,
    /// Whether the workspace holds the input focus.
    pub active: bool,
}

/// What a `Workspace` holds, as plain values.
pub struct WorkspaceModel {
    pub windows: Seq<WindowModel>,
    pub tag: usize,
    pub order: usize,
    pub active: bool,
}

impl View for Workspace {
    type V = WorkspaceModel;

    open spec fn view(&self) -> WorkspaceModel {
        WorkspaceModel {
            windows: self.windows@.map_values(|w: Window| w@),
            tag: self.tag,
            order: self.order,
            active: self.active,
        }
    }
}

/// Workspaces keyed by tag.
pub type Workspaces = std::collections::BTreeMap<usize, Workspace>;

/// The snapshot that a map of workspaces holds, as plain values.
pub open spec fn snapshot_view(m: Map<usize, Workspace>) -> Map<usize, WorkspaceModel> {
    m.map_values(|w: Workspace| w@)
}

/// A response that does not follow the compositor's format.
#[derive(PartialEq, Eq, Structural, Debug, Clone, Copy)]
pub enum ProtocolError {
    /// A field name ends the response where its value should follow.
    MissingValue,
    /// A numeric field's value is not a number that fits in a `usize`.
    BadNumber,
    /// A window record ends before its address and workspace were given.
    IncompleteRecord,
    /// A field that the response must hold is absent.
    MissingField,
}

/// The workspaces that the windows `ws` form, taken in order, and how many
/// there are. A workspace is made by its first window: its order is the number
/// of workspaces made before it, and it is active when that window is focused.
pub open spec fn group(ws: Seq<WindowModel>) -> (Map<usize, WorkspaceModel>, nat)
    decreases ws.len(),
{
    if ws.len() == 0 {
        (Map::empty(), 0)
    } else {
        let (m, n) = group(ws.drop_last());
        let w = ws.last();
        if m.contains_key(w.tag) {
            (m.insert(w.tag, WorkspaceModel { windows: m[w.tag].windows.push(w), ..m[w.tag] }), n)
        } else {
            (
                m.insert(
                    w.tag,
                    WorkspaceModel {
                        windows: seq![w],
                        tag: w.tag,
                        order: n as usize,
                        active: w.order == 0,
                    },
                ),
                n + 1,
            )
        }
    }
}

/// The workspace that stands for a focused workspace with no windows.
pub open spec fn empty_active(t: usize) -> WorkspaceModel {
    WorkspaceModel { windows: seq![], tag: t, order: 0, active: true }
}

/// `m` with an empty active workspace under `t` when `t` is absent.
pub open spec fn with_active(m: Map<usize, WorkspaceModel>, t: usize) -> Map<
    usize,
    WorkspaceModel,
> {
    if m.contains_key(t) {
        m
    } else {
        m.insert(t, empty_active(t))
    }
}

/// A workspace that is not the focused one: one step further back, inactive.
pub open spec fn demoted(w: WorkspaceModel) -> WorkspaceModel {
    WorkspaceModel { order: (w.order + 1) as usize, active: false, ..w }
}

/// The workspace under a key after reconciliation with focused tag `t`: the
/// focused workspace is active and keeps its order; any other is demoted.
pub open spec fn reconciled_entry(w: WorkspaceModel, t: usize) -> WorkspaceModel {
    if w.tag != t {
        demoted(w)
    } else {
        WorkspaceModel { active: true, ..w }
    }
}

/// `m` reconciled with the focused workspace `t`: `t` is present, the
/// workspace whose tag is `t` is active, and every workspace whose tag is not
/// `t` is inactive and one step further back.
pub open spec fn reconciled(m: Map<usize, WorkspaceModel>, t: usize) -> Map<usize, WorkspaceModel> {
    with_active(m, t).map_values(|w: WorkspaceModel| reconciled_entry(w, t))
}

/// Groups windows, taken in the given order, into workspaces keyed by tag.
/// Each window is appended to its workspace; a workspace is created by its
/// first window, with the number of workspaces created before it as its
/// order, and is active when that window's order is 0.
pub fn assign_tags_to_win(all_wins: Vec<Window>) -> (r: Workspaces)
    ensures
        snapshot_view(r@) == group(all_wins@.map_values(|w: Window| w@)).0,
{
    broadcast use vstd::std_specs::btree::group_btree_axioms;
    broadcast use vstd::laws_cmp::group_laws_cmp;

    let ghost ws = all_wins@.map_values(|w: Window| w@);
    let n = all_wins.len();
    let mut workspaces: Workspaces = std::collections::BTreeMap::new();
    let mut order: usize = 0;
    for w in it: all_wins
        invariant
            it.seq() == all_wins@,
            n == all_wins@.len(),
            ws == all_wins@.map_values(|w: Window| w@),
            order <= it.index(),
            group(ws.take(it.index() as int)) == (snapshot_view(workspaces@), order as nat),
    {
        let ghost i = it.index() as int;
        let ghost prev = snapshot_view(workspaces@);
        assert(ws.take(i + 1).drop_last() == ws.take(i));
        assert(ws.take(i + 1).last() == w@);
        let tag = w.tag;
        match workspaces.remove(&tag) {
            Some(mut space) => {
                let ghost wv = w@;
                space.windows.push(w);
                assert(space@.windows == prev[tag].windows.push(wv));
                workspaces.insert(tag, space);
                assert(snapshot_view(workspaces@) == prev.insert(
                    tag,
                    WorkspaceModel { windows: prev[tag].windows.push(wv), ..prev[tag] },
                ));
            },
            None => {
                let ghost wv = w@;
                let active = w.order == 0;
                let mut windows: Vec<Window> = Vec::new();
                windows.push(w);
                let space = Workspace { windows, tag, order, active };
                assert(space@.windows == seq![wv]);
                workspaces.insert(tag, space);
                assert(snapshot_view(workspaces@) == prev.insert(tag, space@));
                order = order + 1;
            },
        }
    }
    assert(ws.take(n as int) == ws);
    workspaces
}

/// Reconciles `workspaces` with the focused workspace `tag`: when `tag` has no
/// entry, an empty active workspace with order 0 is added under it; then the
/// workspace whose tag is `tag` is made active, and every other one is made
/// inactive and its order is increased by one.
pub fn check_empty_active_workspace(workspaces: &mut Workspaces, tag: usize)
    requires
        forall|k: usize| #[trigger]
            old(workspaces)@.contains_key(k) && old(workspaces)@[k].tag != tag ==> old(
                workspaces,
            )@[k].order < usize::MAX,
    ensures
        snapshot_view(final(workspaces)@) == reconciled(snapshot_view(old(workspaces)@), tag),
{
    broadcast use vstd::std_specs::btree::group_btree_axioms;
    broadcast use vstd::laws_cmp::group_laws_cmp;

    if !workspaces.contains_key(&tag) {
        let space = Workspace { windows: Vec::new(), tag, order: 0, active: true };
        assert(space@.windows == Seq::<WindowModel>::empty());
        assert(space@ == empty_active(tag));
        workspaces.insert(tag, space);
        assert(snapshot_view(workspaces@) == snapshot_view(old(workspaces)@).insert(
            tag,
            empty_active(tag),
        ));
    }
    let ghost start = snapshot_view(workspaces@);
    assert(start == with_active(snapshot_view(old(workspaces)@), tag));
    let ghost target = reconciled(snapshot_view(old(workspaces)@), tag);

    let ghost ks = IteratorSpec::remaining(&spec_keys_iter(&*workspaces)).unref();
    let mut keys: Vec<usize> = Vec::new();
    for k in it: workspaces.keys()
        invariant
            it.seq() == IteratorSpec::remaining(&spec_keys_iter(&*workspaces)),
            keys@ == it.seq().take(it.index() as int).unref(),
    {
        keys.push(*k);
        assert(it.seq().take(it.index() + 1).unref() == it.seq().take(it.index() as int).unref().push(*k));
    }
    assert(keys@ == ks);
    assert(keys@.to_set() == start.dom());
    assert(keys@.no_duplicates());
    for i in 0..keys.len()
        invariant
            keys@.to_set() == start.dom(),
            keys@.no_duplicates(),
            snapshot_view(workspaces@).dom() == start.dom(),
            forall|k: usize| #[trigger]
                start.contains_key(k) ==> snapshot_view(workspaces@)[k] == if keys@.take(
                    i as int,
                ).contains(k) {
                    reconciled_entry(start[k], tag)
                } else {
                    start[k]
                },
            forall|k: usize| #[trigger]
                start.contains_key(k) && start[k].tag != tag ==> start[k].order < usize::MAX,
    {
        let k = keys[i];
        let ghost before = snapshot_view(workspaces@);
        assert(keys@.to_set().contains(k));
        assert(!keys@.take(i as int).contains(k));
        assert(keys@.take(i + 1) == keys@.take(i as int).push(k));
        match workspaces.remove(&k) {
            Some(mut space) => {
                assert(space@ == start[k]);
                if space.tag != tag {
                    space.order = space.order + 1;
                    space.active = false;
                } else {
                    space.active = true;
                }
                assert(space@ == reconciled_entry(start[k], tag));
                workspaces.insert(k, space);
                assert(snapshot_view(workspaces@) == before.insert(k, reconciled_entry(start[k], tag)));
                assert forall|k2: usize| k2 != k implies #[trigger] keys@.take(i + 1).contains(k2)
                    == keys@.take(i as int).contains(k2) by {
                    if keys@.take(i + 1).contains(k2) {
                        let j = choose|j: int| 0 <= j < i + 1 && #[trigger] keys@.take(i + 1)[j] == k2;
                        assert(keys@.take(i as int)[j] == k2);
                    }
                    if keys@.take(i as int).contains(k2) {
                        let j = choose|j: int| 0 <= j < i && #[trigger] keys@.take(i as int)[j] == k2;
                        assert(keys@.take(i + 1)[j] == k2);
                    }
                }
                assert(keys@.take(i + 1)[i as int] == k);
            },
            None => {},
        }
    }
    assert(keys@.take(keys@.len() as int) == keys@);
    assert(snapshot_view(workspaces@) == target);
}

/// The snapshot that windows `ws`, sorted by order, and the focused tag `t` give.
pub open spec fn snapshot(ws: Seq<WindowModel>, t: usize) -> Map<usize, WorkspaceModel> {
    reconciled(group(ws).0, t)
}

/// The snapshot that a `clients` response and an `activeworkspace` response give.
pub open spec fn workspaces_of(clients: Seq<char>, active: Seq<char>) -> Result<
    Map<usize, WorkspaceModel>,
    ProtocolError,
> {
    match parse_clients(clients) {
        Err(e) => Err(e),
        Ok(ws) => match active_tag(active) {
            Err(e) => Err(e),
            Ok(t) => Ok(snapshot(ws, t)),
        },
    }
}

/// What holds of every workspace that grouping makes.
pub proof fn lemma_group_facts(ws: Seq<WindowModel>)
    ensures
        group(ws).1 <= ws.len(),
        forall|k: usize| #[trigger]
            group(ws).0.contains_key(k) ==> {
                let w = group(ws).0[k];
                &&& w.tag == k
                &&& w.order < group(ws).1
                &&& w.windows.len() > 0
                &&& w.active == (w.windows[0].order == 0)
                &&& forall|j: int| 0 <= j < w.windows.len() ==> #[trigger] w.windows[j].tag == k
                &&& forall|j: int| 0 <= j < w.windows.len() ==> ws.contains(#[trigger] w.windows[j])
                &&& exists|i: int|
                    0 <= i < ws.len() && ws[i] == w.windows[0] && (forall|i2: int|
                        0 <= i2 < i ==> #[trigger] ws[i2].tag != k)
            },
        forall|i: int| 0 <= i < ws.len() ==> #[trigger] group(ws).0.contains_key(ws[i].tag),
        ws.len() > 0 ==> group(ws).0[ws[0].tag].order == 0,
    decreases ws.len(),
{
    if ws.len() > 0 {
        let prev = ws.drop_last();
        lemma_group_facts(prev);
        let (m, n) = group(prev);
        let w = ws.last();
        let r = group(ws).0;
        assert forall|k: usize| #[trigger] r.contains_key(k) implies {
            let x = r[k];
            &&& x.tag == k
            &&& x.order < group(ws).1
            &&& x.windows.len() > 0
            &&& x.active == (x.windows[0].order == 0)
            &&& forall|j: int| 0 <= j < x.windows.len() ==> #[trigger] x.windows[j].tag == k
            &&& forall|j: int| 0 <= j < x.windows.len() ==> ws.contains(#[trigger] x.windows[j])
            &&& exists|i: int|
                0 <= i < ws.len() && ws[i] == x.windows[0] && (forall|i2: int|
                    0 <= i2 < i ==> #[trigger] ws[i2].tag != k)
        } by {
            if k == w.tag && !m.contains_key(k) {
                assert(ws[ws.len() - 1] == r[k].windows[0]);
                assert forall|i2: int| 0 <= i2 < ws.len() - 1 implies #[trigger] ws[i2].tag != k by {
                    assert(prev[i2] == ws[i2]);
                }
            } else {
                let x = m[k];
                let i = choose|i: int|
                    0 <= i < prev.len() && prev[i] == x.windows[0] && (forall|i2: int|
                        0 <= i2 < i ==> #[trigger] prev[i2].tag != k);
                assert(ws[i] == prev[i]);
                assert forall|i2: int| 0 <= i2 < i implies #[trigger] ws[i2].tag != k by {
                    assert(prev[i2] == ws[i2]);
                }
                if k == w.tag {
                    assert(r[k].windows[0] == x.windows[0]);
                }
                assert forall|j: int| 0 <= j < r[k].windows.len() implies ws.contains(
                    #[trigger] r[k].windows[j],
                ) by {
                    if k == w.tag && j == x.windows.len() {
                        assert(ws[ws.len() - 1] == r[k].windows[j]);
                    } else {
                        assert(r[k].windows[j] == x.windows[j]);
                        let i2 = choose|i2: int| 0 <= i2 < prev.len() && prev[i2] == x.windows[j];
                        assert(ws[i2] == prev[i2]);
                    }
                }
            }
        }
        assert forall|i: int| 0 <= i < ws.len() implies #[trigger] r.contains_key(ws[i].tag) by {
            if i < ws.len() - 1 {
                assert(prev[i] == ws[i]);
            }
        }
        if prev.len() > 0 {
            assert(prev[0] == ws[0]);
        }
    }
}

/// Builds the snapshot from a `clients` response and an `activeworkspace`
/// response: parses the windows, groups them by workspace, and reconciles
/// the result with the focused workspace.
pub fn get_workspaces(clients: &str, active: &str) -> (r: Result<Workspaces, ProtocolError>)
    ensures
        match r {
            Ok(m) => workspaces_of(clients@, active@) == Ok::<
                Map<usize, WorkspaceModel>,
                ProtocolError,
            >(snapshot_view(m@)),
            Err(e) => workspaces_of(clients@, active@) == Err::<
                Map<usize, WorkspaceModel>,
                ProtocolError,
            >(e),
        },
{
    let all_windows = get_windows(clients)?;
    let tag = parse_active_workspace(active)?;
    let ghost ws = all_windows@.map_values(|w: Window| w@);
    let n = all_windows.len();
    proof {
        lemma_group_facts(ws);
    }
    let mut workspaces = assign_tags_to_win(all_windows);
    assert forall|k: usize| #[trigger] workspaces@.contains_key(k) implies workspaces@[k].order
        < usize::MAX by {
        assert(snapshot_view(workspaces@).contains_key(k));
        assert(snapshot_view(workspaces@)[k].order < n);
    }
    check_empty_active_workspace(&mut workspaces, tag);
    Ok(workspaces)
}

/// Every workspace of `m` stands under its own tag.
pub open spec fn keyed_by_tag(m: Map<usize, WorkspaceModel>) -> bool {
    forall|k: usize| #[trigger] m.contains_key(k) ==> m[k].tag == k
}

/// Reconciling a map whose workspaces stand under their own tags with the
/// focused tag `t`: `t` is present and is the one active workspace. When `t`
/// was present it keeps its windows and order; when it was absent it is empty
/// with order 0. Every other workspace keeps its windows and tag, becomes
/// inactive, and moves one step back (an order that fits one more step).
pub proof fn lemma_reconcile_keyed(m: Map<usize, WorkspaceModel>, t: usize)
    requires
        keyed_by_tag(m),
    ensures
        ({
            let r = reconciled(m, t);
            &&& r.dom() == m.dom().insert(t)
            &&& keyed_by_tag(r)
            &&& r[t].active
            &&& m.contains_key(t) ==> r[t].windows == m[t].windows && r[t].order == m[t].order
            &&& !m.contains_key(t) ==> r[t] == empty_active(t)
            &&& forall|k: usize| #[trigger]
                r.contains_key(k) && k != t ==> {
                    &&& m.contains_key(k)
                    &&& !r[k].active
                    &&& m[k].order < usize::MAX ==> r[k].order == m[k].order + 1
                    &&& r[k].windows == m[k].windows
                }
            &&& forall|k: usize| #[trigger] r.contains_key(k) && r[k].active ==> k == t
        }),
{
    let r = reconciled(m, t);
    let w = with_active(m, t);
    assert(r.dom() == m.dom().insert(t));
    assert(w.contains_key(t) && w[t].tag == t);
    assert forall|k: usize| #[trigger] r.contains_key(k) implies r[k].tag == k by {
        assert(w.contains_key(k));
    }
    assert forall|k: usize| #[trigger] r.contains_key(k) && k != t implies {
        &&& m.contains_key(k)
        &&& !r[k].active
        &&& m[k].order < usize::MAX ==> r[k].order == m[k].order + 1
        &&& r[k].windows == m[k].windows
    } by {
        assert(w[k] == m[k]);
    }
}

/// In a snapshot built from a `clients` response and a focused tag `t`,
/// exactly one workspace is active: the one under `t`.
pub proof fn lemma_single_active(clients: Seq<char>, t: usize)
    requires
        parse_clients(clients) is Ok,
    ensures
        ({
            let m = snapshot(parse_clients(clients)->Ok_0, t);
            &&& m.contains_key(t)
            &&& m[t].active
            &&& forall|k: usize| #[trigger] m.contains_key(k) && m[k].active ==> k == t
        }),
{
    let ws = parse_clients(clients)->Ok_0;
    lemma_group_facts(ws);
    lemma_reconcile_keyed(group(ws).0, t);
}

/// In a snapshot built from a `clients` response and a focused tag `t`, a
/// workspace that holds a focused window (order 0) is the most recent one
/// (order 0), whenever every focused window lies on the workspace `t`.
pub proof fn lemma_focused_window_first(clients: Seq<char>, t: usize)
    requires
        parse_clients(clients) matches Ok(ws) && forall|i: int|
            0 <= i < ws.len() && ws[i].order == 0 ==> ws[i].tag == t,
    ensures
        ({
            let m = snapshot(parse_clients(clients)->Ok_0, t);
            forall|k: usize, j: int|
                m.contains_key(k) && 0 <= j < m[k].windows.len() && #[trigger] m[k].windows[j].order
                    == 0 ==> m[k].order == 0
        }),
{
    let ws = parse_clients(clients)->Ok_0;
    lemma_parsed_sorted(clients);
    lemma_group_facts(ws);
    let g = group(ws).0;
    let m = snapshot(ws, t);
    assert forall|k: usize, j: int|
        m.contains_key(k) && 0 <= j < m[k].windows.len() && #[trigger] m[k].windows[j].order
            == 0 implies m[k].order == 0 by {
        if !g.contains_key(k) {
            assert(m[k].windows.len() == 0);
        } else {
            let w = g[k].windows[j];
            assert(m[k].windows[j] == w);
            let i = choose|i: int| 0 <= i < ws.len() && ws[i] == w;
            assert(k == t);
            if i > 0 {
                assert(ws[0].order <= ws[i].order);
            }
            assert(ws[0].tag == t);
        }
    }
}

/// Reconciling twice with the same focused tag keeps which workspaces are
/// active, and moves every other workspace one more step back.
pub proof fn lemma_reconcile_twice(m: Map<usize, WorkspaceModel>, t: usize)
    requires
        forall|k: usize| #[trigger] m.contains_key(k) && m[k].tag != t ==> m[k].order < usize::MAX
            - 1,
    ensures
        ({
            let once = reconciled(m, t);
            let twice = reconciled(once, t);
            &&& twice.dom() == once.dom()
            &&& forall|k: usize| #[trigger]
                once.contains_key(k) ==> {
                    &&& twice[k].active == once[k].active
                    &&& once[k].tag != t ==> twice[k].order == once[k].order + 1
                    &&& once[k].tag == t ==> twice[k] == once[k]
                }
        }),
{
    let once = reconciled(m, t);
    let twice = reconciled(once, t);
    assert(once.contains_key(t));
    assert(with_active(once, t) == once);
    assert(twice.dom() == once.dom());
}

} // verus!
