use vstd::prelude::*;

use crate::assoc::{
    assoc_map, keys_unique, lemma_assoc_absent, lemma_assoc_lookup, lemma_assoc_push, lemma_assoc_remove,
    lemma_assoc_update,
};
use crate::ids::{Pid, SpaceId, WindowId, WorkspaceId};

verus! {

/// Settings of the virtual workspaces.
pub struct VirtualWorkspaceSettings {
    /// How many virtual workspaces each space gets when it is first seen.
    pub default_workspace_count: u32,
}

impl Default for VirtualWorkspaceSettings {
    fn default() -> (s: Self)
        ensures
            s.default_workspace_count == 4,
    {
        VirtualWorkspaceSettings { default_workspace_count: 4 }
    }
}

/// What the layout engine knows, as mathematical values.
pub ghost struct LayoutModel {
    /// Workspaces per space.
    pub workspace_count: nat,
    /// The spaces that are known, with the index of their active workspace.
    pub active: Map<SpaceId, u32>,
    /// The workspace each known window is assigned to.
    pub assigned: Map<WindowId, WorkspaceId>,
    /// The tiled windows of every workspace's layout tree, in tree order.
    pub tiled: Seq<(WorkspaceId, WindowId)>,
}

/// Where the windows reported on `space` are assigned afterwards: a window
/// already assigned to a workspace of `space` stays there, every other
/// reported window joins `ws`.
pub open spec fn claimed(
    assigned: Map<WindowId, WorkspaceId>,
    space: SpaceId,
    ws: WorkspaceId,
    wins: Seq<WindowId>,
) -> Map<WindowId, WorkspaceId> {
    Map::new(
        |w: WindowId| assigned.contains_key(w) || wins.contains(w),
        |w: WindowId|
            if wins.contains(w) && !(assigned.contains_key(w) && assigned[w].space == space) {
                ws
            } else {
                assigned[w]
            },
    )
}

/// Whether a tree entry survives an update of `pid`'s windows on workspace `ws`,
/// given the assignments after the update. No entry survives whose window is
/// now assigned to another space (a reported window that joined `ws` leaves
/// the trees of the space it came from). Beyond that, entries of other
/// workspaces or other applications survive. An entry of `pid` on `ws`
/// survives a non-empty report when its window is among the reported windows
/// and still assigned to `ws`; it survives an empty report (the accessibility
/// API answering nothing, as at the login screen).
pub open spec fn stays(
    assigned: Map<WindowId, WorkspaceId>,
    ws: WorkspaceId,
    pid: Pid,
    wins: Seq<WindowId>,
    e: (WorkspaceId, WindowId),
) -> bool {
    &&& assigned.contains_key(e.1)
    &&& assigned[e.1].space == e.0.space
    &&& e.0 == ws && e.1.pid == pid && wins.len() > 0 ==> assigned[e.1] == ws && wins.contains(e.1)
}

/// The tree entries that survive an update, in their order.
pub open spec fn retained(
    tiled: Seq<(WorkspaceId, WindowId)>,
    assigned: Map<WindowId, WorkspaceId>,
    ws: WorkspaceId,
    pid: Pid,
    wins: Seq<WindowId>,
) -> Seq<(WorkspaceId, WindowId)>
    decreases tiled.len(),
{
    if tiled.len() == 0 {
        tiled
    } else {
        let rest = retained(tiled.drop_last(), assigned, ws, pid, wins);
        if stays(assigned, ws, pid, wins, tiled.last()) {
            rest.push(tiled.last())
        } else {
            rest
        }
    }
}

/// The reported windows assigned to `ws` that the tree does not hold yet,
/// appended in the order of the report.
pub open spec fn appended(
    tiled: Seq<(WorkspaceId, WindowId)>,
    assigned: Map<WindowId, WorkspaceId>,
    ws: WorkspaceId,
    wins: Seq<WindowId>,
) -> Seq<(WorkspaceId, WindowId)>
    decreases wins.len(),
{
    if wins.len() == 0 {
        tiled
    } else {
        let prev = appended(tiled, assigned, ws, wins.drop_last());
        let w = wins.last();
        if assigned.contains_key(w) && assigned[w] == ws && !prev.contains((ws, w)) {
            prev.push((ws, w))
        } else {
            prev
        }
    }
}

/// The windows of workspace `ws`'s tree, in tree order.
pub open spec fn windows_of(tiled: Seq<(WorkspaceId, WindowId)>, ws: WorkspaceId) -> Seq<WindowId>
    decreases tiled.len(),
{
    if tiled.len() == 0 {
        Seq::empty()
    } else {
        let rest = windows_of(tiled.drop_last(), ws);
        if tiled.last().0 == ws {
            rest.push(tiled.last().1)
        } else {
            rest
        }
    }
}

/// Whether entry `e` is kept when window `w` leaves every tree but those of
/// the workspaces of `keep`.
pub open spec fn kept_entry(e: (WorkspaceId, WindowId), w: WindowId, keep: Option<SpaceId>) -> bool {
    e.1 != w || keep == Some(e.0.space)
}

/// The entries kept when window `w` leaves every tree but those of the
/// workspaces of `keep`, in their order.
pub open spec fn without_window(tiled: Seq<(WorkspaceId, WindowId)>, w: WindowId, keep: Option<SpaceId>) -> Seq<
    (WorkspaceId, WindowId),
>
    decreases tiled.len(),
{
    if tiled.len() == 0 {
        tiled
    } else {
        let rest = without_window(tiled.drop_last(), w, keep);
        if kept_entry(tiled.last(), w, keep) {
            rest.push(tiled.last())
        } else {
            rest
        }
    }
}

impl LayoutModel {
    /// The tree holds no entry twice, and every window in it is assigned to
    /// a workspace of the space whose tree holds it.
    pub open spec fn wf(self) -> bool {
        &&& self.tiled.no_duplicates()
        &&& forall|e: (WorkspaceId, WindowId)|
            #[trigger] self.tiled.contains(e) ==> self.assigned.contains_key(e.1) && self.assigned[e.1].space
                == e.0.space
    }

    /// The active workspace of `space`, if the space is known and has one.
    pub open spec fn active_workspace(self, space: SpaceId) -> Option<WorkspaceId> {
        if self.active.contains_key(space) && self.active[space] < self.workspace_count {
            Some(WorkspaceId { space, index: self.active[space] })
        } else {
            None
        }
    }

    /// Whether `w` is in the layout tree of workspace `ws`.
    pub open spec fn in_tree(self, ws: WorkspaceId, w: WindowId) -> bool {
        self.tiled.contains((ws, w))
    }

    /// The windows laid out on `space`: those of its active workspace's tree.
    pub open spec fn layout_of(self, space: SpaceId) -> Seq<WindowId> {
        match self.active_workspace(space) {
            Some(ws) => windows_of(self.tiled, ws),
            None => Seq::empty(),
        }
    }

    /// A space seen for the first time gets its workspaces, the first of them
    /// active; a known space is left as it is.
    pub open spec fn after_register_space(self, space: SpaceId) -> LayoutModel {
        if self.active.contains_key(space) {
            self
        } else {
            LayoutModel { active: self.active.insert(space, 0), ..self }
        }
    }

    /// Whether `ws` is a workspace of the known space `space`.
    pub open spec fn is_workspace_of(self, space: SpaceId, ws: WorkspaceId) -> bool {
        ws.space == space && self.active.contains_key(space) && ws.index < self.workspace_count
    }

    /// Assigning `w` to a workspace `ws` of `space`: `w` leaves the trees of
    /// every other space. Anything else changes nothing.
    pub open spec fn after_assign(self, space: SpaceId, w: WindowId, ws: WorkspaceId) -> LayoutModel {
        if self.is_workspace_of(space, ws) {
            LayoutModel {
                assigned: self.assigned.insert(w, ws),
                tiled: without_window(self.tiled, w, Some(space)),
                ..self
            }
        } else {
            self
        }
    }

    /// Window `w` is seen on `space`: unless it is assigned to a workspace of
    /// `space` already, it joins the space's active workspace and leaves the
    /// trees of every other space.
    pub open spec fn after_claim(self, space: SpaceId, w: WindowId) -> LayoutModel {
        match self.active_workspace(space) {
            Some(ws) => if self.assigned.contains_key(w) && self.assigned[w].space == space {
                self
            } else {
                LayoutModel {
                    assigned: self.assigned.insert(w, ws),
                    tiled: without_window(self.tiled, w, Some(space)),
                    ..self
                }
            },
            None => self,
        }
    }

    /// The windows of `pid` that are on screen on `space` are `wins`.
    pub open spec fn after_windows_on_screen(self, space: SpaceId, pid: Pid, wins: Seq<WindowId>) -> LayoutModel {
        match self.active_workspace(space) {
            None => self,
            Some(ws) => {
                let assigned = claimed(self.assigned, space, ws, wins);
                LayoutModel {
                    assigned,
                    tiled: appended(retained(self.tiled, assigned, ws, pid, wins), assigned, ws, wins),
                    ..self
                }
            },
        }
    }

    /// Workspace `index` of the known space `space` becomes its active one;
    /// an unknown space or an index out of range changes nothing.
    pub open spec fn after_switch(self, space: SpaceId, index: u32) -> LayoutModel {
        if self.active.contains_key(space) && index < self.workspace_count {
            LayoutModel { active: self.active.insert(space, index), ..self }
        } else {
            self
        }
    }

    /// Window `w` moves to workspace `index` of the known space `space`: it is
    /// assigned there and leaves every tree for the end of that workspace's.
    pub open spec fn after_move(self, space: SpaceId, w: WindowId, index: u32) -> LayoutModel {
        let ws = WorkspaceId { space, index };
        if self.is_workspace_of(space, ws) {
            LayoutModel {
                assigned: self.assigned.insert(w, ws),
                tiled: without_window(self.tiled, w, None).push((ws, w)),
                ..self
            }
        } else {
            self
        }
    }

    /// Window `w` was minimized: it leaves every tree and keeps its
    /// assignment, so that it returns to its workspace when restored.
    pub open spec fn after_minimize(self, w: WindowId) -> LayoutModel {
        LayoutModel { tiled: without_window(self.tiled, w, None), ..self }
    }

    /// Window `w` is gone: it leaves every tree and loses its assignment.
    pub open spec fn after_remove_window(self, w: WindowId) -> LayoutModel {
        LayoutModel {
            assigned: self.assigned.remove(w),
            tiled: without_window(self.tiled, w, None),
            ..self
        }
    }
}

/// An event for the layout engine.
pub enum LayoutEvent {
    /// The windows of an application that are on screen on a space.
    WindowsOnScreenUpdated(SpaceId, Pid, Vec<WindowId>),
    /// A window was destroyed.
    WindowRemoved(WindowId),
}

/// Which workspace every window belongs to and which windows each
/// workspace's layout tree holds.
pub struct LayoutEngine {
    workspace_count: u32,
    spaces: Vec<(SpaceId, u32)>,
    assignments: Vec<(WindowId, WorkspaceId)>,
    tiled: Vec<(WorkspaceId, WindowId)>,
}

impl View for LayoutEngine {
    type V = LayoutModel;

    closed spec fn view(&self) -> LayoutModel {
        LayoutModel {
            workspace_count: self.workspace_count as nat,
            active: assoc_map(self.spaces@),
            assigned: assoc_map(self.assignments@),
            tiled: self.tiled@,
        }
    }
}

fn find_space(spaces: &Vec<(SpaceId, u32)>, space: SpaceId) -> (r: Option<usize>)
    ensures
        match r {
            Some(i) => i < spaces@.len() && spaces@[i as int].0 == space,
            None => forall|i: int| 0 <= i < spaces@.len() ==> spaces@[i].0 != space,
        },
{
    let mut i: usize = 0;
    while i < spaces.len()
        invariant
            i <= spaces@.len(),
            forall|j: int| 0 <= j < i ==> spaces@[j].0 != space,
        decreases spaces@.len() - i,
    {
        if spaces[i].0 == space {
            return Some(i);
        }
        i = i + 1;
    }
    None
}

fn find_assignment(assignments: &Vec<(WindowId, WorkspaceId)>, w: WindowId) -> (r: Option<usize>)
    ensures
        match r {
            Some(i) => i < assignments@.len() && assignments@[i as int].0 == w,
            None => forall|i: int| 0 <= i < assignments@.len() ==> assignments@[i].0 != w,
        },
{
    let mut i: usize = 0;
    while i < assignments.len()
        invariant
            i <= assignments@.len(),
            forall|j: int| 0 <= j < i ==> assignments@[j].0 != w,
        decreases assignments@.len() - i,
    {
        if assignments[i].0 == w {
            return Some(i);
        }
        i = i + 1;
    }
    None
}

fn tiled_contains(tiled: &Vec<(WorkspaceId, WindowId)>, ws: WorkspaceId, w: WindowId) -> (r: bool)
    ensures
        r == tiled@.contains((ws, w)),
{
    let mut i: usize = 0;
    while i < tiled.len()
        invariant
            i <= tiled@.len(),
            forall|j: int| 0 <= j < i ==> tiled@[j] != (ws, w),
        decreases tiled@.len() - i,
    {
        if tiled[i].0 == ws && tiled[i].1 == w {
            assert(tiled@[i as int] == (ws, w));
            return true;
        }
        i = i + 1;
    }
    false
}

fn window_listed(wins: &Vec<WindowId>, w: WindowId) -> (r: bool)
    ensures
        r == wins@.contains(w),
{
    let mut i: usize = 0;
    while i < wins.len()
        invariant
            i <= wins@.len(),
            forall|j: int| 0 <= j < i ==> wins@[j] != w,
        decreases wins@.len() - i,
    {
        if wins[i] == w {
            assert(wins@[i as int] == w);
            return true;
        }
        i = i + 1;
    }
    false
}

proof fn lemma_retained_contains(
    tiled: Seq<(WorkspaceId, WindowId)>,
    assigned: Map<WindowId, WorkspaceId>,
    ws: WorkspaceId,
    pid: Pid,
    wins: Seq<WindowId>,
)
    ensures
        forall|e: (WorkspaceId, WindowId)|
            #[trigger] retained(tiled, assigned, ws, pid, wins).contains(e) <==> tiled.contains(e) && stays(
                assigned,
                ws,
                pid,
                wins,
                e,
            ),
        tiled.no_duplicates() ==> retained(tiled, assigned, ws, pid, wins).no_duplicates(),
    decreases tiled.len(),
{
    if tiled.len() > 0 {
        let t = tiled.drop_last();
        lemma_retained_contains(t, assigned, ws, pid, wins);
        let r = retained(t, assigned, ws, pid, wins);
        assert forall|e: (WorkspaceId, WindowId)|
            #[trigger] retained(tiled, assigned, ws, pid, wins).contains(e) <==> tiled.contains(e) && stays(
                assigned,
                ws,
                pid,
                wins,
                e,
            ) by {
            if tiled.contains(e) {
                let k = choose|k: int| 0 <= k < tiled.len() && tiled[k] == e;
                if k < tiled.len() - 1 {
                    assert(t[k] == e);
                }
            }
            if t.contains(e) {
                let k = choose|k: int| 0 <= k < t.len() && t[k] == e;
                assert(tiled[k] == e);
            }
            if stays(assigned, ws, pid, wins, tiled.last()) {
                assert(r.push(tiled.last()).last() == tiled.last());
                if r.push(tiled.last()).contains(e) {
                    let k = choose|k: int| 0 <= k < r.len() + 1 && r.push(tiled.last())[k] == e;
                    if k < r.len() {
                        assert(r[k] == e);
                    }
                }
                if r.contains(e) {
                    let k = choose|k: int| 0 <= k < r.len() && r[k] == e;
                    assert(r.push(tiled.last())[k] == e);
                }
            }
        }
        if tiled.no_duplicates() {
            assert(t.no_duplicates()) by {
                assert forall|i: int, j: int| 0 <= i < t.len() && 0 <= j < t.len() && i != j implies t[i]
                    != t[j] by {
                    assert(t[i] == tiled[i]);
                    assert(t[j] == tiled[j]);
                }
            }
            if stays(assigned, ws, pid, wins, tiled.last()) {
                assert(!t.contains(tiled.last())) by {
                    if t.contains(tiled.last()) {
                        let k = choose|k: int| 0 <= k < t.len() && t[k] == tiled.last();
                        assert(tiled[k] == tiled[tiled.len() - 1]);
                    }
                }
                assert(!r.contains(tiled.last()));
                let r2 = r.push(tiled.last());
                assert forall|i: int, j: int| 0 <= i < r2.len() && 0 <= j < r2.len() && i != j implies r2[i]
                    != r2[j] by {
                    if i < r.len() && j < r.len() {
                        assert(r2[i] == r[i]);
                        assert(r2[j] == r[j]);
                    } else if i < r.len() {
                        assert(r2[i] == r[i]);
                        assert(r.contains(r[i]));
                    } else {
                        assert(r2[j] == r[j]);
                        assert(r.contains(r[j]));
                    }
                }
            }
        }
    }
}

proof fn lemma_appended_contains(
    tiled: Seq<(WorkspaceId, WindowId)>,
    assigned: Map<WindowId, WorkspaceId>,
    ws: WorkspaceId,
    wins: Seq<WindowId>,
)
    ensures
        forall|e: (WorkspaceId, WindowId)|
            #[trigger] appended(tiled, assigned, ws, wins).contains(e) <==> tiled.contains(e) || (e.0 == ws
                && wins.contains(e.1) && assigned.contains_key(e.1) && assigned[e.1] == ws),
        tiled.no_duplicates() ==> appended(tiled, assigned, ws, wins).no_duplicates(),
    decreases wins.len(),
{
    if wins.len() > 0 {
        let v = wins.drop_last();
        let w = wins.last();
        lemma_appended_contains(tiled, assigned, ws, v);
        let p = appended(tiled, assigned, ws, v);
        assert forall|e: (WorkspaceId, WindowId)|
            #[trigger] appended(tiled, assigned, ws, wins).contains(e) <==> tiled.contains(e) || (e.0 == ws
                && wins.contains(e.1) && assigned.contains_key(e.1) && assigned[e.1] == ws) by {
            if wins.contains(e.1) {
                let k = choose|k: int| 0 <= k < wins.len() && wins[k] == e.1;
                if k < wins.len() - 1 {
                    assert(v[k] == e.1);
                }
            }
            if v.contains(e.1) {
                let k = choose|k: int| 0 <= k < v.len() && v[k] == e.1;
                assert(wins[k] == e.1);
            }
            if assigned.contains_key(w) && assigned[w] == ws && !p.contains((ws, w)) {
                let p2 = p.push((ws, w));
                assert(p2[p.len() as int] == (ws, w));
                if p2.contains(e) {
                    let k = choose|k: int| 0 <= k < p2.len() && p2[k] == e;
                    if k < p.len() {
                        assert(p[k] == e);
                    }
                }
                if p.contains(e) {
                    let k = choose|k: int| 0 <= k < p.len() && p[k] == e;
                    assert(p2[k] == e);
                }
            }
        }
        if tiled.no_duplicates() && assigned.contains_key(w) && assigned[w] == ws && !p.contains((ws, w)) {
            let p2 = p.push((ws, w));
            assert forall|i: int, j: int| 0 <= i < p2.len() && 0 <= j < p2.len() && i != j implies p2[i]
                != p2[j] by {
                if i < p.len() && j < p.len() {
                    assert(p2[i] == p[i]);
                    assert(p2[j] == p[j]);
                } else if i < p.len() {
                    assert(p2[i] == p[i]);
                    assert(p.contains(p[i]));
                } else {
                    assert(p2[j] == p[j]);
                    assert(p.contains(p[j]));
                }
            }
        }
    }
}

pub proof fn lemma_without_window_contains(tiled: Seq<(WorkspaceId, WindowId)>, w: WindowId, keep: Option<SpaceId>)
    ensures
        forall|e: (WorkspaceId, WindowId)|
            #[trigger] without_window(tiled, w, keep).contains(e) <==> tiled.contains(e) && kept_entry(e, w, keep),
        tiled.no_duplicates() ==> without_window(tiled, w, keep).no_duplicates(),
    decreases tiled.len(),
{
    if tiled.len() > 0 {
        let t = tiled.drop_last();
        lemma_without_window_contains(t, w, keep);
        let r = without_window(t, w, keep);
        assert forall|e: (WorkspaceId, WindowId)|
            #[trigger] without_window(tiled, w, keep).contains(e) <==> tiled.contains(e) && kept_entry(e, w, keep) by {
            if tiled.contains(e) {
                let k = choose|k: int| 0 <= k < tiled.len() && tiled[k] == e;
                if k < tiled.len() - 1 {
                    assert(t[k] == e);
                }
            }
            if t.contains(e) {
                let k = choose|k: int| 0 <= k < t.len() && t[k] == e;
                assert(tiled[k] == e);
            }
            if kept_entry(tiled.last(), w, keep) {
                let r2 = r.push(tiled.last());
                assert(r2[r.len() as int] == tiled.last());
                if r2.contains(e) {
                    let k = choose|k: int| 0 <= k < r2.len() && r2[k] == e;
                    if k < r.len() {
                        assert(r[k] == e);
                    }
                }
                if r.contains(e) {
                    let k = choose|k: int| 0 <= k < r.len() && r[k] == e;
                    assert(r2[k] == e);
                }
            }
        }
        if tiled.no_duplicates() {
            assert(t.no_duplicates()) by {
                assert forall|i: int, j: int| 0 <= i < t.len() && 0 <= j < t.len() && i != j implies t[i]
                    != t[j] by {
                    assert(t[i] == tiled[i]);
                    assert(t[j] == tiled[j]);
                }
            }
            if kept_entry(tiled.last(), w, keep) {
                assert(!t.contains(tiled.last())) by {
                    if t.contains(tiled.last()) {
                        let k = choose|k: int| 0 <= k < t.len() && t[k] == tiled.last();
                        assert(tiled[k] == tiled[tiled.len() - 1]);
                    }
                }
                let r2 = r.push(tiled.last());
                assert forall|i: int, j: int| 0 <= i < r2.len() && 0 <= j < r2.len() && i != j implies r2[i]
                    != r2[j] by {
                    if i < r.len() && j < r.len() {
                        assert(r2[i] == r[i]);
                        assert(r2[j] == r[j]);
                    } else if i < r.len() {
                        assert(r2[i] == r[i]);
                        assert(r.contains(r[i]));
                    } else {
                        assert(r2[j] == r[j]);
                        assert(r.contains(r[j]));
                    }
                }
            }
        }
    }
}


/// A window is in the list of `ws`'s windows exactly when the tree holds it on `ws`.
pub proof fn lemma_windows_of_contains(tiled: Seq<(WorkspaceId, WindowId)>, ws: WorkspaceId, w: WindowId)
    ensures
        windows_of(tiled, ws).contains(w) <==> tiled.contains((ws, w)),
    decreases tiled.len(),
{
    if tiled.len() > 0 {
        let t = tiled.drop_last();
        lemma_windows_of_contains(t, ws, w);
        let r = windows_of(t, ws);
        if tiled.contains((ws, w)) {
            let k = choose|k: int| 0 <= k < tiled.len() && tiled[k] == (ws, w);
            if k < tiled.len() - 1 {
                assert(t[k] == (ws, w));
                let q = choose|q: int| 0 <= q < r.len() && r[q] == w;
                if tiled.last().0 == ws {
                    assert(r.push(tiled.last().1)[q] == w);
                }
            } else {
                assert(r.push(tiled.last().1)[r.len() as int] == w);
            }
        }
        if windows_of(tiled, ws).contains(w) {
            if tiled.last().0 == ws {
                let r2 = r.push(tiled.last().1);
                let q = choose|q: int| 0 <= q < r2.len() && r2[q] == w;
                if q < r.len() {
                    assert(r[q] == w);
                    let k = choose|k: int| 0 <= k < t.len() && t[k] == (ws, w);
                    assert(tiled[k] == (ws, w));
                } else {
                    assert(tiled[tiled.len() - 1] == (ws, w));
                }
            } else {
                let k = choose|k: int| 0 <= k < t.len() && t[k] == (ws, w);
                assert(tiled[k] == (ws, w));
            }
        }
    }
}

/// What an update of `pid`'s windows on `space` does to tree membership: the
/// active workspace `ws` of `space` keeps the entries that stay and gains the
/// reported windows now assigned to it; every other workspace's tree is
/// unchanged.
pub proof fn lemma_windows_on_screen_membership(m: LayoutModel, space: SpaceId, pid: Pid, wins: Seq<WindowId>)
    requires
        m.active_workspace(space) is Some,
    ensures
        ({
            let ws = m.active_workspace(space)->0;
            let m2 = m.after_windows_on_screen(space, pid, wins);
            forall|e: (WorkspaceId, WindowId)|
                #[trigger] m2.tiled.contains(e) <==> (m.tiled.contains(e) && stays(
                    m2.assigned,
                    ws,
                    pid,
                    wins,
                    e,
                )) || (e.0 == ws && wins.contains(e.1) && m2.assigned.contains_key(e.1)
                    && m2.assigned[e.1] == ws)
        }),
{
    let ws = m.active_workspace(space)->0;
    let assigned = claimed(m.assigned, space, ws, wins);
    lemma_retained_contains(m.tiled, assigned, ws, pid, wins);
    lemma_appended_contains(retained(m.tiled, assigned, ws, pid, wins), assigned, ws, wins);
}

/// Every update keeps the engine's invariant: no tree holds an entry twice,
/// and every window in a tree is assigned to a workspace of that tree's
/// space.
pub proof fn law_updates_keep_trees_well_formed(
    m: LayoutModel,
    space: SpaceId,
    pid: Pid,
    wins: Seq<WindowId>,
    w: WindowId,
    ws: WorkspaceId,
    index: u32,
)
    requires
        m.wf(),
    ensures
        m.after_windows_on_screen(space, pid, wins).wf(),
        m.after_claim(space, w).wf(),
        m.after_assign(space, w, ws).wf(),
        m.after_move(space, w, index).wf(),
        m.after_switch(space, index).wf(),
        m.after_minimize(w).wf(),
        m.after_remove_window(w).wf(),
        m.after_register_space(space).wf(),
{
    if let Some(a) = m.active_workspace(space) {
        let assigned = claimed(m.assigned, space, a, wins);
        lemma_retained_contains(m.tiled, assigned, a, pid, wins);
        lemma_appended_contains(retained(m.tiled, assigned, a, pid, wins), assigned, a, wins);
    }
    lemma_without_window_contains(m.tiled, w, None);
    lemma_without_window_contains(m.tiled, w, Some(space));
    let mv = WorkspaceId { space, index };
    if m.is_workspace_of(space, mv) {
        let r = without_window(m.tiled, w, None);
        let r2 = r.push((mv, w));
        assert(r2[r.len() as int] == (mv, w));
        assert forall|e: (WorkspaceId, WindowId)| #[trigger] r2.contains(e) implies r.contains(e) || e == (mv, w) by {
            let k = choose|k: int| 0 <= k < r2.len() && r2[k] == e;
            if k < r.len() {
                assert(r2[k] == r[k]);
            }
        }
        assert forall|a: int, b: int| 0 <= a < r2.len() && 0 <= b < r2.len() && a != b implies r2[a] != r2[b] by {
            if a < r.len() && b < r.len() {
                assert(r2[a] == r[a]);
                assert(r2[b] == r[b]);
            } else if a < r.len() {
                assert(r2[a] == r[a]);
                assert(r.contains(r[a]));
            } else {
                assert(r2[b] == r[b]);
                assert(r.contains(r[b]));
            }
        }
    }
}

/// No window is ever laid out on two spaces: in every well-formed state, a
/// window in the layout of one space is in the layout of no other.
pub proof fn law_no_window_on_two_spaces(m: LayoutModel, s1: SpaceId, s2: SpaceId, w: WindowId)
    requires
        m.wf(),
        s1 != s2,
    ensures
        !(m.layout_of(s1).contains(w) && m.layout_of(s2).contains(w)),
{
    if let Some(a) = m.active_workspace(s1) {
        lemma_windows_of_contains(m.tiled, a, w);
    }
    if let Some(b) = m.active_workspace(s2) {
        lemma_windows_of_contains(m.tiled, b, w);
    }
}

/// An empty report changes no assignment.
pub proof fn lemma_claimed_empty(assigned: Map<WindowId, WorkspaceId>, space: SpaceId, ws: WorkspaceId)
    ensures
        claimed(assigned, space, ws, Seq::empty()) == assigned,
{
    assert(claimed(assigned, space, ws, Seq::empty()) =~= assigned);
}

/// The destination space's report of a window takes it out of the source
/// layout, and the source space's empty report that follows leaves it out:
/// the window ends up laid out on the destination space only.
pub proof fn law_destination_first_moves_window(
    m: LayoutModel,
    source: SpaceId,
    dest: SpaceId,
    pid: Pid,
    w: WindowId,
)
    requires
        source != dest,
        m.active_workspace(source) is Some,
        m.active_workspace(dest) is Some,
        w.pid == pid,
        // not parked on another workspace of the destination space
        m.assigned.contains_key(w) ==> m.assigned[w].space != dest,
    ensures
        ({
            let m2 = m.after_windows_on_screen(dest, pid, seq![w]).after_windows_on_screen(source, pid, seq![]);
            &&& m2.layout_of(dest).contains(w)
            &&& !m2.layout_of(source).contains(w)
        }),
{
    let ws1 = m.active_workspace(source)->0;
    let ws2 = m.active_workspace(dest)->0;
    let wins = seq![w];
    assert(wins[0] == w);
    assert(wins.contains(w));
    let m1 = m.after_windows_on_screen(dest, pid, wins);
    lemma_windows_on_screen_membership(m, dest, pid, wins);
    assert(m1.assigned[w] == ws2);
    assert(m1.tiled.contains((ws2, w)));
    assert(m1.active_workspace(source) == Some(ws1));
    assert(m1.active_workspace(dest) == Some(ws2));
    let m2 = m1.after_windows_on_screen(source, pid, Seq::empty());
    lemma_claimed_empty(m1.assigned, source, ws1);
    lemma_windows_on_screen_membership(m1, source, pid, Seq::empty());
    assert(m2.assigned == m1.assigned);
    assert(ws1 != ws2);
    assert(m2.tiled.contains((ws2, w)));
    assert(!m2.tiled.contains((ws1, w)));
    assert(m2.active_workspace(source) == Some(ws1));
    assert(m2.active_workspace(dest) == Some(ws2));
    lemma_windows_of_contains(m2.tiled, ws2, w);
    lemma_windows_of_contains(m2.tiled, ws1, w);
}

/// When the window's move to the destination workspace is recorded before any
/// space reports, the source space's empty report takes the window out of the
/// source layout and the destination's report lays it out there.
pub proof fn law_recorded_move_then_reports_moves_window(
    m: LayoutModel,
    source: SpaceId,
    dest: SpaceId,
    pid: Pid,
    w: WindowId,
)
    requires
        source != dest,
        m.active_workspace(source) is Some,
        m.active_workspace(dest) is Some,
        w.pid == pid,
    ensures
        ({
            let ws2 = m.active_workspace(dest)->0;
            let m1 = m.after_assign(dest, w, ws2).after_windows_on_screen(source, pid, seq![]);
            let m2 = m1.after_windows_on_screen(dest, pid, seq![w]);
            &&& !m1.layout_of(source).contains(w)
            &&& !m2.layout_of(source).contains(w)
            &&& m2.layout_of(dest).contains(w)
        }),
{
    let ws1 = m.active_workspace(source)->0;
    let ws2 = m.active_workspace(dest)->0;
    let ma = m.after_assign(dest, w, ws2);
    assert(ma.assigned[w] == ws2);
    assert(ma.active_workspace(source) == Some(ws1));
    assert(ma.active_workspace(dest) == Some(ws2));
    let m1 = ma.after_windows_on_screen(source, pid, Seq::empty());
    lemma_claimed_empty(ma.assigned, source, ws1);
    lemma_windows_on_screen_membership(ma, source, pid, Seq::empty());
    assert(ws1 != ws2);
    assert(!m1.tiled.contains((ws1, w)));
    assert(m1.active_workspace(source) == Some(ws1));
    assert(m1.active_workspace(dest) == Some(ws2));
    let wins = seq![w];
    assert(wins[0] == w);
    assert(wins.contains(w));
    let m2 = m1.after_windows_on_screen(dest, pid, wins);
    lemma_windows_on_screen_membership(m1, dest, pid, wins);
    assert(m2.assigned[w] == ws2);
    assert(m2.tiled.contains((ws2, w)));
    assert(!m2.tiled.contains((ws1, w)));
    assert(m2.active_workspace(source) == Some(ws1));
    assert(m2.active_workspace(dest) == Some(ws2));
    lemma_windows_of_contains(m1.tiled, ws1, w);
    lemma_windows_of_contains(m2.tiled, ws1, w);
    lemma_windows_of_contains(m2.tiled, ws2, w);
}

/// An empty report (say, while the accessibility API answers nothing at the
/// login screen) keeps every window that was not moved to another space, and
/// every other application's windows.
pub proof fn law_empty_report_keeps_windows_still_assigned_here(
    m: LayoutModel,
    space: SpaceId,
    pid: Pid,
    w: WindowId,
)
    requires
        m.wf(),
        m.active_workspace(space) is Some,
        m.layout_of(space).contains(w),
        w.pid != pid || !(m.assigned.contains_key(w) && m.assigned[w].space != space),
    ensures
        m.after_windows_on_screen(space, pid, seq![]).layout_of(space).contains(w),
{
    let ws = m.active_workspace(space)->0;
    lemma_windows_of_contains(m.tiled, ws, w);
    lemma_claimed_empty(m.assigned, space, ws);
    lemma_windows_on_screen_membership(m, space, pid, Seq::empty());
    let m2 = m.after_windows_on_screen(space, pid, Seq::empty());
    assert(m2.tiled.contains((ws, w)));
    assert(m2.active_workspace(space) == Some(ws));
    lemma_windows_of_contains(m2.tiled, ws, w);
}

/// An empty report of `pid` takes out of the space's layout exactly the
/// windows of `pid` that are now assigned to another space (or to none).
pub proof fn law_empty_report_removes_only_moved_windows(
    m: LayoutModel,
    space: SpaceId,
    pid: Pid,
    w: WindowId,
)
    requires
        m.active_workspace(space) is Some,
        m.layout_of(space).contains(w),
        w.pid == pid,
    ensures
        m.after_windows_on_screen(space, pid, seq![]).layout_of(space).contains(w) <==> (m.assigned.contains_key(w)
            && m.assigned[w].space == space),
{
    let ws = m.active_workspace(space)->0;
    lemma_windows_of_contains(m.tiled, ws, w);
    lemma_claimed_empty(m.assigned, space, ws);
    lemma_windows_on_screen_membership(m, space, pid, Seq::empty());
    let m2 = m.after_windows_on_screen(space, pid, Seq::empty());
    assert(m2.active_workspace(space) == Some(ws));
    lemma_windows_of_contains(m2.tiled, ws, w);
}

/// A report of `pid`'s windows on `space` concerns the space's active
/// workspace only: the tree of every other workspace of `space` keeps
/// exactly its entries (a window parked on an inactive workspace stays
/// there), and the tree of a workspace of another space loses exactly the
/// windows the report claims for `space`.
pub proof fn law_report_leaves_parked_workspaces(
    m: LayoutModel,
    space: SpaceId,
    pid: Pid,
    wins: Seq<WindowId>,
    other: WorkspaceId,
    w: WindowId,
)
    requires
        m.wf(),
    ensures
        other.space == space && m.active_workspace(space) != Some(other) ==> (m.after_windows_on_screen(
            space,
            pid,
            wins,
        ).in_tree(other, w) <==> m.in_tree(other, w)),
        other.space != space ==> (m.after_windows_on_screen(space, pid, wins).in_tree(other, w) <==> m.in_tree(
            other,
            w,
        ) && !(m.active_workspace(space) is Some && wins.contains(w))),
{
    if let Some(a) = m.active_workspace(space) {
        lemma_windows_on_screen_membership(m, space, pid, wins);
        let m2 = m.after_windows_on_screen(space, pid, wins);
        if m.in_tree(other, w) {
            assert(m.assigned.contains_key(w) && m.assigned[w].space == other.space);
        }
        if m2.in_tree(other, w) && other != a {
            assert(m.tiled.contains((other, w)));
        }
    }
}

/// An update on one space changes the layout of another space only by
/// taking out the windows the update reported on its own space.
pub proof fn law_update_leaves_other_spaces(
    m: LayoutModel,
    space: SpaceId,
    other: SpaceId,
    pid: Pid,
    wins: Seq<WindowId>,
    w: WindowId,
)
    requires
        m.wf(),
        space != other,
    ensures
        m.after_windows_on_screen(space, pid, wins).layout_of(other).contains(w) <==> m.layout_of(other).contains(w)
            && !(m.active_workspace(space) is Some && wins.contains(w)),
{
    let m2 = m.after_windows_on_screen(space, pid, wins);
    assert(m2.active_workspace(other) == m.active_workspace(other));
    if let Some(wo) = m.active_workspace(other) {
        if let Some(ws) = m.active_workspace(space) {
            assert(wo != ws);
            lemma_windows_on_screen_membership(m, space, pid, wins);
        }
        lemma_windows_of_contains(m.tiled, wo, w);
        lemma_windows_of_contains(m2.tiled, wo, w);
    }
}


/// A report never pulls a window out of the workspace of the reporting space
/// it is assigned to: a window parked on an inactive workspace stays there,
/// and a report that lists windows (or finds it out of the layout already)
/// leaves it out of the space's layout.
pub proof fn law_report_keeps_windows_on_their_workspace(m: LayoutModel, space: SpaceId, pid: Pid, wins: Seq<WindowId>, w: WindowId)
    requires
        m.active_workspace(space) is Some,
        m.assigned.contains_key(w),
        m.assigned[w].space == space,
    ensures
        m.after_windows_on_screen(space, pid, wins).assigned[w] == m.assigned[w],
        w.pid == pid && m.assigned[w] != m.active_workspace(space)->0 && (wins.len() > 0 || !m.layout_of(
            space,
        ).contains(w)) ==> !m.after_windows_on_screen(
            space,
            pid,
            wins,
        ).layout_of(space).contains(w),
{
    let ws = m.active_workspace(space)->0;
    let m2 = m.after_windows_on_screen(space, pid, wins);
    lemma_windows_on_screen_membership(m, space, pid, wins);
    assert(m2.active_workspace(space) == Some(ws));
    lemma_windows_of_contains(m2.tiled, ws, w);
    lemma_windows_of_contains(m.tiled, ws, w);
}

/// An empty report never takes an application off a space's layout while
/// none of its windows there was moved to another space: whether some window
/// of `pid` is laid out on `space` is the same before and after.
pub proof fn law_empty_report_keeps_application_presence(m: LayoutModel, space: SpaceId, pid: Pid)
    requires
        m.wf(),
        m.active_workspace(space) is Some,
        forall|w: WindowId|
            #[trigger] m.layout_of(space).contains(w) && w.pid == pid ==> !(m.assigned.contains_key(w)
                && m.assigned[w].space != space),
    ensures
        (exists|i: int| 0 <= i < m.layout_of(space).len() && m.layout_of(space)[i].pid == pid) <==> (exists|i: int|
            0 <= i < m.after_windows_on_screen(space, pid, seq![]).layout_of(space).len()
                && m.after_windows_on_screen(space, pid, seq![]).layout_of(space)[i].pid == pid),
{
    let ws = m.active_workspace(space)->0;
    let m2 = m.after_windows_on_screen(space, pid, Seq::empty());
    lemma_claimed_empty(m.assigned, space, ws);
    lemma_windows_on_screen_membership(m, space, pid, Seq::empty());
    assert(m2.active_workspace(space) == Some(ws));
    let l1 = m.layout_of(space);
    let l2 = m2.layout_of(space);
    if exists|i: int| 0 <= i < l1.len() && l1[i].pid == pid {
        let i = choose|i: int| 0 <= i < l1.len() && l1[i].pid == pid;
        let w = l1[i];
        assert(l1.contains(w));
        lemma_windows_of_contains(m.tiled, ws, w);
        lemma_windows_of_contains(m2.tiled, ws, w);
        assert(l2.contains(w));
        let q = choose|q: int| 0 <= q < l2.len() && l2[q] == w;
        assert(l2[q].pid == pid);
    }
    if exists|i: int| 0 <= i < l2.len() && l2[i].pid == pid {
        let i = choose|i: int| 0 <= i < l2.len() && l2[i].pid == pid;
        let w = l2[i];
        assert(l2.contains(w));
        lemma_windows_of_contains(m2.tiled, ws, w);
        lemma_windows_of_contains(m.tiled, ws, w);
        assert(l1.contains(w));
        let q = choose|q: int| 0 <= q < l1.len() && l1[q] == w;
        assert(l1[q].pid == pid);
    }
}

/// A minimized window is laid out nowhere, keeps its workspace, and every
/// other window stays where it was.
pub proof fn law_minimized_window_keeps_its_workspace(m: LayoutModel, w: WindowId, space: SpaceId, other: WindowId)
    requires
        m.wf(),
    ensures
        m.after_minimize(w).wf(),
        !m.after_minimize(w).layout_of(space).contains(w),
        m.after_minimize(w).assigned == m.assigned,
        other != w ==> (m.after_minimize(w).layout_of(space).contains(other) <==> m.layout_of(space).contains(other)),
{
    let m2 = m.after_minimize(w);
    lemma_without_window_contains(m.tiled, w, None);
    if let Some(ws) = m2.active_workspace(space) {
        lemma_windows_of_contains(m2.tiled, ws, w);
        lemma_windows_of_contains(m2.tiled, ws, other);
        lemma_windows_of_contains(m.tiled, ws, other);
    }
}

/// A minimized window reported on screen again on the space whose active
/// workspace it belongs to (or on a space it does not belong to at all)
/// returns to that space's layout.
pub proof fn law_restored_window_returns_to_layout(
    m: LayoutModel,
    w: WindowId,
    space: SpaceId,
    wins: Seq<WindowId>,
)
    requires
        m.active_workspace(space) is Some,
        wins.contains(w),
        m.assigned.contains_key(w) && m.assigned[w].space == space ==> m.assigned[w] == m.active_workspace(
            space,
        )->0,
    ensures
        m.after_minimize(w).after_windows_on_screen(space, w.pid, wins).layout_of(space).contains(w),
{
    let m1 = m.after_minimize(w);
    let ws = m1.active_workspace(space)->0;
    let m2 = m1.after_windows_on_screen(space, w.pid, wins);
    lemma_windows_on_screen_membership(m1, space, w.pid, wins);
    assert(m2.active_workspace(space) == Some(ws));
    assert(m2.tiled.contains((ws, w)));
    lemma_windows_of_contains(m2.tiled, ws, w);
}

/// A destroyed window is laid out nowhere and assigned nowhere.
pub proof fn law_removed_window_is_gone(m: LayoutModel, w: WindowId, space: SpaceId)
    ensures
        !m.after_remove_window(w).layout_of(space).contains(w),
        !m.after_remove_window(w).assigned.contains_key(w),
{
    let m2 = m.after_remove_window(w);
    lemma_without_window_contains(m.tiled, w, None);
    if let Some(ws) = m2.active_workspace(space) {
        lemma_windows_of_contains(m2.tiled, ws, w);
    }
}

/// A moved window is laid out on its space exactly when its new workspace is
/// the active one, and on no other workspace's tree.
pub proof fn law_moved_window_follows_its_workspace(m: LayoutModel, space: SpaceId, w: WindowId, index: u32, other: WorkspaceId)
    requires
        m.is_workspace_of(space, WorkspaceId { space, index }),
    ensures
        m.after_move(space, w, index).layout_of(space).contains(w) <==> m.active[space] == index,
        other != (WorkspaceId { space, index }) ==> !m.after_move(space, w, index).in_tree(other, w),
{
    let ws = WorkspaceId { space, index };
    let m2 = m.after_move(space, w, index);
    lemma_without_window_contains(m.tiled, w, None);
    let r = without_window(m.tiled, w, None);
    assert(r.push((ws, w))[r.len() as int] == (ws, w));
    assert forall|e: (WorkspaceId, WindowId)| #[trigger] m2.tiled.contains(e) <==> r.contains(e) || e == (ws, w) by {
        if m2.tiled.contains(e) {
            let k = choose|k: int| 0 <= k < m2.tiled.len() && m2.tiled[k] == e;
            if k < r.len() {
                assert(r[k] == e);
            }
        }
        if r.contains(e) {
            let k = choose|k: int| 0 <= k < r.len() && r[k] == e;
            assert(m2.tiled[k] == e);
        }
    }
    if let Some(a) = m2.active_workspace(space) {
        lemma_windows_of_contains(m2.tiled, a, w);
    }
}

impl LayoutEngine {
    /// The engine's invariant.
    pub closed spec fn wf(&self) -> bool {
        &&& keys_unique(self.spaces@)
        &&& keys_unique(self.assignments@)
        &&& self@.wf()
    }

    pub fn new(settings: &VirtualWorkspaceSettings) -> (e: LayoutEngine)
        ensures
            e.wf(),
            e@.workspace_count == settings.default_workspace_count,
            e@.active == Map::<SpaceId, u32>::empty(),
            e@.assigned == Map::<WindowId, WorkspaceId>::empty(),
            e@.tiled == Seq::<(WorkspaceId, WindowId)>::empty(),
    {
        let e = LayoutEngine {
            workspace_count: settings.default_workspace_count,
            spaces: Vec::new(),
            assignments: Vec::new(),
            tiled: Vec::new(),
        };
        assert(assoc_map(e.spaces@) =~= Map::<SpaceId, u32>::empty());
        assert(assoc_map(e.assignments@) =~= Map::<WindowId, WorkspaceId>::empty());
        e
    }

    /// The engine's invariant holds of what it knows.
    pub proof fn lemma_model_wf(&self)
        requires
            self.wf(),
        ensures
            self@.wf(),
    {
    }

    /// Makes `space` known, with its first workspace active.
    pub fn register_space(&mut self, space: SpaceId)
        requires
            old(self).wf(),
        ensures
            final(self).wf(),
            final(self)@ == old(self)@.after_register_space(space),
    {
        match find_space(&self.spaces, space) {
            Some(i) => {
                proof {
                    lemma_assoc_lookup(self.spaces@, i as int);
                }
            },
            None => {
                proof {
                    lemma_assoc_absent(self.spaces@, space);
                    lemma_assoc_push(self.spaces@, space, 0u32);
                }
                self.spaces.push((space, 0));
            },
        }
    }

    /// The active workspace of `space`, if it has one.
    pub fn active_workspace(&self, space: SpaceId) -> (r: Option<WorkspaceId>)
        requires
            self.wf(),
        ensures
            r == self@.active_workspace(space),
    {
        match find_space(&self.spaces, space) {
            Some(i) => {
                proof {
                    lemma_assoc_lookup(self.spaces@, i as int);
                }
                let index = self.spaces[i].1;
                if index < self.workspace_count {
                    Some(WorkspaceId { space, index })
                } else {
                    None
                }
            },
            None => {
                proof {
                    lemma_assoc_absent(self.spaces@, space);
                }
                None
            },
        }
    }

    /// The workspace `w` is assigned to, if any.
    pub fn workspace_for_window(&self, w: WindowId) -> (r: Option<WorkspaceId>)
        requires
            self.wf(),
        ensures
            r == (if self@.assigned.contains_key(w) {
                Some(self@.assigned[w])
            } else {
                None
            }),
    {
        self.assignment_of(w)
    }

    fn assignment_of(&self, w: WindowId) -> (r: Option<WorkspaceId>)
        requires
            keys_unique(self.assignments@),
        ensures
            r == (if self@.assigned.contains_key(w) {
                Some(self@.assigned[w])
            } else {
                None
            }),
    {
        match find_assignment(&self.assignments, w) {
            Some(i) => {
                proof {
                    lemma_assoc_lookup(self.assignments@, i as int);
                }
                Some(self.assignments[i].1)
            },
            None => {
                proof {
                    lemma_assoc_absent(self.assignments@, w);
                }
                None
            },
        }
    }

    /// Records that `w` is assigned to `ws`; the trees are left as they are.
    fn set_assignment(&mut self, w: WindowId, ws: WorkspaceId)
        requires
            keys_unique(old(self).assignments@),
        ensures
            keys_unique(final(self).assignments@),
            final(self).spaces == old(self).spaces,
            final(self).tiled == old(self).tiled,
            final(self)@ == (LayoutModel { assigned: old(self)@.assigned.insert(w, ws), ..old(self)@ }),
    {
        match find_assignment(&self.assignments, w) {
            Some(i) => {
                proof {
                    lemma_assoc_update(self.assignments@, i as int, ws);
                }
                self.assignments.set(i, (w, ws));
            },
            None => {
                proof {
                    lemma_assoc_absent(self.assignments@, w);
                    lemma_assoc_push(self.assignments@, w, ws);
                }
                self.assignments.push((w, ws));
            },
        }
    }

    /// Takes `w` out of every tree but those of the workspaces of `keep`.
    fn drop_window(&mut self, w: WindowId, keep: Option<SpaceId>)
        requires
            old(self).tiled@.no_duplicates(),
        ensures
            final(self).tiled@.no_duplicates(),
            final(self).spaces == old(self).spaces,
            final(self).assignments == old(self).assignments,
            final(self).workspace_count == old(self).workspace_count,
            final(self).tiled@ == without_window(old(self).tiled@, w, keep),
            forall|e: (WorkspaceId, WindowId)|
                #[trigger] final(self).tiled@.contains(e) <==> old(self).tiled@.contains(e) && kept_entry(e, w, keep),
    {
        let mut kept: Vec<(WorkspaceId, WindowId)> = Vec::new();
        let mut j: usize = 0;
        while j < self.tiled.len()
            invariant
                j <= self.tiled@.len(),
                kept@ == without_window(self.tiled@.take(j as int), w, keep),
            decreases self.tiled@.len() - j,
        {
            let e = self.tiled[j];
            proof {
                assert(self.tiled@.take(j + 1).drop_last() =~= self.tiled@.take(j as int));
                assert(self.tiled@.take(j + 1).last() == e);
            }
            let in_keep = match keep {
                Some(k) => e.0.space == k,
                None => false,
            };
            if e.1 != w || in_keep {
                kept.push(e);
            }
            j = j + 1;
        }
        proof {
            assert(self.tiled@.take(self.tiled@.len() as int) =~= self.tiled@);
            lemma_without_window_contains(self.tiled@, w, keep);
        }
        self.tiled = kept;
    }

    /// Assigns `w` to workspace `ws` of `space`, taking it out of the trees of
    /// every other space; `false`, with nothing changed, when `ws` is not a
    /// workspace of the known space `space`.
    pub fn assign_window_to_workspace(&mut self, space: SpaceId, w: WindowId, ws: WorkspaceId) -> (r: bool)
        requires
            old(self).wf(),
        ensures
            final(self).wf(),
            r == old(self)@.is_workspace_of(space, ws),
            final(self)@ == old(self)@.after_assign(space, w, ws),
    {
        if ws.space != space || ws.index >= self.workspace_count {
            return false;
        }
        match find_space(&self.spaces, space) {
            None => {
                proof {
                    lemma_assoc_absent(self.spaces@, space);
                }
                false
            },
            Some(i) => {
                proof {
                    lemma_assoc_lookup(self.spaces@, i as int);
                }
                self.set_assignment(w, ws);
                self.drop_window(w, Some(space));
                true
            },
        }
    }

    /// Records that window `w` is seen on `space` (see `after_claim`).
    pub fn claim_window(&mut self, space: SpaceId, w: WindowId)
        requires
            old(self).wf(),
        ensures
            final(self).wf(),
            final(self)@ == old(self)@.after_claim(space, w),
    {
        match self.active_workspace(space) {
            Some(ws) => match self.workspace_for_window(w) {
                Some(cur) if cur.space == space => {},
                _ => {
                    self.set_assignment(w, ws);
                    self.drop_window(w, Some(space));
                },
            },
            None => {},
        }
    }

    /// Records which windows of `pid` are on screen on `space`.
    pub fn windows_on_screen_updated(&mut self, space: SpaceId, pid: Pid, wins: &Vec<WindowId>)
        requires
            old(self).wf(),
        ensures
            final(self).wf(),
            final(self)@ == old(self)@.after_windows_on_screen(space, pid, wins@),
    {
        let ws = match self.active_workspace(space) {
            Some(ws) => ws,
            None => return ,
        };
        let ghost old_assigned = self@.assigned;
        // Assign the reported windows.
        let mut i: usize = 0;
        while i < wins.len()
            invariant
                keys_unique(self.spaces@),
                keys_unique(self.assignments@),
                self.spaces == old(self).spaces,
                self.tiled == old(self).tiled,
                i <= wins@.len(),
                self@ == (LayoutModel { assigned: self@.assigned, ..old(self)@ }),
                self@.assigned == claimed(old_assigned, space, ws, wins@.take(i as int)),
            decreases wins@.len() - i,
        {
            let w = wins[i];
            match self.assignment_of(w) {
                Some(cur) if cur.space == space => {},
                _ => {
                    self.set_assignment(w, ws);
                },
            }
            proof {
                let t = wins@.take(i as int);
                let t2 = wins@.take(i + 1);
                assert(t2 =~= t.push(w));
                assert forall|x: WindowId| #[trigger] t2.contains(x) <==> t.contains(x) || x == w by {
                    if t2.contains(x) {
                        let k = choose|k: int| 0 <= k < t2.len() && t2[k] == x;
                        if k < t.len() {
                            assert(t[k] == x);
                        }
                    }
                    if t.contains(x) {
                        let k = choose|k: int| 0 <= k < t.len() && t[k] == x;
                        assert(t2[k] == x);
                    }
                    if x == w {
                        assert(t2[i as int] == w);
                    }
                }
                assert(self@.assigned =~= claimed(old_assigned, space, ws, t2));
            }
            i = i + 1;
        }
        proof {
            assert(wins@.take(wins@.len() as int) =~= wins@);
        }
        let ghost assigned = self@.assigned;
        let empty = wins.len() == 0;
        // Keep the tree entries that stay.
        let mut kept: Vec<(WorkspaceId, WindowId)> = Vec::new();
        let mut j: usize = 0;
        while j < self.tiled.len()
            invariant
                keys_unique(self.assignments@),
                self@.assigned == assigned,
                empty == (wins@.len() == 0),
                j <= self.tiled@.len(),
                kept@ == retained(self.tiled@.take(j as int), assigned, ws, pid, wins@),
            decreases self.tiled@.len() - j,
        {
            let e = self.tiled[j];
            let keep = match self.assignment_of(e.1) {
                Some(cur) => cur.space == e.0.space && (!(e.0 == ws && e.1.pid == pid) || empty || (cur == ws
                    && window_listed(wins, e.1))),
                None => false,
            };
            proof {
                assert(self.tiled@.take(j + 1).drop_last() =~= self.tiled@.take(j as int));
                assert(self.tiled@.take(j + 1).last() == e);
                assert(keep == stays(assigned, ws, pid, wins@, e));
            }
            if keep {
                kept.push(e);
            }
            j = j + 1;
        }
        proof {
            assert(self.tiled@.take(self.tiled@.len() as int) =~= self.tiled@);
            lemma_retained_contains(self.tiled@, assigned, ws, pid, wins@);
        }
        // Append the reported windows that joined this workspace.
        let mut k: usize = 0;
        while k < wins.len()
            invariant
                keys_unique(self.assignments@),
                self@.assigned == assigned,
                k <= wins@.len(),
                kept@ == appended(
                    retained(self.tiled@, assigned, ws, pid, wins@),
                    assigned,
                    ws,
                    wins@.take(k as int),
                ),
            decreases wins@.len() - k,
        {
            let w = wins[k];
            proof {
                assert(wins@.take(k + 1).drop_last() =~= wins@.take(k as int));
                assert(wins@.take(k + 1).last() == w);
            }
            match self.assignment_of(w) {
                Some(cur) => {
                    if cur == ws && !tiled_contains(&kept, ws, w) {
                        kept.push((ws, w));
                    }
                },
                None => {},
            }
            k = k + 1;
        }
        proof {
            assert(wins@.take(wins@.len() as int) =~= wins@);
            lemma_appended_contains(retained(self.tiled@, assigned, ws, pid, wins@), assigned, ws, wins@);
        }
        self.tiled = kept;
    }

    /// Takes the minimized window `w` out of every tree; its assignment stays.
    pub fn minimize_window(&mut self, w: WindowId)
        requires
            old(self).wf(),
        ensures
            final(self).wf(),
            final(self)@ == old(self)@.after_minimize(w),
    {
        self.drop_window(w, None);
    }

    /// Forgets window `w`.
    pub fn remove_window(&mut self, w: WindowId)
        requires
            old(self).wf(),
        ensures
            final(self).wf(),
            final(self)@ == old(self)@.after_remove_window(w),
    {
        match find_assignment(&self.assignments, w) {
            Some(i) => {
                proof {
                    lemma_assoc_remove(self.assignments@, i as int);
                }
                self.assignments.remove(i);
            },
            None => {
                proof {
                    lemma_assoc_absent(self.assignments@, w);
                    assert(assoc_map(self.assignments@).remove(w) =~= assoc_map(self.assignments@));
                }
            },
        }
        self.drop_window(w, None);
    }

    /// Makes workspace `index` of `space` the active one; `false`, with
    /// nothing changed, when `space` is unknown or `index` out of range.
    pub fn switch_to_workspace(&mut self, space: SpaceId, index: u32) -> (r: bool)
        requires
            old(self).wf(),
        ensures
            final(self).wf(),
            r == (old(self)@.active.contains_key(space) && index < old(self)@.workspace_count),
            final(self)@ == old(self)@.after_switch(space, index),
    {
        if index >= self.workspace_count {
            return false;
        }
        match find_space(&self.spaces, space) {
            Some(i) => {
                proof {
                    lemma_assoc_update(self.spaces@, i as int, index);
                }
                self.spaces.set(i, (space, index));
                true
            },
            None => {
                proof {
                    lemma_assoc_absent(self.spaces@, space);
                }
                false
            },
        }
    }

    /// Moves window `w` to workspace `index` of `space`; `false`, with nothing
    /// changed, when that is not a workspace of a known space.
    pub fn move_window_to_workspace(&mut self, space: SpaceId, w: WindowId, index: u32) -> (r: bool)
        requires
            old(self).wf(),
        ensures
            final(self).wf(),
            r == old(self)@.is_workspace_of(space, WorkspaceId { space, index }),
            final(self)@ == old(self)@.after_move(space, w, index),
    {
        let ws = WorkspaceId { space, index };
        if index >= self.workspace_count {
            return false;
        }
        match find_space(&self.spaces, space) {
            None => {
                proof {
                    lemma_assoc_absent(self.spaces@, space);
                }
                return false;
            },
            Some(i) => {
                proof {
                    lemma_assoc_lookup(self.spaces@, i as int);
                }
            },
        }
        self.set_assignment(w, ws);
        self.drop_window(w, None);
        proof {
            let r = self.tiled@;
            assert(!r.contains((ws, w)));
            let r2 = r.push((ws, w));
            assert(r2[r.len() as int] == (ws, w));
            assert forall|a: int, b: int| 0 <= a < r2.len() && 0 <= b < r2.len() && a != b implies r2[a] != r2[b] by {
                if a < r.len() && b < r.len() {
                    assert(r2[a] == r[a]);
                    assert(r2[b] == r[b]);
                } else if a < r.len() {
                    assert(r2[a] == r[a]);
                    assert(r.contains(r[a]));
                } else {
                    assert(r2[b] == r[b]);
                    assert(r.contains(r[b]));
                }
            }
            assert forall|e: (WorkspaceId, WindowId)| #[trigger] r2.contains(e) implies r.contains(e) || e == (ws, w) by {
                let k = choose|k: int| 0 <= k < r2.len() && r2[k] == e;
                if k < r.len() {
                    assert(r2[k] == r[k]);
                }
            }
        }
        self.tiled.push((ws, w));
        true
    }

    /// Applies a layout event.
    pub fn handle_event(&mut self, event: LayoutEvent)
        requires
            old(self).wf(),
        ensures
            final(self).wf(),
            final(self)@ == match event {
                LayoutEvent::WindowsOnScreenUpdated(space, pid, wins) => old(
                    self,
                )@.after_windows_on_screen(space, pid, wins@),
                LayoutEvent::WindowRemoved(w) => old(self)@.after_remove_window(w),
            },
    {
        match event {
            LayoutEvent::WindowsOnScreenUpdated(space, pid, wins) => {
                self.windows_on_screen_updated(space, pid, &wins)
            },
            LayoutEvent::WindowRemoved(w) => self.remove_window(w),
        }
    }

    /// The windows laid out on `space`, in tree order.
    pub fn windows_in_active_workspace(&self, space: SpaceId) -> (r: Vec<WindowId>)
        requires
            self.wf(),
        ensures
            r@ == self@.layout_of(space),
    {
        let mut r: Vec<WindowId> = Vec::new();
        let ws = match self.active_workspace(space) {
            Some(ws) => ws,
            None => return r,
        };
        let mut j: usize = 0;
        while j < self.tiled.len()
            invariant
                j <= self.tiled@.len(),
                r@ == windows_of(self.tiled@.take(j as int), ws),
            decreases self.tiled@.len() - j,
        {
            let e = self.tiled[j];
            proof {
                assert(self.tiled@.take(j + 1).drop_last() =~= self.tiled@.take(j as int));
                assert(self.tiled@.take(j + 1).last() == e);
            }
            if e.0 == ws {
                r.push(e.1);
            }
            j = j + 1;
        }
        proof {
            assert(self.tiled@.take(self.tiled@.len() as int) =~= self.tiled@);
        }
        r
    }
}

} // verus!
