use vstd::prelude::*;

use crate::ids::{Pid, SpaceId, WindowId, WorkspaceId};
use crate::layout::{
    law_no_window_on_two_spaces, lemma_claimed_empty, lemma_windows_of_contains, lemma_windows_on_screen_membership,
    lemma_without_window_contains, LayoutEngine, LayoutModel,
};
use crate::menu::{menu_step, EventTapRequest, MenuEvent, MenuManager, MenuState};
use crate::raise::{build_raise_request, grouped, raise_items, touches, RaiseRequest};
use crate::screen::{
    locate_screen, screen_for_selector, screen_of, screen_with_space, selects, DisplaySelector, Rect, ScreenInfo,
};
use crate::space::{needs_refresh, spaces_of, FullscreenSpaceTrack, SpaceManager};
use crate::topology::{bumped, DisplayTopologyManager, QuarantineStats};
use crate::transaction::{
    classify, record_of, FrameChange, MouseState, TransactionId, TransactionManager, TxRecord, WindowServerId,
};

verus! {

/// An event the reactor handles.
pub enum Event {
    /// The displays, each with the space it shows.
    ScreenParametersChanged(Vec<ScreenInfo>),
    /// The spaces the displays show, in display order.
    SpaceChanged(Vec<Option<SpaceId>>),
    MenuOpened(Pid),
    MenuClosed(Pid),
    ApplicationDeactivated(Pid),
    ApplicationGloballyActivated(Pid),
    WindowDestroyed(WindowId),
    /// Application `pid` was seen with these visible windows, each with its
    /// frame, and these minimized windows.
    WindowsDiscovered { pid: Pid, visible: Vec<(WindowId, Rect)>, minimized: Vec<WindowId> },
    /// The mouse button was released.
    MouseUp,
}

/// A window event that may arrive while displays are being reconfigured.
pub enum WindowEvent {
    WindowCreated(WindowId),
    WindowDestroyed(WindowId),
    WindowFrameChanged(WindowId, Rect),
    /// An application's window list was read again.
    WindowsDiscovered(Pid),
}

/// What the reactor asks of the outside world after an event.
pub struct Response {
    /// A request for the event tap.
    pub event_tap: Option<EventTapRequest>,
    /// The applications whose visible windows are to be listed again.
    pub get_visible_windows: Vec<Pid>,
}

/// The spaces registered, in order, with the layout engine.
pub open spec fn registered(m: LayoutModel, spaces: Seq<Option<SpaceId>>) -> LayoutModel
    decreases spaces.len(),
{
    if spaces.len() == 0 {
        m
    } else {
        let prev = registered(m, spaces.drop_last());
        match spaces.last() {
            Some(s) => prev.after_register_space(s),
            None => prev,
        }
    }
}


/// Registering the spaces the displays show only makes new spaces known:
/// no window changes workspace or tree, and a space that was known keeps its
/// active workspace, so its layout is what it was.
pub proof fn law_display_changes_keep_layouts(m: LayoutModel, spaces: Seq<Option<SpaceId>>, space: SpaceId)
    ensures
        registered(m, spaces).assigned == m.assigned,
        registered(m, spaces).tiled == m.tiled,
        registered(m, spaces).workspace_count == m.workspace_count,
        m.active.contains_key(space) ==> registered(m, spaces).active.contains_key(space) && registered(
            m,
            spaces,
        ).active[space] == m.active[space],
        m.active.contains_key(space) ==> registered(m, spaces).active_workspace(space) == m.active_workspace(
            space,
        ),
        m.active.contains_key(space) ==> registered(m, spaces).layout_of(space) == m.layout_of(space),
        (exists|i: int| 0 <= i < spaces.len() && spaces[i] == Some(space)) ==> registered(
            m,
            spaces,
        ).active.contains_key(space),
    decreases spaces.len(),
{
    if spaces.len() > 0 {
        let t = spaces.drop_last();
        law_display_changes_keep_layouts(m, t, space);
        if exists|i: int| 0 <= i < spaces.len() && spaces[i] == Some(space) {
            let i = choose|i: int| 0 <= i < spaces.len() && spaces[i] == Some(space);
            if i < t.len() {
                assert(t[i] == Some(space));
            }
        }
    }
}


/// The space shown on the display that holds the centre of `frame`.
#[verifier::opaque]
pub open spec fn space_for_frame(screens: Seq<ScreenInfo>, frame: Rect) -> Option<SpaceId> {
    match screen_of(screens, frame) {
        Some(k) => if (k as int) < screens.len() {
            screens[k as int].space
        } else {
            None
        },
        None => None,
    }
}

/// The windows of `items` whose frame puts them on `space`, in their order.
pub open spec fn windows_on(screens: Seq<ScreenInfo>, items: Seq<(WindowId, Rect)>, space: SpaceId) -> Seq<WindowId>
    decreases items.len(),
{
    if items.len() == 0 {
        Seq::empty()
    } else {
        let rest = windows_on(screens, items.drop_last(), space);
        if space_for_frame(screens, items.last().1) == Some(space) {
            rest.push(items.last().0)
        } else {
            rest
        }
    }
}

/// Every window of `items` claimed by the space its frame puts it on.
pub open spec fn claimed_all(m: LayoutModel, screens: Seq<ScreenInfo>, items: Seq<(WindowId, Rect)>) -> LayoutModel
    decreases items.len(),
{
    if items.len() == 0 {
        m
    } else {
        let prev = claimed_all(m, screens, items.drop_last());
        match space_for_frame(screens, items.last().1) {
            Some(s) => prev.after_claim(s, items.last().0),
            None => prev,
        }
    }
}

/// Each display of `shown` in turn reports the windows of `pid` on its space.
pub open spec fn updated_spaces(
    m: LayoutModel,
    shown: Seq<ScreenInfo>,
    screens: Seq<ScreenInfo>,
    pid: Pid,
    items: Seq<(WindowId, Rect)>,
) -> LayoutModel
    decreases shown.len(),
{
    if shown.len() == 0 {
        m
    } else {
        let prev = updated_spaces(m, shown.drop_last(), screens, pid, items);
        match shown.last().space {
            Some(s) => prev.after_windows_on_screen(s, pid, windows_on(screens, items, s)),
            None => prev,
        }
    }
}

/// The layout after application `pid` was seen with the visible windows
/// `items`: every window is first claimed by the space its frame puts it on,
/// then every display reports the application's windows on its space, in
/// display order.
pub open spec fn after_discovery(m: LayoutModel, screens: Seq<ScreenInfo>, pid: Pid, items: Seq<(WindowId, Rect)>) -> LayoutModel {
    updated_spaces(claimed_all(m, screens, items), screens, screens, pid, items)
}

proof fn lemma_windows_on_contains(screens: Seq<ScreenInfo>, items: Seq<(WindowId, Rect)>, space: SpaceId, w: WindowId)
    ensures
        windows_on(screens, items, space).contains(w) <==> exists|j: int|
            0 <= j < items.len() && items[j].0 == w && space_for_frame(screens, items[j].1) == Some(space),
    decreases items.len(),
{
    if items.len() > 0 {
        let t = items.drop_last();
        lemma_windows_on_contains(screens, t, space, w);
        let r = windows_on(screens, t, space);
        if space_for_frame(screens, items.last().1) == Some(space) {
            let r2 = r.push(items.last().0);
            assert(r2[r.len() as int] == items.last().0);
            if r2.contains(w) {
                let q = choose|q: int| 0 <= q < r2.len() && r2[q] == w;
                if q < r.len() {
                    assert(r[q] == w);
                    let j = choose|j: int| 0 <= j < t.len() && t[j].0 == w && space_for_frame(screens, t[j].1) == Some(space);
                    assert(items[j] == t[j]);
                } else {
                    assert(items[items.len() - 1].0 == w);
                }
            }
            if r.contains(w) {
                let q = choose|q: int| 0 <= q < r.len() && r[q] == w;
                assert(r2[q] == w);
            }
        }
        if exists|j: int| 0 <= j < items.len() && items[j].0 == w && space_for_frame(screens, items[j].1) == Some(space) {
            let j = choose|j: int| 0 <= j < items.len() && items[j].0 == w && space_for_frame(screens, items[j].1) == Some(space);
            if j < t.len() {
                assert(t[j] == items[j]);
            }
        } else {
            if r.contains(w) {
                let j = choose|j: int| 0 <= j < t.len() && t[j].0 == w && space_for_frame(screens, t[j].1) == Some(space);
                assert(items[j] == t[j]);
            }
        }
    }
}

/// Claiming the windows leaves the active workspaces alone; the window at
/// position `j`, the only one with its id, ends up assigned to the active
/// workspace of the space its frame puts it on (when it is not parked on
/// another workspace of that space).
proof fn lemma_claimed_all(m: LayoutModel, screens: Seq<ScreenInfo>, items: Seq<(WindowId, Rect)>, j: int, dest: SpaceId)
    requires
        0 <= j < items.len(),
        forall|i: int| 0 <= i < items.len() && items[i].0 == items[j].0 ==> i == j,
        space_for_frame(screens, items[j].1) == Some(dest),
        m.active_workspace(dest) is Some,
        m.assigned.contains_key(items[j].0) && m.assigned[items[j].0].space == dest ==> m.assigned[items[j].0]
            == m.active_workspace(dest)->0,
    ensures
        claimed_all(m, screens, items).active == m.active,
        claimed_all(m, screens, items).workspace_count == m.workspace_count,
        claimed_all(m, screens, items).assigned.contains_key(items[j].0),
        claimed_all(m, screens, items).assigned[items[j].0] == m.active_workspace(dest)->0,
    decreases items.len(),
{
    let w = items[j].0;
    let t = items.drop_last();
    let last = items.last();
    if j < items.len() - 1 {
        assert(t[j] == items[j]);
        assert forall|i: int| 0 <= i < t.len() && t[i].0 == t[j].0 implies i == j by {
            assert(t[i] == items[i]);
        }
        lemma_claimed_all(m, screens, t, j, dest);
        assert(last.0 != w);
    } else {
        lemma_claimed_unchanged(m, screens, t, w);
    }
}

/// Claiming windows other than `w` leaves `w`'s assignment and the active
/// workspaces alone.
proof fn lemma_claimed_unchanged(m: LayoutModel, screens: Seq<ScreenInfo>, items: Seq<(WindowId, Rect)>, w: WindowId)
    requires
        forall|i: int| 0 <= i < items.len() ==> items[i].0 != w,
    ensures
        claimed_all(m, screens, items).active == m.active,
        claimed_all(m, screens, items).workspace_count == m.workspace_count,
        claimed_all(m, screens, items).assigned.contains_key(w) == m.assigned.contains_key(w),
        claimed_all(m, screens, items).assigned[w] == m.assigned[w],
    decreases items.len(),
{
    if items.len() > 0 {
        let t = items.drop_last();
        assert forall|i: int| 0 <= i < t.len() implies t[i].0 != w by {
            assert(t[i] == items[i]);
        }
        lemma_claimed_unchanged(m, screens, t, w);
        assert(items[items.len() - 1].0 != w);
    }
}

/// Claiming windows keeps the engine's invariant.
proof fn lemma_claimed_all_wf(m: LayoutModel, screens: Seq<ScreenInfo>, items: Seq<(WindowId, Rect)>)
    requires
        m.wf(),
    ensures
        claimed_all(m, screens, items).wf(),
    decreases items.len(),
{
    if items.len() > 0 {
        let t = items.drop_last();
        lemma_claimed_all_wf(m, screens, t);
        let p = claimed_all(m, screens, t);
        if let Some(s) = space_for_frame(screens, items.last().1) {
            crate::layout::law_updates_keep_trees_well_formed(p, s, 0, Seq::empty(), items.last().0, p.active_workspace(s)->0, 0);
        }
    }
}

/// Reports display after display keep the engine's invariant.
proof fn lemma_updated_spaces_wf(
    m: LayoutModel,
    shown: Seq<ScreenInfo>,
    screens: Seq<ScreenInfo>,
    pid: Pid,
    items: Seq<(WindowId, Rect)>,
)
    requires
        m.wf(),
    ensures
        updated_spaces(m, shown, screens, pid, items).wf(),
        updated_spaces(m, shown, screens, pid, items).active == m.active,
        updated_spaces(m, shown, screens, pid, items).workspace_count == m.workspace_count,
    decreases shown.len(),
{
    if shown.len() > 0 {
        let t = shown.drop_last();
        lemma_updated_spaces_wf(m, t, screens, pid, items);
        let p = updated_spaces(m, t, screens, pid, items);
        if let Some(s) = shown.last().space {
            let list = windows_on(screens, items, s);
            crate::layout::law_updates_keep_trees_well_formed(p, s, pid, list, WindowId { pid, idx: 0 }, WorkspaceId { space: s, index: 0 }, 0);
        }
    }
}

/// One display after another reporting its windows: `w`, assigned to the
/// active workspace of `dest` and reported on `dest` only, is in the tree of
/// `dest` once a display showing `dest` reported.
proof fn lemma_updated_spaces(
    m: LayoutModel,
    shown: Seq<ScreenInfo>,
    screens: Seq<ScreenInfo>,
    pid: Pid,
    items: Seq<(WindowId, Rect)>,
    w: WindowId,
    dest: SpaceId,
)
    requires
        w.pid == pid,
        m.active_workspace(dest) is Some,
        m.assigned.contains_key(w),
        m.assigned[w] == m.active_workspace(dest)->0,
        forall|s: SpaceId| #[trigger] windows_on(screens, items, s).contains(w) <==> s == dest,
    ensures
        ({
            let m2 = updated_spaces(m, shown, screens, pid, items);
            &&& m2.active == m.active
            &&& m2.workspace_count == m.workspace_count
            &&& m2.assigned.contains_key(w)
            &&& m2.assigned[w] == m.assigned[w]
            &&& (exists|i: int| 0 <= i < shown.len() && shown[i].space == Some(dest)) ==> m2.in_tree(
                m.active_workspace(dest)->0,
                w,
            )
        }),
    decreases shown.len(),
{
    if shown.len() > 0 {
        let t = shown.drop_last();
        lemma_updated_spaces(m, t, screens, pid, items, w, dest);
        let p = updated_spaces(m, t, screens, pid, items);
        let wd = m.active_workspace(dest)->0;
        assert(p.active_workspace(dest) == Some(wd));
        assert forall|i: int| 0 <= i < t.len() implies #[trigger] t[i] == shown[i] by {}
        match shown.last().space {
            Some(s) => {
                let list = windows_on(screens, items, s);
                let m2 = p.after_windows_on_screen(s, pid, list);
                assert(m2 == updated_spaces(m, shown, screens, pid, items));
                if let Some(ws) = p.active_workspace(s) {
                    lemma_windows_on_screen_membership(p, s, pid, list);
                    assert(list.contains(w) <==> s == dest);
                    assert(m2.assigned[w] == p.assigned[w]);
                    if s == dest {
                        assert(ws == wd);
                        assert(m2.in_tree(wd, w));
                    } else {
                        assert(ws != wd);
                    }
                }
                if exists|i: int| 0 <= i < shown.len() && shown[i].space == Some(dest) {
                    let i = choose|i: int| 0 <= i < shown.len() && shown[i].space == Some(dest);
                    if i < t.len() {
                        assert(t[i].space == Some(dest));
                    }
                }
            },
            None => {
                if exists|i: int| 0 <= i < shown.len() && shown[i].space == Some(dest) {
                    let i = choose|i: int| 0 <= i < shown.len() && shown[i].space == Some(dest);
                    assert(i < t.len());
                    assert(t[i].space == Some(dest));
                }
            },
        }
    }
}

/// A discovery keeps the engine's invariant.
proof fn lemma_discovery_wf(m: LayoutModel, screens: Seq<ScreenInfo>, pid: Pid, items: Seq<(WindowId, Rect)>)
    requires
        m.wf(),
    ensures
        after_discovery(m, screens, pid, items).wf(),
{
    lemma_claimed_all_wf(m, screens, items);
    lemma_updated_spaces_wf(claimed_all(m, screens, items), screens, screens, pid, items);
}

/// A window whose frame now puts it on another display's space ends up laid
/// out there and nowhere on the space it came from, whichever display
/// reports first and whether or not a display still shows the space it came
/// from: the two spaces never both keep it, so their frame writes cannot
/// feed back into each other.
pub proof fn law_discovery_places_window_on_its_display_only(
    m: LayoutModel,
    screens: Seq<ScreenInfo>,
    pid: Pid,
    items: Seq<(WindowId, Rect)>,
    j: int,
    source: SpaceId,
    dest: SpaceId,
)
    requires
        m.wf(),
        screens.len() <= usize::MAX,
        0 <= j < items.len(),
        forall|i: int| 0 <= i < items.len() && items[i].0 == items[j].0 ==> i == j,
        items[j].0.pid == pid,
        space_for_frame(screens, items[j].1) == Some(dest),
        source != dest,
        m.active_workspace(dest) is Some,
        // not parked on another workspace of the destination space
        m.assigned.contains_key(items[j].0) && m.assigned[items[j].0].space == dest ==> m.assigned[items[j].0]
            == m.active_workspace(dest)->0,
    ensures
        after_discovery(m, screens, pid, items).layout_of(dest).contains(items[j].0),
        !after_discovery(m, screens, pid, items).layout_of(source).contains(items[j].0),
{
    let w = items[j].0;
    let wd = m.active_workspace(dest)->0;
    lemma_claimed_all(m, screens, items, j, dest);
    let m1 = claimed_all(m, screens, items);
    assert(m1.active_workspace(dest) == Some(wd));
    assert forall|s: SpaceId| #[trigger] windows_on(screens, items, s).contains(w) <==> s == dest by {
        lemma_windows_on_contains(screens, items, s, w);
        if s == dest {
            assert(items[j].0 == w && space_for_frame(screens, items[j].1) == Some(s));
        }
    }
    assert(exists|i: int| 0 <= i < screens.len() && screens[i].space == Some(dest)) by {
        lemma_screen_of_bounds(screens, items[j].1);
        reveal(space_for_frame);
        let k = screen_of(screens, items[j].1)->0;
        assert(screens[k as int].space == Some(dest));
    }
    lemma_updated_spaces(m1, screens, screens, pid, items, w, dest);
    let m2 = after_discovery(m, screens, pid, items);
    assert(m2.active_workspace(dest) == Some(wd));
    lemma_windows_of_contains(m2.tiled, wd, w);
    lemma_discovery_wf(m, screens, pid, items);
    law_no_window_on_two_spaces(m2, dest, source, w);
}

/// The layout after the reactor handled `e`.
pub open spec fn layout_after(r: Reactor, e: Event) -> LayoutModel {
    let m = r.layout_engine@;
    let held = r.display_topology_manager.phase().quarantining();
    match e {
        Event::ScreenParametersChanged(screens) => registered(
            m,
            spaces_of(r.space_manager@.after_screen_parameters(screens@).screens),
        ),
        Event::SpaceChanged(next) => registered(m, spaces_of(r.space_manager@.after_space_changed(next@).screens)),
        Event::WindowDestroyed(w) => if held {
            m
        } else {
            m.after_remove_window(w)
        },
        Event::WindowsDiscovered { pid, visible, minimized } => if held {
            m
        } else {
            after_discovery(minimized_all(m, minimized@), r.space_manager@.screens, pid, visible@)
        },
        _ => m,
    }
}

/// The layout after the windows `mins` were minimized, one after another.
pub open spec fn minimized_all(m: LayoutModel, mins: Seq<WindowId>) -> LayoutModel
    decreases mins.len(),
{
    if mins.len() == 0 {
        m
    } else {
        minimized_all(m, mins.drop_last()).after_minimize(mins.last())
    }
}

/// Whether window `x` is marked minimized after a discovery that reported
/// `minimized` minimized and `visible` on screen, when `prev` were before: a
/// window reported on screen is not.
pub open spec fn marked_minimized(
    prev: Seq<WindowId>,
    minimized: Seq<WindowId>,
    visible: Seq<(WindowId, Rect)>,
    x: WindowId,
) -> bool {
    &&& prev.contains(x) || minimized.contains(x)
    &&& !exists|j: int| 0 <= j < visible.len() && visible[j].0 == x
}

/// Whether window `x` is marked minimized after the reactor handled `e`.
pub open spec fn minimized_after(r: Reactor, e: Event, x: WindowId) -> bool {
    let prev = r.minimized@;
    let held = r.display_topology_manager.phase().quarantining();
    match e {
        Event::WindowsDiscovered { visible, minimized, .. } => if held {
            prev.contains(x)
        } else {
            marked_minimized(prev, minimized@, visible@, x)
        },
        Event::WindowDestroyed(w) => if held {
            prev.contains(x)
        } else {
            prev.contains(x) && x != w
        },
        _ => prev.contains(x),
    }
}

/// What holds of the reactor `r2` that handling `e` leaves from `r`: its
/// layout and its minimized windows are those `layout_after` and
/// `minimized_after` give, and a window event leaves the displays and their
/// reconfiguration phase as they were.
pub open spec fn handled(r: Reactor, e: Event, r2: Reactor) -> bool {
    &&& r2.wf()
    &&& r2.layout_engine@ == layout_after(r, e)
    &&& forall|x: WindowId| #[trigger] r2.minimized@.contains(x) <==> minimized_after(r, e, x)
    &&& (e is WindowsDiscovered || e is WindowDestroyed) ==> {
        &&& r2.space_manager@ == r.space_manager@
        &&& r2.display_topology_manager.phase() == r.display_topology_manager.phase()
    }
}

/// A discovery that lists no window of `pid` adds nothing to any tree and
/// changes no assignment.
proof fn lemma_empty_discovery(m: LayoutModel, shown: Seq<ScreenInfo>, screens: Seq<ScreenInfo>, pid: Pid)
    ensures
        updated_spaces(m, shown, screens, pid, Seq::empty()).assigned == m.assigned,
        updated_spaces(m, shown, screens, pid, Seq::empty()).active == m.active,
        updated_spaces(m, shown, screens, pid, Seq::empty()).workspace_count == m.workspace_count,
        forall|e: (WorkspaceId, WindowId)|
            #[trigger] updated_spaces(m, shown, screens, pid, Seq::empty()).tiled.contains(e) ==> m.tiled.contains(e),
    decreases shown.len(),
{
    if shown.len() > 0 {
        let t = shown.drop_last();
        lemma_empty_discovery(m, t, screens, pid);
        let p = updated_spaces(m, t, screens, pid, Seq::empty());
        if let Some(s) = shown.last().space {
            let list = windows_on(screens, Seq::<(WindowId, Rect)>::empty(), s);
            assert(list =~= Seq::<WindowId>::empty());
            if let Some(ws) = p.active_workspace(s) {
                lemma_claimed_empty(p.assigned, s, ws);
                lemma_windows_on_screen_membership(p, s, pid, list);
            }
        }
    }
}

/// Minimized and then reported on screen again, on the space whose active
/// workspace it belongs to: the window leaves the space's layout and comes
/// back to it.
proof fn lemma_minimize_then_restore(m: LayoutModel, screens: Seq<ScreenInfo>, w: WindowId, frame: Rect, s: SpaceId)
    requires
        m.wf(),
        space_for_frame(screens, frame) == Some(s),
        m.layout_of(s).contains(w),
        m.assigned[w] == m.active_workspace(s)->0,
    ensures
        ({
            let m1 = after_discovery(minimized_all(m, seq![w]), screens, w.pid, Seq::empty());
            let m2 = after_discovery(minimized_all(m1, Seq::empty()), screens, w.pid, seq![(w, frame)]);
            &&& !m1.layout_of(s).contains(w)
            &&& m2.layout_of(s).contains(w)
        }),
{
    let pid = w.pid;
    let ws = m.active_workspace(s)->0;
    lemma_windows_of_contains(m.tiled, ws, w);
    assert(m.assigned.contains_key(w));
    // Minimized: out of every tree, assignment kept.
    assert(seq![w].drop_last() =~= Seq::<WindowId>::empty());
    assert(seq![w].last() == w);
    assert(minimized_all(m, Seq::<WindowId>::empty()) == m);
    let ma = minimized_all(m, seq![w]);
    assert(ma == m.after_minimize(w));
    lemma_without_window_contains(m.tiled, w, None);
    // The first discovery lists no window.
    let m1 = after_discovery(ma, screens, pid, Seq::empty());
    assert(claimed_all(ma, screens, Seq::empty()) == ma);
    lemma_empty_discovery(ma, screens, screens, pid);
    assert(m1.active_workspace(s) == Some(ws));
    lemma_windows_of_contains(m1.tiled, ws, w);
    // The second lists it on `s`.
    let items = seq![(w, frame)];
    assert(items[0] == (w, frame));
    assert(minimized_all(m1, Seq::empty()) == m1);
    lemma_claimed_all(m1, screens, items, 0, s);
    let mc = claimed_all(m1, screens, items);
    assert(mc.active_workspace(s) == Some(ws));
    assert forall|x: SpaceId| #[trigger] windows_on(screens, items, x).contains(w) <==> x == s by {
        lemma_windows_on_contains(screens, items, x, w);
        if x == s {
            assert(items[0].0 == w && space_for_frame(screens, items[0].1) == Some(x));
        }
    }
    assert(exists|i: int| 0 <= i < screens.len() && screens[i].space == Some(s)) by {
        reveal(space_for_frame);
        let k = screen_of(screens, frame)->0;
        assert(screens[k as int].space == Some(s));
    }
    lemma_updated_spaces(mc, screens, screens, pid, items, w, s);
    let m2 = after_discovery(m1, screens, pid, items);
    assert(m2.active_workspace(s) == Some(ws));
    lemma_windows_of_contains(m2.tiled, ws, w);
}

/// A window of the layout of a space, reported minimized by a discovery,
/// leaves that layout and is marked minimized; reported on screen again on
/// that space by the next discovery, it is back in the layout and no longer
/// marked: a restore reported by discovery undoes a minimize reported by
/// discovery. The window belongs to the space's active workspace, and the
/// displays are not being reconfigured.
pub proof fn law_discovery_restore_undoes_minimize(
    r1: Reactor,
    r2: Reactor,
    r3: Reactor,
    e1: Event,
    e2: Event,
    w: WindowId,
    frame: Rect,
    s: SpaceId,
)
    requires
        r1.wf(),
        !r1.display_topology_manager.phase().quarantining(),
        e1 matches Event::WindowsDiscovered { pid, visible, minimized } && pid == w.pid && visible@ == Seq::<
            (WindowId, Rect),
        >::empty() && minimized@ == seq![w],
        e2 matches Event::WindowsDiscovered { pid, visible, minimized } && pid == w.pid && visible@ == seq![(w, frame)]
            && minimized@ == Seq::<WindowId>::empty(),
        handled(r1, e1, r2),
        handled(r2, e2, r3),
        space_for_frame(r1.space_manager@.screens, frame) == Some(s),
        r1.layout_engine@.layout_of(s).contains(w),
        r1.layout_engine@.assigned[w] == r1.layout_engine@.active_workspace(s)->0,
    ensures
        !r2.layout_engine@.layout_of(s).contains(w),
        r2.minimized@.contains(w),
        r3.layout_engine@.layout_of(s).contains(w),
        !r3.minimized@.contains(w),
{
    r1.layout_engine.lemma_model_wf();
    lemma_minimize_then_restore(r1.layout_engine@, r1.space_manager@.screens, w, frame, s);
    assert(seq![w][0] == w);
    assert(seq![(w, frame)][0] == (w, frame));
    assert(minimized_after(r1, e1, w));
    assert(!minimized_after(r2, e2, w));
}

/// No window is ever laid out on two spaces, in any state the reactor can
/// reach: every event, and every call of the layout engine, keeps each
/// window in the layout of at most one space, so two displays never write
/// conflicting frames for one window.
pub proof fn law_reactor_lays_out_each_window_on_one_space(r: Reactor, s1: SpaceId, s2: SpaceId, w: WindowId)
    requires
        r.wf(),
        s1 != s2,
    ensures
        !(r.layout_engine@.layout_of(s1).contains(w) && r.layout_engine@.layout_of(s2).contains(w)),
{
    r.layout_engine.lemma_model_wf();
    law_no_window_on_two_spaces(r.layout_engine@, s1, s2, w);
}

proof fn lemma_screen_of_bounds(screens: Seq<ScreenInfo>, frame: Rect)
    requires
        screens.len() <= usize::MAX,
    ensures
        screen_of(screens, frame) matches Some(k) ==> (k as int) < screens.len() && screens[k as int].frame.contains_center_of(frame),
{
    if exists|k: int| 0 <= k < screens.len() && screens[k].frame.contains_center_of(frame) {
        let k0 = choose|k: int| 0 <= k < screens.len() && screens[k].frame.contains_center_of(frame);
        crate::screen::lemma_first_holding_exists(screens, frame, k0);
    }
}

/// The statistics after a window event was held back.
pub open spec fn counted(stats: QuarantineStats, event: WindowEvent) -> QuarantineStats {
    match event {
        WindowEvent::WindowCreated(_) => QuarantineStats { appeared_dropped: bumped(stats.appeared_dropped), ..stats },
        WindowEvent::WindowDestroyed(_) => QuarantineStats {
            destroyed_dropped: bumped(stats.destroyed_dropped),
            ..stats
        },
        WindowEvent::WindowFrameChanged(..) => stats,
        WindowEvent::WindowsDiscovered(_) => QuarantineStats { resync_dropped: bumped(stats.resync_dropped), ..stats },
    }
}

/// The menu event an event is, if it is one.
pub open spec fn as_menu_event(event: Event) -> Option<MenuEvent> {
    match event {
        Event::MenuOpened(p) => Some(MenuEvent::MenuOpened(p)),
        Event::MenuClosed(p) => Some(MenuEvent::MenuClosed(p)),
        Event::ApplicationDeactivated(p) => Some(MenuEvent::ApplicationDeactivated(p)),
        Event::ApplicationGloballyActivated(p) => Some(MenuEvent::ApplicationGloballyActivated(p)),
        _ => None,
    }
}

/// Reacts to what happens on the displays and to the windows.
pub struct Reactor {
    pub layout_engine: LayoutEngine,
    pub space_manager: SpaceManager,
    pub display_topology_manager: DisplayTopologyManager,
    pub menu_manager: MenuManager,
    pub transaction_manager: TransactionManager,
    /// Whether the user is dragging a window.
    pub in_drag: bool,
    /// The windows known to be minimized.
    pub minimized: Vec<WindowId>,
}

impl Reactor {
    pub open spec fn wf(&self) -> bool {
        self.layout_engine.wf() && self.space_manager.wf() && self.transaction_manager.wf()
    }

    pub fn new(layout_engine: LayoutEngine) -> (r: Reactor)
        requires
            layout_engine.wf(),
        ensures
            r.wf(),
            r.layout_engine@ == layout_engine@,
            r.space_manager@.screens.len() == 0,
            r.space_manager@.raw.len() == 0,
            r.space_manager@.fullscreen == Map::<u64, FullscreenSpaceTrack>::empty(),
            r.space_manager@.history == Map::<Seq<char>, SpaceId>::empty(),
            !r.space_manager@.relayout_pending,
            r.display_topology_manager.phase() is Stable,
            r.display_topology_manager.quarantine_stats == (QuarantineStats {
                appeared_dropped: 0,
                destroyed_dropped: 0,
                resync_dropped: 0,
            }),
            r.menu_manager.menu_state == MenuState::Closed,
            r.transaction_manager@ == Map::<WindowServerId, TxRecord>::empty(),
            !r.in_drag,
            r.minimized@ == Seq::<WindowId>::empty(),
    {
        Reactor {
            layout_engine,
            space_manager: SpaceManager::new(),
            display_topology_manager: DisplayTopologyManager::new(),
            menu_manager: MenuManager::new(),
            transaction_manager: TransactionManager::new(),
            in_drag: false,
            minimized: Vec::new(),
        }
    }

    fn register_screen_spaces(&mut self)
        requires
            old(self).wf(),
        ensures
            final(self).wf(),
            final(self).layout_engine@ == registered(
                old(self).layout_engine@,
                spaces_of(old(self).space_manager@.screens),
            ),
            final(self).space_manager@ == old(self).space_manager@,
            final(self).display_topology_manager == old(self).display_topology_manager,
            final(self).menu_manager == old(self).menu_manager,
            final(self).transaction_manager == old(self).transaction_manager,
            final(self).in_drag == old(self).in_drag,
            final(self).minimized == old(self).minimized,
    {
        let spaces = self.space_manager.raw_spaces_for_current_screens();
        let ghost m0 = self.layout_engine@;
        let mut i: usize = 0;
        while i < spaces.len()
            invariant
                self.wf(),
                self.space_manager@ == old(self).space_manager@,
                self.display_topology_manager == old(self).display_topology_manager,
                self.menu_manager == old(self).menu_manager,
                self.transaction_manager == old(self).transaction_manager,
                self.in_drag == old(self).in_drag,
                self.minimized == old(self).minimized,
                spaces@ == spaces_of(old(self).space_manager@.screens),
                i <= spaces@.len(),
                self.layout_engine@ == registered(m0, spaces@.take(i as int)),
            decreases spaces@.len() - i,
        {
            proof {
                assert(spaces@.take(i + 1).drop_last() =~= spaces@.take(i as int));
                assert(spaces@.take(i + 1).last() == spaces@[i as int]);
            }
            match spaces[i] {
                Some(s) => self.layout_engine.register_space(s),
                None => {},
            }
            i = i + 1;
        }
        proof {
            assert(spaces@.take(i as int) =~= spaces@);
        }
    }

    /// Holds back `event` while displays are being reconfigured, counting it;
    /// returns whether it was held back.
    pub fn maybe_quarantine_during_churn(&mut self, event: &WindowEvent) -> (held: bool)
        ensures
            held == old(self).display_topology_manager.phase().quarantining(),
            final(self).display_topology_manager.phase() == old(self).display_topology_manager.phase(),
            final(self).display_topology_manager.quarantine_stats == if held {
                counted(old(self).display_topology_manager.quarantine_stats, *event)
            } else {
                old(self).display_topology_manager.quarantine_stats
            },
            final(self).layout_engine == old(self).layout_engine,
            final(self).space_manager == old(self).space_manager,
            final(self).menu_manager == old(self).menu_manager,
            final(self).transaction_manager == old(self).transaction_manager,
            final(self).in_drag == old(self).in_drag,
            final(self).minimized == old(self).minimized,
    {
        if !self.display_topology_manager.is_quarantining() {
            return false;
        }
        match event {
            WindowEvent::WindowCreated(_) => self.display_topology_manager.quarantine_appeared(),
            WindowEvent::WindowDestroyed(_) => self.display_topology_manager.quarantine_destroyed(),
            WindowEvent::WindowFrameChanged(..) => {},
            WindowEvent::WindowsDiscovered(_) => self.display_topology_manager.quarantine_resync(),
        }
        true
    }

    /// Handles `event`.
    pub fn handle_event(&mut self, event: Event) -> (resp: Response)
        requires
            old(self).wf(),
        ensures
            final(self).wf(),
            final(self).transaction_manager == old(self).transaction_manager,
            final(self).in_drag == (old(self).in_drag && !(event is MouseUp)),
            handled(*old(self), event, *final(self)),
            match event {
                Event::ScreenParametersChanged(screens) => {
                    let spaces = old(self).space_manager@.after_screen_parameters(screens@);
                    &&& final(self).display_topology_manager.phase() == old(
                        self,
                    ).display_topology_manager.phase().after_snapshot()
                    &&& final(self).display_topology_manager.quarantine_stats == old(
                        self,
                    ).display_topology_manager.quarantine_stats
                    &&& final(self).space_manager@ == spaces
                    &&& final(self).layout_engine@ == registered(
                        old(self).layout_engine@,
                        spaces_of(spaces.screens),
                    )
                    &&& final(self).menu_manager == old(self).menu_manager
                    &&& resp.event_tap is None
                    &&& resp.get_visible_windows@.no_duplicates()
                    &&& forall|p: Pid| #[trigger]
                        resp.get_visible_windows@.contains(p) <==> needs_refresh(
                            old(self).space_manager@.fullscreen,
                            old(self).space_manager@.raw,
                            spaces_of(screens@),
                            p,
                        )
                },
                Event::SpaceChanged(next) => {
                    let spaces = old(self).space_manager@.after_space_changed(next@);
                    &&& final(self).display_topology_manager == old(self).display_topology_manager
                    &&& final(self).space_manager@ == spaces
                    &&& final(self).layout_engine@ == registered(
                        old(self).layout_engine@,
                        spaces_of(spaces.screens),
                    )
                    &&& final(self).menu_manager == old(self).menu_manager
                    &&& resp.event_tap is None
                    &&& resp.get_visible_windows@.no_duplicates()
                    &&& forall|p: Pid| #[trigger]
                        resp.get_visible_windows@.contains(p) <==> (next@.len()
                            == old(self).space_manager@.screens.len() && next@ != old(self).space_manager@.raw
                            && needs_refresh(
                            old(self).space_manager@.fullscreen,
                            old(self).space_manager@.raw,
                            next@,
                            p,
                        ))
                },
                Event::WindowDestroyed(w) => {
                    &&& final(self).display_topology_manager.phase() == old(
                        self,
                    ).display_topology_manager.phase()
                    &&& final(self).space_manager@ == old(self).space_manager@
                    &&& final(self).menu_manager == old(self).menu_manager
                    &&& resp.event_tap is None
                    &&& resp.get_visible_windows@.len() == 0
                    &&& if old(self).display_topology_manager.phase().quarantining() {
                        &&& final(self).display_topology_manager.quarantine_stats == counted(
                            old(self).display_topology_manager.quarantine_stats,
                            WindowEvent::WindowDestroyed(w),
                        )
                        &&& final(self).layout_engine@ == old(self).layout_engine@
                    } else {
                        &&& final(self).display_topology_manager.quarantine_stats == old(
                            self,
                        ).display_topology_manager.quarantine_stats
                        &&& final(self).layout_engine@ == old(self).layout_engine@.after_remove_window(w)
                    }
                },
                Event::WindowsDiscovered { pid, visible, minimized } => {
                    &&& final(self).display_topology_manager.phase() == old(
                        self,
                    ).display_topology_manager.phase()
                    &&& final(self).space_manager@ == old(self).space_manager@
                    &&& final(self).menu_manager == old(self).menu_manager
                    &&& resp.event_tap is None
                    &&& resp.get_visible_windows@.len() == 0
                    &&& if old(self).display_topology_manager.phase().quarantining() {
                        &&& final(self).display_topology_manager.quarantine_stats == counted(
                            old(self).display_topology_manager.quarantine_stats,
                            WindowEvent::WindowsDiscovered(pid),
                        )
                        &&& final(self).layout_engine@ == old(self).layout_engine@
                    } else {
                        &&& final(self).display_topology_manager.quarantine_stats == old(
                            self,
                        ).display_topology_manager.quarantine_stats
                        &&& final(self).layout_engine@ == after_discovery(
                            minimized_all(old(self).layout_engine@, minimized@),
                            old(self).space_manager@.screens,
                            pid,
                            visible@,
                        )
                    }
                },
                Event::MouseUp => {
                    &&& resp.event_tap is None
                    &&& resp.get_visible_windows@.len() == 0
                    &&& final(self).menu_manager == old(self).menu_manager
                    &&& final(self).display_topology_manager == old(self).display_topology_manager
                    &&& final(self).space_manager@ == old(self).space_manager@
                    &&& final(self).layout_engine@ == old(self).layout_engine@
                },
                _ => {
                    let (state, req) = menu_step(old(self).menu_manager.menu_state, as_menu_event(event)->0);
                    &&& final(self).menu_manager.menu_state == state
                    &&& resp.event_tap == req
                    &&& resp.get_visible_windows@.len() == 0
                    &&& final(self).display_topology_manager == old(self).display_topology_manager
                    &&& final(self).space_manager@ == old(self).space_manager@
                    &&& final(self).layout_engine@ == old(self).layout_engine@
                },
            },
    {
        match event {
            Event::ScreenParametersChanged(screens) => {
                self.display_topology_manager.commit_snapshot();
                let pids = self.space_manager.screen_parameters_changed(screens);
                self.register_screen_spaces();
                Response { event_tap: None, get_visible_windows: pids }
            },
            Event::SpaceChanged(next) => {
                let pids = self.space_manager.space_changed(next);
                self.register_screen_spaces();
                Response { event_tap: None, get_visible_windows: pids }
            },
            Event::WindowDestroyed(w) => {
                if !self.maybe_quarantine_during_churn(&WindowEvent::WindowDestroyed(w)) {
                    self.layout_engine.remove_window(w);
                    self.unmark_minimized(w);
                }
                Response { event_tap: None, get_visible_windows: Vec::new() }
            },
            Event::WindowsDiscovered { pid, visible, minimized } => {
                if !self.maybe_quarantine_during_churn(&WindowEvent::WindowsDiscovered(pid)) {
                    self.windows_minimized(&minimized, &visible);
                    self.emit_layout_events(pid, &visible);
                }
                Response { event_tap: None, get_visible_windows: Vec::new() }
            },
            Event::MouseUp => {
                self.in_drag = false;
                Response { event_tap: None, get_visible_windows: Vec::new() }
            },
            Event::MenuOpened(p) => {
                let req = self.menu_manager.handle(MenuEvent::MenuOpened(p));
                Response { event_tap: req, get_visible_windows: Vec::new() }
            },
            Event::MenuClosed(p) => {
                let req = self.menu_manager.handle(MenuEvent::MenuClosed(p));
                Response { event_tap: req, get_visible_windows: Vec::new() }
            },
            Event::ApplicationDeactivated(p) => {
                let req = self.menu_manager.handle(MenuEvent::ApplicationDeactivated(p));
                Response { event_tap: req, get_visible_windows: Vec::new() }
            },
            Event::ApplicationGloballyActivated(p) => {
                let req = self.menu_manager.handle(MenuEvent::ApplicationGloballyActivated(p));
                Response { event_tap: req, get_visible_windows: Vec::new() }
            },
        }
    }

    /// A window's frame changed to `frame`, answering write `txid` if it
    /// carries one; returns whether the change came from outside the
    /// reactor. Changes are held back while displays are reconfigured; a
    /// change from outside while the mouse button is down starts a drag.
    pub fn handle_window_frame_changed(
        &mut self,
        w: WindowServerId,
        frame: Rect,
        txid: Option<TransactionId>,
        mouse: Option<MouseState>,
    ) -> (changed: bool)
        requires
            old(self).wf(),
        ensures
            final(self).wf(),
            final(self).layout_engine == old(self).layout_engine,
            final(self).space_manager == old(self).space_manager,
            final(self).menu_manager == old(self).menu_manager,
            final(self).display_topology_manager == old(self).display_topology_manager,
            if old(self).display_topology_manager.phase().quarantining() {
                &&& !changed
                &&& final(self).transaction_manager@ == old(self).transaction_manager@
                &&& final(self).in_drag == old(self).in_drag
            } else {
                let (kind, rec) = classify(record_of(old(self).transaction_manager@, w), frame, txid, mouse);
                &&& changed == (kind is External)
                &&& final(self).transaction_manager@ == if kind == FrameChange::OwnWriteDone {
                    old(self).transaction_manager@.insert(w, rec)
                } else {
                    old(self).transaction_manager@
                }
                &&& final(self).in_drag == (old(self).in_drag || kind == FrameChange::External { dragging: true })
            },
    {
        if self.display_topology_manager.is_quarantining() {
            return false;
        }
        match self.transaction_manager.frame_changed(w, frame, txid, mouse) {
            FrameChange::External { dragging } => {
                if dragging {
                    self.in_drag = true;
                }
                true
            },
            _ => false,
        }
    }

    /// Marks `w` minimized.
    fn mark_minimized(&mut self, w: WindowId)
        ensures
            forall|x: WindowId| #[trigger] final(self).minimized@.contains(x) <==> old(self).minimized@.contains(x) || x == w,
            final(self).layout_engine == old(self).layout_engine,
            final(self).space_manager == old(self).space_manager,
            final(self).menu_manager == old(self).menu_manager,
            final(self).display_topology_manager == old(self).display_topology_manager,
            final(self).transaction_manager == old(self).transaction_manager,
            final(self).in_drag == old(self).in_drag,
    {
        if !window_listed_in(&self.minimized, w) {
            let ghost prev = self.minimized@;
            self.minimized.push(w);
            proof {
                assert forall|x: WindowId| #[trigger] self.minimized@.contains(x) <==> prev.contains(x) || x == w by {
                    if prev.contains(x) {
                        let k = choose|k: int| 0 <= k < prev.len() && prev[k] == x;
                        assert(self.minimized@[k] == x);
                    }
                    if x == w {
                        assert(self.minimized@[prev.len() as int] == x);
                    }
                    if self.minimized@.contains(x) {
                        let k = choose|k: int| 0 <= k < self.minimized@.len() && self.minimized@[k] == x;
                        if k < prev.len() {
                            assert(prev[k] == x);
                        }
                    }
                }
            }
        }
    }

    /// Clears the minimized mark of `w`.
    fn unmark_minimized(&mut self, w: WindowId)
        ensures
            forall|x: WindowId| #[trigger] final(self).minimized@.contains(x) <==> old(self).minimized@.contains(x) && x != w,
            final(self).layout_engine == old(self).layout_engine,
            final(self).space_manager == old(self).space_manager,
            final(self).menu_manager == old(self).menu_manager,
            final(self).display_topology_manager == old(self).display_topology_manager,
            final(self).transaction_manager == old(self).transaction_manager,
            final(self).in_drag == old(self).in_drag,
    {
        let mut kept: Vec<WindowId> = Vec::new();
        let mut i: usize = 0;
        while i < self.minimized.len()
            invariant
                i <= self.minimized@.len(),
                forall|x: WindowId| #[trigger] kept@.contains(x) <==> (exists|k: int| 0 <= k < i && self.minimized@[k] == x) && x != w,
            decreases self.minimized@.len() - i,
        {
            let x = self.minimized[i];
            let ghost before = kept@;
            if x != w {
                kept.push(x);
            }
            proof {
                assert forall|y: WindowId| #[trigger] kept@.contains(y) <==> (exists|k: int| 0 <= k < i + 1 && self.minimized@[k] == y) && y != w by {
                    if before.contains(y) {
                        let k = choose|k: int| 0 <= k < before.len() && before[k] == y;
                        assert(kept@[k] == y);
                    }
                    if kept@.contains(y) && !before.contains(y) {
                        let k = choose|k: int| 0 <= k < kept@.len() && kept@[k] == y;
                        if k < before.len() {
                            assert(before[k] == y);
                        }
                        assert(self.minimized@[i as int] == y);
                    }
                    if (exists|k: int| 0 <= k < i + 1 && self.minimized@[k] == y) && y != w {
                        let k = choose|k: int| 0 <= k < i + 1 && self.minimized@[k] == y;
                        if k == i {
                            assert(kept@[before.len() as int] == y);
                        }
                    }
                }
            }
            i = i + 1;
        }
        proof {
            assert forall|x: WindowId| #[trigger] kept@.contains(x) <==> self.minimized@.contains(x) && x != w by {
                if self.minimized@.contains(x) {
                    let k = choose|k: int| 0 <= k < self.minimized@.len() && self.minimized@[k] == x;
                }
            }
        }
        self.minimized = kept;
    }

    /// A discovery reported the windows `minimized` minimized and `visible`
    /// on screen: the minimized ones leave the layout and are marked, the
    /// visible ones are no longer marked.
    fn windows_minimized(&mut self, minimized: &Vec<WindowId>, visible: &Vec<(WindowId, Rect)>)
        requires
            old(self).wf(),
        ensures
            final(self).wf(),
            final(self).layout_engine@ == minimized_all(old(self).layout_engine@, minimized@),
            forall|x: WindowId| #[trigger] final(self).minimized@.contains(x) <==> marked_minimized(
                old(self).minimized@,
                minimized@,
                visible@,
                x,
            ),
            final(self).space_manager == old(self).space_manager,
            final(self).menu_manager == old(self).menu_manager,
            final(self).display_topology_manager == old(self).display_topology_manager,
            final(self).transaction_manager == old(self).transaction_manager,
            final(self).in_drag == old(self).in_drag,
    {
        let ghost m0 = self.layout_engine@;
        let ghost prev = self.minimized@;
        let mut i: usize = 0;
        while i < minimized.len()
            invariant
                self.wf(),
                i <= minimized@.len(),
                self.layout_engine@ == minimized_all(m0, minimized@.take(i as int)),
                forall|x: WindowId| #[trigger] self.minimized@.contains(x) <==> prev.contains(x) || minimized@.take(i as int).contains(x),
                self.space_manager == old(self).space_manager,
                self.menu_manager == old(self).menu_manager,
                self.display_topology_manager == old(self).display_topology_manager,
                self.transaction_manager == old(self).transaction_manager,
                self.in_drag == old(self).in_drag,
            decreases minimized@.len() - i,
        {
            let w = minimized[i];
            proof {
                let t = minimized@.take(i as int);
                let t2 = minimized@.take(i + 1);
                assert(t2.drop_last() =~= t);
                assert(t2.last() == w);
                assert forall|x: WindowId| #[trigger] t2.contains(x) <==> t.contains(x) || x == w by {
                    if t2.contains(x) {
                        let k = choose|k: int| 0 <= k < t2.len() && t2[k] == x;
                        if k < t.len() {
                            assert(t[k] == x);
                        }
                    }
                    if t.contains(x) {
                        let k = choose|k: int| 0 <= k < t.len() && t[k] == x;
                        assert(t2[k] == x);
                    }
                    if x == w {
                        assert(t2[i as int] == x);
                    }
                }
            }
            self.layout_engine.minimize_window(w);
            self.mark_minimized(w);
            i = i + 1;
        }
        proof {
            assert(minimized@.take(i as int) =~= minimized@);
        }
        let ghost marked = self.minimized@;
        let mut k: usize = 0;
        while k < visible.len()
            invariant
                self.wf(),
                k <= visible@.len(),
                self.layout_engine@ == minimized_all(m0, minimized@),
                forall|x: WindowId| #[trigger] self.minimized@.contains(x) <==> marked.contains(x) && !exists|j: int|
                    0 <= j < k && visible@[j].0 == x,
                forall|x: WindowId| #[trigger] marked.contains(x) <==> prev.contains(x) || minimized@.contains(x),
                self.space_manager == old(self).space_manager,
                self.menu_manager == old(self).menu_manager,
                self.display_topology_manager == old(self).display_topology_manager,
                self.transaction_manager == old(self).transaction_manager,
                self.in_drag == old(self).in_drag,
            decreases visible@.len() - k,
        {
            let w = visible[k].0;
            self.unmark_minimized(w);
            proof {
                assert forall|x: WindowId| #[trigger] self.minimized@.contains(x) <==> marked.contains(x) && !exists|j: int|
                    0 <= j < k + 1 && visible@[j].0 == x by {
                    if exists|j: int| 0 <= j < k + 1 && visible@[j].0 == x {
                        let j = choose|j: int| 0 <= j < k + 1 && visible@[j].0 == x;
                        if j < k {
                        }
                    }
                }
            }
            k = k + 1;
        }
    }

    /// Whether window `w` is marked minimized.
    pub fn is_window_minimized(&self, w: WindowId) -> (r: bool)
        ensures
            r == self.minimized@.contains(w),
    {
        window_listed_in(&self.minimized, w)
    }

    /// Whether the user is dragging a window.
    pub fn is_in_drag(&self) -> (r: bool)
        ensures
            r == self.in_drag,
    {
        self.in_drag
    }

    /// Application `pid` was seen with the visible windows `visible`, each
    /// with its frame: every window is claimed by the space its frame puts it
    /// on, then every display reports the application's windows on its space.
    pub fn emit_layout_events(&mut self, pid: Pid, visible: &Vec<(WindowId, Rect)>)
        requires
            old(self).wf(),
        ensures
            final(self).wf(),
            final(self).layout_engine@ == after_discovery(
                old(self).layout_engine@,
                old(self).space_manager@.screens,
                pid,
                visible@,
            ),
            final(self).space_manager == old(self).space_manager,
            final(self).menu_manager == old(self).menu_manager,
            final(self).display_topology_manager == old(self).display_topology_manager,
            final(self).transaction_manager == old(self).transaction_manager,
            final(self).in_drag == old(self).in_drag,
            final(self).minimized == old(self).minimized,
    {
        let screens = self.space_manager.screens();
        let ghost sc = screens@;
        // The space each window is on.
        let mut spaces: Vec<Option<SpaceId>> = Vec::new();
        let mut i: usize = 0;
        while i < visible.len()
            invariant
                i <= visible@.len(),
                screens@ == sc,
                spaces@.len() == i,
                forall|q: int| 0 <= q < i ==> #[trigger] spaces@[q] == space_for_frame(sc, visible@[q].1),
            decreases visible@.len() - i,
        {
            let frame = visible[i].1;
            let s = match locate_screen(screens, &frame) {
                Some(k) => screens[k].space,
                None => None,
            };
            proof {
                reveal(space_for_frame);
            }
            spaces.push(s);
            i = i + 1;
        }
        // Claim every window for its space.
        let ghost m0 = self.layout_engine@;
        let mut i: usize = 0;
        while i < visible.len()
            invariant
                self.wf(),
                i <= visible@.len(),
                spaces@.len() == visible@.len(),
                forall|q: int| 0 <= q < visible@.len() ==> #[trigger] spaces@[q] == space_for_frame(sc, visible@[q].1),
                self.layout_engine@ == claimed_all(m0, sc, visible@.take(i as int)),
                self.space_manager@.screens == sc,
                self.space_manager == old(self).space_manager,
                self.menu_manager == old(self).menu_manager,
                self.display_topology_manager == old(self).display_topology_manager,
                self.transaction_manager == old(self).transaction_manager,
                self.in_drag == old(self).in_drag,
                self.minimized == old(self).minimized,
            decreases visible@.len() - i,
        {
            proof {
                assert(visible@.take(i + 1).drop_last() =~= visible@.take(i as int));
                assert(visible@.take(i + 1).last() == visible@[i as int]);
            }
            match spaces[i] {
                Some(s) => self.layout_engine.claim_window(s, visible[i].0),
                None => {},
            }
            i = i + 1;
        }
        proof {
            assert(visible@.take(i as int) =~= visible@);
        }
        // Every display reports the application's windows on its space.
        let ghost m1 = self.layout_engine@;
        let mut k: usize = 0;
        while k < self.space_manager.screens().len()
            invariant
                self.wf(),
                spaces@.len() == visible@.len(),
                forall|q: int| 0 <= q < visible@.len() ==> #[trigger] spaces@[q] == space_for_frame(sc, visible@[q].1),
                self.space_manager@.screens == sc,
                k <= sc.len(),
                self.layout_engine@ == updated_spaces(m1, sc.take(k as int), sc, pid, visible@),
                self.space_manager == old(self).space_manager,
                self.menu_manager == old(self).menu_manager,
                self.display_topology_manager == old(self).display_topology_manager,
                self.transaction_manager == old(self).transaction_manager,
                self.in_drag == old(self).in_drag,
                self.minimized == old(self).minimized,
            decreases sc.len() - k,
        {
            proof {
                assert(sc.take(k + 1).drop_last() =~= sc.take(k as int));
                assert(sc.take(k + 1).last() == sc[k as int]);
            }
            match self.space_manager.screens()[k].space {
                Some(s) => {
                    let mut list: Vec<WindowId> = Vec::new();
                    let mut i: usize = 0;
                    while i < visible.len()
                        invariant
                            i <= visible@.len(),
                            spaces@.len() == visible@.len(),
                            forall|q: int|
                                0 <= q < visible@.len() ==> #[trigger] spaces@[q] == space_for_frame(sc, visible@[q].1),
                            list@ == windows_on(sc, visible@.take(i as int), s),
                        decreases visible@.len() - i,
                    {
                        proof {
                            assert(visible@.take(i + 1).drop_last() =~= visible@.take(i as int));
                            assert(visible@.take(i + 1).last() == visible@[i as int]);
                        }
                        match spaces[i] {
                            Some(x) => {
                                if x == s {
                                    list.push(visible[i].0);
                                }
                            },
                            None => {},
                        }
                        i = i + 1;
                    }
                    proof {
                        assert(visible@.take(i as int) =~= visible@);
                    }
                    self.layout_engine.windows_on_screen_updated(s, pid, &list);
                },
                None => {},
            }
            k = k + 1;
        }
        proof {
            assert(sc.take(k as int) =~= sc);
        }
    }

    /// The spaces the displays show, in display order.
    pub fn raw_spaces_for_current_screens(&self) -> (r: Vec<Option<SpaceId>>)
        ensures
            r@ == spaces_of(self.space_manager@.screens),
    {
        self.space_manager.raw_spaces_for_current_screens()
    }

    /// Whether some display shows `space`.
    pub fn is_space_active(&self, space: SpaceId) -> (r: bool)
        ensures
            r == self.space_manager@.is_space_active(space),
    {
        self.space_manager.is_space_active(space)
    }

    /// The display that `sel` names.
    pub fn screen_for_selector(&self, sel: &DisplaySelector) -> (r: Option<ScreenInfo>)
        ensures
            match r {
                Some(s) => exists|k: usize|
                    {
                        &&& selects(self.space_manager@.screens, *sel, Some(k))
                        &&& s == self.space_manager@.screens[k as int]
                    },
                None => selects(self.space_manager@.screens, *sel, None),
            },
    {
        let screens = self.space_manager.screens();
        match screen_for_selector(screens, sel) {
            Some(k) => {
                let s = &screens[k];
                Some(screen_with_space(s, s.space))
            },
            None => None,
        }
    }

    /// The request to raise `raise_windows` (each with its frame) and focus
    /// `focus_window`, with the windows grouped by application and display.
    pub fn handle_layout_response(&self, raise_windows: &Vec<(WindowId, Rect)>, focus_window: Option<WindowId>) -> (r:
        RaiseRequest)
        ensures
            r.raise_windows@.len() == grouped(raise_items(self.space_manager@.screens, raise_windows@)).len(),
            forall|i: int|
                0 <= i < r.raise_windows@.len() ==> #[trigger] r.raise_windows@[i]@ == grouped(
                    raise_items(self.space_manager@.screens, raise_windows@),
                )[i].1,
            r.focus_window == focus_window,
            r.app_handles@.no_duplicates(),
            forall|p: Pid| #[trigger] r.app_handles@.contains(p) <==> touches(raise_windows@, focus_window, p),
    {
        build_raise_request(self.space_manager.screens(), raise_windows, focus_window)
    }
}

fn window_listed_in(v: &Vec<WindowId>, w: WindowId) -> (r: bool)
    ensures
        r == v@.contains(w),
{
    let mut i: usize = 0;
    while i < v.len()
        invariant
            i <= v@.len(),
            forall|j: int| 0 <= j < i ==> v@[j] != w,
        decreases v@.len() - i,
    {
        if v[i] == w {
            assert(v@[i as int] == w);
            return true;
        }
        i = i + 1;
    }
    false
}

/// Whether some window of application `pid` is laid out on `space`.
pub fn has_windows_in_layout(reactor: &Reactor, space: SpaceId, pid: Pid) -> (r: bool)
    requires
        reactor.wf(),
    ensures
        r == exists|i: int|
            0 <= i < reactor.layout_engine@.layout_of(space).len() && reactor.layout_engine@.layout_of(
                space,
            )[i].pid == pid,
{
    let wins = reactor.layout_engine.windows_in_active_workspace(space);
    let mut i: usize = 0;
    while i < wins.len()
        invariant
            i <= wins@.len(),
            wins@ == reactor.layout_engine@.layout_of(space),
            forall|j: int| 0 <= j < i ==> wins@[j].pid != pid,
        decreases wins@.len() - i,
    {
        if wins[i].pid == pid {
            return true;
        }
        i = i + 1;
    }
    false
}

/// Whether window `wid` is laid out on `space`.
pub fn has_window_in_layout(reactor: &Reactor, space: SpaceId, wid: WindowId) -> (r: bool)
    requires
        reactor.wf(),
    ensures
        r == reactor.layout_engine@.layout_of(space).contains(wid),
{
    let wins = reactor.layout_engine.windows_in_active_workspace(space);
    let mut i: usize = 0;
    while i < wins.len()
        invariant
            i <= wins@.len(),
            wins@ == reactor.layout_engine@.layout_of(space),
            forall|j: int| 0 <= j < i ==> wins@[j] != wid,
        decreases wins@.len() - i,
    {
        if wins[i] == wid {
            assert(wins@[i as int] == wid);
            return true;
        }
        i = i + 1;
    }
    false
}

} // verus!
