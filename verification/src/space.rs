use vstd::prelude::*;

use std::collections::HashMap;

use crate::assoc::{assoc_map, keys_unique, lemma_assoc_absent, lemma_assoc_lookup, lemma_assoc_push, lemma_assoc_update};
use crate::ids::{Pid, SpaceId, WindowId};
use crate::screen::{screen_with_space, ScreenInfo};

verus! {

/// A window that went native fullscreen.
#[derive(Clone, Copy, Debug, PartialEq, Eq, Structural)]
pub struct FullscreenWindowTrack {
    pub pid: Pid,
    pub window_id: Option<WindowId>,
    pub last_known_user_space: Option<SpaceId>,
    pub last_seen_fullscreen_space: SpaceId,
}

/// The windows known to live on a native fullscreen space.
#[derive(Debug)]
pub struct FullscreenSpaceTrack {
    pub windows: Vec<FullscreenWindowTrack>,
}

impl FullscreenSpaceTrack {
    pub fn new() -> (t: FullscreenSpaceTrack)
        ensures
            t.windows@ == Seq::<FullscreenWindowTrack>::empty(),
    {
        FullscreenSpaceTrack { windows: Vec::new() }
    }
}

/// What the space manager knows, as mathematical values.
pub ghost struct SpaceModel {
    /// The displays, each with the space it is taken to show.
    pub screens: Seq<ScreenInfo>,
    /// The spaces of the last snapshot, as reported.
    pub raw: Seq<Option<SpaceId>>,
    /// The native fullscreen spaces, by space id.
    pub fullscreen: Map<u64, FullscreenSpaceTrack>,
    /// The last user space each display (by uuid) showed.
    pub history: Map<Seq<char>, SpaceId>,
    /// Whether the set of displays changed and the layout awaits a relayout.
    pub relayout_pending: bool,
}

/// The spaces the displays show.
pub open spec fn spaces_of(screens: Seq<ScreenInfo>) -> Seq<Option<SpaceId>> {
    Seq::new(screens.len(), |i: int| screens[i].space)
}

/// The displays' uuids.
pub open spec fn uuids_of(screens: Seq<ScreenInfo>) -> Seq<Seq<char>> {
    Seq::new(screens.len(), |i: int| screens[i].display_uuid@)
}

/// The displays, showing `spaces`.
pub open spec fn with_spaces(screens: Seq<ScreenInfo>, spaces: Seq<Option<SpaceId>>) -> Seq<ScreenInfo> {
    Seq::new(screens.len(), |i: int| ScreenInfo { space: spaces[i], ..screens[i] })
}

/// Whether `s` is a native fullscreen space.
pub open spec fn is_fullscreen_space(fullscreen: Map<u64, FullscreenSpaceTrack>, s: Option<SpaceId>) -> bool {
    match s {
        Some(sp) => fullscreen.contains_key(sp.id),
        None => false,
    }
}

/// Whether the snapshot `next` shows a fullscreen space on a display that
/// showed something else in the snapshot `prev`: a display is entering
/// fullscreen.
pub open spec fn entering_fullscreen(
    prev: Seq<Option<SpaceId>>,
    next: Seq<Option<SpaceId>>,
    fullscreen: Map<u64, FullscreenSpaceTrack>,
) -> bool {
    &&& prev.len() == next.len()
    &&& exists|j: int| 0 <= j < next.len() && is_fullscreen_space(fullscreen, next[j]) && prev[j] != next[j]
}

/// The spaces the displays are taken to show after the snapshot `next`: a
/// fullscreen space is shown as no space; while a display enters fullscreen
/// the other displays keep the spaces they showed (`shown`), since macOS
/// reports transient user spaces for them meanwhile; otherwise the snapshot
/// is taken as it is.
pub open spec fn accepted_spaces(
    shown: Seq<Option<SpaceId>>,
    prev: Seq<Option<SpaceId>>,
    next: Seq<Option<SpaceId>>,
    fullscreen: Map<u64, FullscreenSpaceTrack>,
) -> Seq<Option<SpaceId>> {
    Seq::new(
        next.len(),
        |i: int|
            if is_fullscreen_space(fullscreen, next[i]) {
                None
            } else if entering_fullscreen(prev, next, fullscreen) && shown.len() == next.len() {
                shown[i]
            } else {
                next[i]
            },
    )
}

/// Whether the fullscreen space `id` was shown in `prev` and is gone in `next`.
pub open spec fn left_space(prev: Seq<Option<SpaceId>>, next: Seq<Option<SpaceId>>, id: u64) -> bool {
    prev.contains(Some(SpaceId { id })) && !next.contains(Some(SpaceId { id }))
}

/// The fullscreen spaces that remain tracked after the snapshot `next`.
pub open spec fn remaining_fullscreen(
    fullscreen: Map<u64, FullscreenSpaceTrack>,
    prev: Seq<Option<SpaceId>>,
    next: Seq<Option<SpaceId>>,
) -> Map<u64, FullscreenSpaceTrack> {
    Map::new(|id: u64| fullscreen.contains_key(id) && !left_space(prev, next, id), |id: u64| fullscreen[id])
}

/// Whether application `pid` had a window on a fullscreen space that the
/// snapshot `next` left: its windows are to be listed again.
pub open spec fn needs_refresh(
    fullscreen: Map<u64, FullscreenSpaceTrack>,
    prev: Seq<Option<SpaceId>>,
    next: Seq<Option<SpaceId>>,
    pid: Pid,
) -> bool {
    exists|id: u64|
        #![trigger fullscreen[id]]
        fullscreen.contains_key(id) && left_space(prev, next, id) && exists|k: int|
            0 <= k < fullscreen[id].windows@.len() && fullscreen[id].windows@[k].pid == pid
}

/// The history after the displays `screens` showed their spaces: each display
/// that shows a space records it (a later display with the same uuid wins).
pub open spec fn recorded_history(history: Map<Seq<char>, SpaceId>, screens: Seq<ScreenInfo>) -> Map<
    Seq<char>,
    SpaceId,
>
    decreases screens.len(),
{
    if screens.len() == 0 {
        history
    } else {
        let h = recorded_history(history, screens.drop_last());
        match screens.last().space {
            Some(s) => h.insert(screens.last().display_uuid@, s),
            None => h,
        }
    }
}

impl SpaceModel {
    /// The displays reported `screens`.
    pub open spec fn after_screen_parameters(self, screens: Seq<ScreenInfo>) -> SpaceModel {
        let next = spaces_of(screens);
        let accepted = accepted_spaces(spaces_of(self.screens), self.raw, next, self.fullscreen);
        let shown = with_spaces(screens, accepted);
        SpaceModel {
            screens: shown,
            raw: next,
            fullscreen: remaining_fullscreen(self.fullscreen, self.raw, next),
            history: recorded_history(self.history, shown),
            relayout_pending: self.relayout_pending || (self.screens.len() > 0 && uuids_of(self.screens)
                != uuids_of(screens)),
        }
    }

    /// The displays now show the spaces `next`; a snapshot of another length
    /// than the display list, or equal to the last one, is ignored.
    pub open spec fn after_space_changed(self, next: Seq<Option<SpaceId>>) -> SpaceModel {
        if next.len() != self.screens.len() || next == self.raw {
            self
        } else {
            let accepted = accepted_spaces(spaces_of(self.screens), self.raw, next, self.fullscreen);
            let shown = with_spaces(self.screens, accepted);
            SpaceModel {
                screens: shown,
                raw: next,
                fullscreen: remaining_fullscreen(self.fullscreen, self.raw, next),
                history: recorded_history(self.history, shown),
                relayout_pending: self.relayout_pending,
            }
        }
    }

    /// Whether some display shows `space`.
    pub open spec fn is_space_active(self, space: SpaceId) -> bool {
        exists|i: int| 0 <= i < self.screens.len() && self.screens[i].space == Some(space)
    }
}


/// What the history holds for uuid `u` after displays `screens` recorded
/// their spaces: the space of the last display with uuid `u` that shows one,
/// or what it held before when no such display shows a space.
pub proof fn lemma_recorded_history(history: Map<Seq<char>, SpaceId>, screens: Seq<ScreenInfo>, u: Seq<char>)
    ensures
        (forall|i: int| 0 <= i < screens.len() && screens[i].display_uuid@ == u ==> screens[i].space is None)
            ==> (recorded_history(history, screens).contains_key(u) == history.contains_key(u)
            && recorded_history(history, screens)[u] == history[u]),
        forall|i: int|
            0 <= i < screens.len() && screens[i].display_uuid@ == u && screens[i].space is Some && (forall|j: int|
                i < j < screens.len() && screens[j].display_uuid@ == u ==> screens[j].space is None) ==> (
            recorded_history(history, screens).contains_key(u) && recorded_history(history, screens)[u]
                == screens[i].space->0),
    decreases screens.len(),
{
    if screens.len() > 0 {
        let t = screens.drop_last();
        lemma_recorded_history(history, t, u);
        assert forall|i: int| 0 <= i < t.len() implies #[trigger] t[i] == screens[i] by {}
        let last = screens.last();
        assert forall|i: int|
            0 <= i < screens.len() && screens[i].display_uuid@ == u && screens[i].space is Some && (forall|j: int|
                i < j < screens.len() && screens[j].display_uuid@ == u ==> screens[j].space is None) implies (
            recorded_history(history, screens).contains_key(u) && recorded_history(history, screens)[u]
                == screens[i].space->0) by {
            if i < t.len() {
                assert(t[i] == screens[i]);
                assert forall|j: int| i < j < t.len() && t[j].display_uuid@ == u implies t[j].space is None by {
                    assert(t[j] == screens[j]);
                }
                assert(last == screens[screens.len() - 1]);
            }
        }
    }
}

/// A native fullscreen space is never taken as the space a display shows:
/// the display shows no space meanwhile.
pub proof fn law_fullscreen_space_is_never_a_display_space(m: SpaceModel, screens: Seq<ScreenInfo>, next: Seq<
    Option<SpaceId>,
>)
    ensures
        forall|i: int|
            0 <= i < screens.len() && is_fullscreen_space(m.fullscreen, screens[i].space)
                ==> #[trigger] m.after_screen_parameters(screens).screens[i].space is None,
        forall|i: int|
            0 <= i < next.len() && next.len() == m.screens.len() && next != m.raw && is_fullscreen_space(
                m.fullscreen,
                next[i],
            ) ==> #[trigger] m.after_space_changed(next).screens[i].space is None,
{
}

/// While a display enters fullscreen, every other display keeps the space it
/// showed: the user spaces macOS reports for them meanwhile are transient.
pub proof fn law_entering_fullscreen_keeps_other_displays(m: SpaceModel, next: Seq<Option<SpaceId>>, i: int)
    requires
        next.len() == m.screens.len(),
        next != m.raw,
        entering_fullscreen(m.raw, next, m.fullscreen),
        0 <= i < next.len(),
        !is_fullscreen_space(m.fullscreen, next[i]),
    ensures
        m.after_space_changed(next).screens[i].space == m.screens[i].space,
{
}

/// When no display is entering fullscreen (a display already in fullscreen
/// stays there), the other displays take the user spaces reported for them.
pub proof fn law_user_space_switch_accepted_beside_fullscreen(m: SpaceModel, next: Seq<Option<SpaceId>>, i: int)
    requires
        next.len() == m.screens.len(),
        next != m.raw,
        !entering_fullscreen(m.raw, next, m.fullscreen),
        0 <= i < next.len(),
        !is_fullscreen_space(m.fullscreen, next[i]),
    ensures
        m.after_space_changed(next).screens[i].space == next[i],
{
}

/// A snapshot equal to the last one changes nothing.
pub proof fn law_duplicate_space_snapshot_is_ignored(m: SpaceModel)
    ensures
        m.after_space_changed(m.raw) == m,
        forall|p: Pid| !needs_refresh(m.fullscreen, m.raw, m.raw, p),
{
}

/// A display showing a fullscreen space does not replace the user space its
/// uuid last showed.
pub proof fn law_fullscreen_keeps_display_history(m: SpaceModel, screens: Seq<ScreenInfo>, u: Seq<char>)
    requires
        forall|i: int|
            0 <= i < screens.len() && screens[i].display_uuid@ == u ==> is_fullscreen_space(
                m.fullscreen,
                screens[i].space,
            ),
    ensures
        m.after_screen_parameters(screens).history.contains_key(u) == m.history.contains_key(u),
        m.after_screen_parameters(screens).history[u] == m.history[u],
{
    let m2 = m.after_screen_parameters(screens);
    assert forall|i: int| 0 <= i < m2.screens.len() && m2.screens[i].display_uuid@ == u implies m2.screens[i].space is None by {
        assert(m2.screens[i].display_uuid == screens[i].display_uuid);
    }
    lemma_recorded_history(m.history, m2.screens, u);
}

/// Leaving a fullscreen space drops its track and has every application
/// with a window there list its windows again.
pub proof fn law_leaving_fullscreen_refreshes_its_applications(
    m: SpaceModel,
    next: Seq<Option<SpaceId>>,
    id: u64,
    k: int,
)
    requires
        next.len() == m.screens.len(),
        next != m.raw,
        m.fullscreen.contains_key(id),
        left_space(m.raw, next, id),
        0 <= k < m.fullscreen[id].windows@.len(),
    ensures
        !m.after_space_changed(next).fullscreen.contains_key(id),
        needs_refresh(m.fullscreen, m.raw, next, m.fullscreen[id].windows@[k].pid),
{
}

/// Switching the spaces of the same displays is no change of topology: it
/// does not call for a relayout.
pub proof fn law_space_switch_is_not_a_topology_change(m: SpaceModel, screens: Seq<ScreenInfo>)
    requires
        uuids_of(screens) == uuids_of(m.screens),
    ensures
        m.after_screen_parameters(screens).relayout_pending == m.relayout_pending,
{
}


/// Taking one more space of `prev` into account adds exactly that space to
/// those left, when `next` does not show it.
proof fn lemma_left_space_step(prev: Seq<Option<SpaceId>>, next: Seq<Option<SpaceId>>, i: int)
    requires
        0 <= i < prev.len(),
    ensures
        forall|id: u64|
            #[trigger] left_space(prev.take(i + 1), next, id) <==> left_space(prev.take(i), next, id) || (prev[i]
                == Some(SpaceId { id }) && !next.contains(Some(SpaceId { id }))),
{
    let t0 = prev.take(i);
    let t1 = prev.take(i + 1);
    assert(t1 =~= t0.push(prev[i]));
    assert forall|id: u64| #[trigger] t1.contains(Some(SpaceId { id })) <==> t0.contains(Some(SpaceId { id }))
        || prev[i] == Some(SpaceId { id }) by {
        let x = Some(SpaceId { id });
        if t1.contains(x) {
            let k = choose|k: int| 0 <= k < t1.len() && t1[k] == x;
            if k < i {
                assert(t0[k] == x);
            }
        }
        if t0.contains(x) {
            let k = choose|k: int| 0 <= k < t0.len() && t0[k] == x;
            assert(t1[k] == x);
        }
        if prev[i] == x {
            assert(t1[i] == x);
        }
    }
}

/// The displays, the spaces they show, and the native fullscreen spaces.
pub struct SpaceManager {
    screens: Vec<ScreenInfo>,
    raw_spaces: Vec<Option<SpaceId>>,
    fullscreen_by_space: HashMap<u64, FullscreenSpaceTrack>,
    display_history: Vec<(String, SpaceId)>,
    topology_relayout_pending: bool,
}

/// The history list with its keys taken by value.
pub open spec fn history_entries(s: Seq<(String, SpaceId)>) -> Seq<(Seq<char>, SpaceId)> {
    Seq::new(s.len(), |i: int| (s[i].0@, s[i].1))
}

impl View for SpaceManager {
    type V = SpaceModel;

    closed spec fn view(&self) -> SpaceModel {
        SpaceModel {
            screens: self.screens@,
            raw: self.raw_spaces@,
            fullscreen: self.fullscreen_by_space@,
            history: assoc_map(history_entries(self.display_history@)),
            relayout_pending: self.topology_relayout_pending,
        }
    }
}

fn same_space(a: Option<SpaceId>, b: Option<SpaceId>) -> (r: bool)
    ensures
        r == (a == b),
{
    match (a, b) {
        (Some(x), Some(y)) => x.id == y.id,
        (None, None) => true,
        _ => false,
    }
}

fn space_listed(v: &Vec<Option<SpaceId>>, s: Option<SpaceId>) -> (r: bool)
    ensures
        r == v@.contains(s),
{
    let mut i: usize = 0;
    while i < v.len()
        invariant
            i <= v@.len(),
            forall|j: int| 0 <= j < i ==> v@[j] != s,
        decreases v@.len() - i,
    {
        if same_space(v[i], s) {
            assert(v@[i as int] == s);
            return true;
        }
        i = i + 1;
    }
    false
}

fn same_spaces(a: &Vec<Option<SpaceId>>, b: &Vec<Option<SpaceId>>) -> (r: bool)
    ensures
        r == (a@ == b@),
{
    if a.len() != b.len() {
        return false;
    }
    let mut i: usize = 0;
    while i < a.len()
        invariant
            a@.len() == b@.len(),
            i <= a@.len(),
            forall|j: int| 0 <= j < i ==> a@[j] == b@[j],
        decreases a@.len() - i,
    {
        if !same_space(a[i], b[i]) {
            return false;
        }
        i = i + 1;
    }
    assert(a@ =~= b@);
    true
}

fn pid_listed(v: &Vec<Pid>, p: Pid) -> (r: bool)
    ensures
        r == v@.contains(p),
{
    let mut i: usize = 0;
    while i < v.len()
        invariant
            i <= v@.len(),
            forall|j: int| 0 <= j < i ==> v@[j] != p,
        decreases v@.len() - i,
    {
        if v[i] == p {
            assert(v@[i as int] == p);
            return true;
        }
        i = i + 1;
    }
    false
}

impl SpaceManager {
    /// The manager's invariant.
    pub closed spec fn wf(&self) -> bool {
        keys_unique(history_entries(self.display_history@))
    }

    pub fn new() -> (m: SpaceManager)
        ensures
            m.wf(),
            m@.screens == Seq::<ScreenInfo>::empty(),
            m@.raw == Seq::<Option<SpaceId>>::empty(),
            m@.fullscreen == Map::<u64, FullscreenSpaceTrack>::empty(),
            m@.history == Map::<Seq<char>, SpaceId>::empty(),
            !m@.relayout_pending,
    {
        let m = SpaceManager {
            screens: Vec::new(),
            raw_spaces: Vec::new(),
            fullscreen_by_space: HashMap::new(),
            display_history: Vec::new(),
            topology_relayout_pending: false,
        };
        assert(history_entries(m.display_history@) =~= Seq::<(Seq<char>, SpaceId)>::empty());
        assert(assoc_map(history_entries(m.display_history@)) =~= Map::<Seq<char>, SpaceId>::empty());
        m
    }

    /// The displays.
    pub fn screens(&self) -> (r: &Vec<ScreenInfo>)
        ensures
            r@ == self@.screens,
    {
        &self.screens
    }

    /// Whether the set of displays changed since the layout was last settled.
    pub fn topology_relayout_pending(&self) -> (r: bool)
        ensures
            r == self@.relayout_pending,
    {
        self.topology_relayout_pending
    }

    /// The spaces the displays show, in display order.
    pub fn raw_spaces_for_current_screens(&self) -> (r: Vec<Option<SpaceId>>)
        ensures
            r@ == spaces_of(self@.screens),
    {
        let mut r: Vec<Option<SpaceId>> = Vec::new();
        let mut i: usize = 0;
        while i < self.screens.len()
            invariant
                i <= self.screens@.len(),
                r@ == spaces_of(self.screens@).take(i as int),
            decreases self.screens@.len() - i,
        {
            r.push(self.screens[i].space);
            proof {
                assert(r@ =~= spaces_of(self.screens@).take(i + 1));
            }
            i = i + 1;
        }
        proof {
            assert(spaces_of(self.screens@).take(i as int) =~= spaces_of(self.screens@));
        }
        r
    }

    /// Whether some display shows `space`.
    pub fn is_space_active(&self, space: SpaceId) -> (r: bool)
        ensures
            r == self@.is_space_active(space),
    {
        let mut i: usize = 0;
        while i < self.screens.len()
            invariant
                i <= self.screens@.len(),
                forall|j: int| 0 <= j < i ==> self.screens@[j].space != Some(space),
            decreases self.screens@.len() - i,
        {
            if same_space(self.screens[i].space, Some(space)) {
                return true;
            }
            i = i + 1;
        }
        false
    }

    /// Whether the space with id `id` is a tracked native fullscreen space.
    pub fn is_fullscreen_tracked(&self, id: u64) -> (r: bool)
        requires
            self.wf(),
        ensures
            r == self@.fullscreen.contains_key(id),
    {
        self.fullscreen_by_space.contains_key(&id)
    }

    fn is_fullscreen(&self, s: Option<SpaceId>) -> (r: bool)
        requires
            self.wf(),
        ensures
            r == is_fullscreen_space(self@.fullscreen, s),
    {
        match s {
            Some(sp) => self.is_fullscreen_tracked(sp.id),
            None => false,
        }
    }

    /// Records that the space with id `id` is a native fullscreen space
    /// holding `track`'s windows.
    pub fn track_fullscreen_space(&mut self, id: u64, track: FullscreenSpaceTrack)
        requires
            old(self).wf(),
        ensures
            final(self).wf(),
            final(self)@ == (SpaceModel { fullscreen: old(self)@.fullscreen.insert(id, track), ..old(self)@ }),
    {
        self.fullscreen_by_space.insert(id, track);
    }

    /// The last user space the display with uuid `uuid` showed.
    pub fn last_space_for_display_uuid(&self, uuid: &String) -> (r: Option<SpaceId>)
        requires
            self.wf(),
        ensures
            r == (if self@.history.contains_key(uuid@) {
                Some(self@.history[uuid@])
            } else {
                None
            }),
    {
        let ghost h = history_entries(self.display_history@);
        let mut i: usize = 0;
        while i < self.display_history.len()
            invariant
                self.wf(),
                i <= self.display_history@.len(),
                h == history_entries(self.display_history@),
                forall|j: int| 0 <= j < i ==> h[j].0 != uuid@,
            decreases self.display_history@.len() - i,
        {
            if self.display_history[i].0 == *uuid {
                proof {
                    lemma_assoc_lookup(h, i as int);
                }
                return Some(self.display_history[i].1);
            }
            i = i + 1;
        }
        proof {
            lemma_assoc_absent(h, uuid@);
        }
        None
    }

    fn record_history(&mut self, uuid: &String, space: SpaceId)
        requires
            old(self).wf(),
        ensures
            final(self).wf(),
            final(self)@ == (SpaceModel { history: old(self)@.history.insert(uuid@, space), ..old(self)@ }),
    {
        let ghost h = history_entries(self.display_history@);
        let mut i: usize = 0;
        while i < self.display_history.len()
            invariant
                self.wf(),
                self@ == old(self)@,
                self.display_history@ == old(self).display_history@,
                i <= self.display_history@.len(),
                h == history_entries(self.display_history@),
                forall|j: int| 0 <= j < i ==> h[j].0 != uuid@,
            decreases self.display_history@.len() - i,
        {
            if self.display_history[i].0 == *uuid {
                let u = uuid.clone();
                proof {
                    lemma_assoc_update(h, i as int, space);
                    assert(history_entries(self.display_history@.update(i as int, (u, space))) =~= h.update(
                        i as int,
                        (h[i as int].0, space),
                    ));
                }
                self.display_history.set(i, (u, space));
                return ;
            }
            i = i + 1;
        }
        proof {
            lemma_assoc_absent(h, uuid@);
            lemma_assoc_push(h, uuid@, space);
        }
        let u = uuid.clone();
        self.display_history.push((u, space));
        proof {
            assert(history_entries(self.display_history@) =~= h.push((uuid@, space)));
        }
    }

    /// The spaces the displays are taken to show after the snapshot `next`.
    fn accept(&self, shown: &Vec<Option<SpaceId>>, next: &Vec<Option<SpaceId>>) -> (r: Vec<Option<SpaceId>>)
        requires
            self.wf(),
        ensures
            r@ == accepted_spaces(shown@, self@.raw, next@, self@.fullscreen),
    {
        let ghost fs = self@.fullscreen;
        let mut entering = false;
        if self.raw_spaces.len() == next.len() {
            let mut j: usize = 0;
            while j < next.len()
                invariant
                    self.wf(),
                    fs == self@.fullscreen,
                    self.raw_spaces@.len() == next@.len(),
                    j <= next@.len(),
                    entering == exists|q: int|
                        0 <= q < j && is_fullscreen_space(fs, next@[q]) && self.raw_spaces@[q] != next@[q],
                decreases next@.len() - j,
            {
                if self.is_fullscreen(next[j]) && !same_space(self.raw_spaces[j], next[j]) {
                    entering = true;
                }
                j = j + 1;
            }
        }
        assert(entering == entering_fullscreen(self@.raw, next@, fs));
        let keep_shown = entering && shown.len() == next.len();
        let mut r: Vec<Option<SpaceId>> = Vec::new();
        let mut i: usize = 0;
        while i < next.len()
            invariant
                self.wf(),
                fs == self@.fullscreen,
                keep_shown == (entering_fullscreen(self@.raw, next@, fs) && shown@.len() == next@.len()),
                i <= next@.len(),
                r@ == accepted_spaces(shown@, self@.raw, next@, fs).take(i as int),
            decreases next@.len() - i,
        {
            let s = if self.is_fullscreen(next[i]) {
                None
            } else if keep_shown {
                shown[i]
            } else {
                next[i]
            };
            r.push(s);
            proof {
                assert(r@ =~= accepted_spaces(shown@, self@.raw, next@, fs).take(i + 1));
            }
            i = i + 1;
        }
        proof {
            assert(accepted_spaces(shown@, self@.raw, next@, fs).take(i as int) =~= accepted_spaces(
                shown@,
                self@.raw,
                next@,
                fs,
            ));
        }
        r
    }

    /// Drops the fullscreen spaces that the snapshot `next` left and returns
    /// the applications whose windows are to be listed again.
    fn leave_fullscreen_spaces(&mut self, next: &Vec<Option<SpaceId>>) -> (pids: Vec<Pid>)
        requires
            old(self).wf(),
        ensures
            final(self).wf(),
            final(self)@ == (SpaceModel {
                fullscreen: remaining_fullscreen(old(self)@.fullscreen, old(self)@.raw, next@),
                ..old(self)@
            }),
            pids@.no_duplicates(),
            forall|p: Pid| #[trigger]
                pids@.contains(p) <==> needs_refresh(old(self)@.fullscreen, old(self)@.raw, next@, p),
    {
        let ghost prev = self.raw_spaces@;
        let ghost fs = self@.fullscreen;
        let ghost m0 = self@;
        proof {
            assert(remaining_fullscreen(fs, prev.take(0), next@) =~= fs);
        }
        let mut pids: Vec<Pid> = Vec::new();
        let mut i: usize = 0;
        while i < self.raw_spaces.len()
            invariant
                self.wf(),
                self.raw_spaces@ == prev,
                i <= prev.len(),
                self@ == (SpaceModel { fullscreen: remaining_fullscreen(fs, prev.take(i as int), next@), ..m0 }),
                pids@.no_duplicates(),
                forall|p: Pid| #[trigger] pids@.contains(p) <==> needs_refresh(fs, prev.take(i as int), next@, p),
            decreases prev.len() - i,
        {
            proof {
                lemma_left_space_step(prev, next@, i as int);
            }
            let ghost cur = self@.fullscreen;
            let entry = self.raw_spaces[i];
            let mut gone: Option<FullscreenSpaceTrack> = None;
            if let Some(s) = entry {
                if !space_listed(next, Some(s)) {
                    gone = self.fullscreen_by_space.remove(&s.id);
                }
            }
            let ghost before = pids@;
            if let Some(track) = &gone {
                let mut k: usize = 0;
                while k < track.windows.len()
                    invariant
                        k <= track.windows@.len(),
                        pids@.no_duplicates(),
                        forall|p: Pid| #[trigger]
                            pids@.contains(p) <==> before.contains(p) || exists|k2: int|
                                0 <= k2 < k && track.windows@[k2].pid == p,
                    decreases track.windows@.len() - k,
                {
                    let p = track.windows[k].pid;
                    let ghost pv = pids@;
                    if !pid_listed(&pids, p) {
                        pids.push(p);
                        proof {
                            assert forall|a: int, b: int|
                                0 <= a < pids@.len() && 0 <= b < pids@.len() && a != b implies pids@[a]
                                != pids@[b] by {
                                if a < pv.len() && b < pv.len() {
                                } else if a < pv.len() {
                                    assert(pv.contains(pv[a]));
                                } else {
                                    assert(pv.contains(pv[b]));
                                }
                            }
                        }
                    }
                    proof {
                        assert forall|q: Pid| #[trigger]
                            pids@.contains(q) <==> before.contains(q) || exists|k2: int|
                                0 <= k2 < k + 1 && track.windows@[k2].pid == q by {
                            if pids@.contains(q) && !pv.contains(q) {
                                let a = choose|a: int| 0 <= a < pids@.len() && pids@[a] == q;
                                assert(q == p);
                            }
                            if pv.contains(q) {
                                let a = choose|a: int| 0 <= a < pv.len() && pv[a] == q;
                                assert(pids@[a] == q);
                            }
                            if exists|k2: int| 0 <= k2 < k + 1 && track.windows@[k2].pid == q {
                                let k2 = choose|k2: int| 0 <= k2 < k + 1 && track.windows@[k2].pid == q;
                                if k2 == k {
                                    if !pv.contains(q) {
                                        assert(pids@[pv.len() as int] == q);
                                    }
                                }
                            }
                        }
                    }
                    k = k + 1;
                }
            }
            proof {
                let t0 = prev.take(i as int);
                let t1 = prev.take(i + 1);
                match entry {
                    Some(s) if !next@.contains(Some(s)) => {
                        let id = s.id;
                        assert(s == SpaceId { id });
                        assert(self@.fullscreen == cur.remove(id));
                        assert(remaining_fullscreen(fs, t1, next@) =~= cur.remove(id));
                        assert forall|p: Pid| #[trigger]
                            pids@.contains(p) <==> needs_refresh(fs, t1, next@, p) by {
                            if needs_refresh(fs, t1, next@, p) && !needs_refresh(fs, t0, next@, p) {
                                let x = choose|x: u64|
                                    #![trigger fs[x]]
                                    fs.contains_key(x) && left_space(t1, next@, x) && exists|k: int|
                                        0 <= k < fs[x].windows@.len() && fs[x].windows@[k].pid == p;
                                assert(x == id);
                                assert(cur.contains_key(id));
                            }
                            if gone is Some && !before.contains(p) && pids@.contains(p) {
                                assert(left_space(t1, next@, id));
                                assert(fs.contains_key(id) && fs[id] == gone->0);
                            }
                            if needs_refresh(fs, t0, next@, p) {
                                let x = choose|x: u64|
                                    #![trigger fs[x]]
                                    fs.contains_key(x) && left_space(t0, next@, x) && exists|k: int|
                                        0 <= k < fs[x].windows@.len() && fs[x].windows@[k].pid == p;
                                assert(left_space(t1, next@, x));
                            }
                        }
                    },
                    _ => {
                        assert(self@.fullscreen == cur);
                        assert(remaining_fullscreen(fs, t1, next@) =~= cur);
                        assert forall|p: Pid| #[trigger]
                            pids@.contains(p) <==> needs_refresh(fs, t1, next@, p) by {
                            if needs_refresh(fs, t1, next@, p) {
                                let x = choose|x: u64|
                                    #![trigger fs[x]]
                                    fs.contains_key(x) && left_space(t1, next@, x) && exists|k: int|
                                        0 <= k < fs[x].windows@.len() && fs[x].windows@[k].pid == p;
                                assert(left_space(t0, next@, x));
                            }
                            if needs_refresh(fs, t0, next@, p) {
                                let x = choose|x: u64|
                                    #![trigger fs[x]]
                                    fs.contains_key(x) && left_space(t0, next@, x) && exists|k: int|
                                        0 <= k < fs[x].windows@.len() && fs[x].windows@[k].pid == p;
                                assert(left_space(t1, next@, x));
                            }
                        }
                    },
                }
            }
            i = i + 1;
        }
        proof {
            assert(prev.take(i as int) =~= prev);
        }
        pids
    }

    fn record_screens_history(&mut self)
        requires
            old(self).wf(),
        ensures
            final(self).wf(),
            final(self)@ == (SpaceModel {
                history: recorded_history(old(self)@.history, old(self)@.screens),
                ..old(self)@
            }),
    {
        let ghost h0 = self@.history;
        let ghost m0 = self@;
        let mut i: usize = 0;
        while i < self.screens.len()
            invariant
                self.wf(),
                i <= self.screens@.len(),
                self@ == (SpaceModel { history: self@.history, ..m0 }),
                self@.history == recorded_history(h0, self.screens@.take(i as int)),
            decreases self.screens@.len() - i,
        {
            proof {
                assert(self.screens@.take(i + 1).drop_last() =~= self.screens@.take(i as int));
                assert(self.screens@.take(i + 1).last() == self.screens@[i as int]);
            }
            match self.screens[i].space {
                Some(sp) => {
                    let u = self.screens[i].display_uuid.clone();
                    self.record_history(&u, sp);
                },
                None => {},
            }
            i = i + 1;
        }
        proof {
            assert(self.screens@.take(i as int) =~= self.screens@);
        }
    }

    /// The displays reported are `screens`; returns the applications whose
    /// windows are to be listed again because a fullscreen space was left.
    pub fn screen_parameters_changed(&mut self, screens: Vec<ScreenInfo>) -> (pids: Vec<Pid>)
        requires
            old(self).wf(),
        ensures
            final(self).wf(),
            final(self)@ == old(self)@.after_screen_parameters(screens@),
            pids@.no_duplicates(),
            forall|p: Pid| #[trigger]
                pids@.contains(p) <==> needs_refresh(
                    old(self)@.fullscreen,
                    old(self)@.raw,
                    spaces_of(screens@),
                    p,
                ),
    {
        let shown_before = self.raw_spaces_for_current_screens();
        let mut next: Vec<Option<SpaceId>> = Vec::new();
        let mut i: usize = 0;
        while i < screens.len()
            invariant
                i <= screens@.len(),
                next@ == spaces_of(screens@).take(i as int),
            decreases screens@.len() - i,
        {
            next.push(screens[i].space);
            proof {
                assert(next@ =~= spaces_of(screens@).take(i + 1));
            }
            i = i + 1;
        }
        proof {
            assert(spaces_of(screens@).take(i as int) =~= spaces_of(screens@));
        }
        let accepted = self.accept(&shown_before, &next);
        let mut changed = false;
        if self.screens.len() > 0 {
            changed = !same_uuids(&self.screens, &screens);
        }
        let mut shown: Vec<ScreenInfo> = Vec::new();
        let mut i: usize = 0;
        while i < screens.len()
            invariant
                i <= screens@.len(),
                accepted@.len() == screens@.len(),
                shown@ == with_spaces(screens@, accepted@).take(i as int),
            decreases screens@.len() - i,
        {
            shown.push(screen_with_space(&screens[i], accepted[i]));
            proof {
                assert(shown@ =~= with_spaces(screens@, accepted@).take(i + 1));
            }
            i = i + 1;
        }
        proof {
            assert(with_spaces(screens@, accepted@).take(i as int) =~= with_spaces(screens@, accepted@));
        }
        let pids = self.leave_fullscreen_spaces(&next);
        self.raw_spaces = next;
        self.screens = shown;
        self.topology_relayout_pending = self.topology_relayout_pending || changed;
        self.record_screens_history();
        pids
    }

    /// The displays now show the spaces `next`; returns the applications whose
    /// windows are to be listed again because a fullscreen space was left.
    pub fn space_changed(&mut self, next: Vec<Option<SpaceId>>) -> (pids: Vec<Pid>)
        requires
            old(self).wf(),
        ensures
            final(self).wf(),
            final(self)@ == old(self)@.after_space_changed(next@),
            pids@.no_duplicates(),
            forall|p: Pid| #[trigger]
                pids@.contains(p) <==> (next@.len() == old(self)@.screens.len() && next@ != old(self)@.raw
                    && needs_refresh(old(self)@.fullscreen, old(self)@.raw, next@, p)),
    {
        if next.len() != self.screens.len() || same_spaces(&next, &self.raw_spaces) {
            return Vec::new();
        }
        let shown_before = self.raw_spaces_for_current_screens();
        let accepted = self.accept(&shown_before, &next);
        let mut shown: Vec<ScreenInfo> = Vec::new();
        let mut i: usize = 0;
        while i < self.screens.len()
            invariant
                i <= self.screens@.len(),
                accepted@.len() == self.screens@.len(),
                shown@ == with_spaces(self.screens@, accepted@).take(i as int),
            decreases self.screens@.len() - i,
        {
            shown.push(screen_with_space(&self.screens[i], accepted[i]));
            proof {
                assert(shown@ =~= with_spaces(self.screens@, accepted@).take(i + 1));
            }
            i = i + 1;
        }
        proof {
            assert(with_spaces(self.screens@, accepted@).take(i as int) =~= with_spaces(self.screens@, accepted@));
        }
        let pids = self.leave_fullscreen_spaces(&next);
        self.raw_spaces = next;
        self.screens = shown;
        self.record_screens_history();
        pids
    }
}

fn same_uuids(a: &Vec<ScreenInfo>, b: &Vec<ScreenInfo>) -> (r: bool)
    ensures
        r == (uuids_of(a@) == uuids_of(b@)),
{
    if a.len() != b.len() {
        proof {
            assert(uuids_of(a@).len() != uuids_of(b@).len());
        }
        return false;
    }
    let mut i: usize = 0;
    while i < a.len()
        invariant
            a@.len() == b@.len(),
            i <= a@.len(),
            forall|j: int| 0 <= j < i ==> a@[j].display_uuid@ == b@[j].display_uuid@,
        decreases a@.len() - i,
    {
        if a[i].display_uuid != b[i].display_uuid {
            proof {
                assert(uuids_of(a@)[i as int] != uuids_of(b@)[i as int]);
            }
            return false;
        }
        i = i + 1;
    }
    assert(uuids_of(a@) =~= uuids_of(b@));
    true
}

} // verus!
