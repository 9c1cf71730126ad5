use vstd::prelude::*;

use crate::ids::SpaceId;

verus! {

/// A rectangle in global screen coordinates, in whole points: the origin is
/// the top-left corner.
#[derive(Clone, Copy, Debug, PartialEq, Eq, Structural)]
pub struct Rect {
    pub x: i32,
    pub y: i32,
    pub width: i32,
    pub height: i32,
}

impl Rect {
    pub fn new(x: i32, y: i32, width: i32, height: i32) -> (r: Rect)
        ensures
            r == (Rect { x, y, width, height }),
    {
        Rect { x, y, width, height }
    }

    /// Whether the centre of `inner` lies in this rectangle (the left and top
    /// edges included, the right and bottom edges not).
    pub open spec fn contains_center_of(self, inner: Rect) -> bool {
        &&& 2 * self.x <= 2 * inner.x + inner.width < 2 * (self.x + self.width)
        &&& 2 * self.y <= 2 * inner.y + inner.height < 2 * (self.y + self.height)
    }

    pub fn contains_center(&self, inner: &Rect) -> (r: bool)
        ensures
            r == self.contains_center_of(*inner),
    {
        let cx = 2 * (inner.x as i64) + inner.width as i64;
        let cy = 2 * (inner.y as i64) + inner.height as i64;
        2 * (self.x as i64) <= cx && cx < 2 * (self.x as i64 + self.width as i64) && 2 * (self.y as i64)
            <= cy && cy < 2 * (self.y as i64 + self.height as i64)
    }
}

/// A display, as the screen list numbers it.
#[derive(Clone, Copy, Debug, PartialEq, Eq, Structural)]
pub struct ScreenId {
    pub id: u32,
}

impl ScreenId {
    pub fn new(id: u32) -> (s: ScreenId)
        ensures
            s.id == id,
    {
        ScreenId { id }
    }
}

/// A display with the space it shows.
#[derive(Debug)]
pub struct ScreenInfo {
    pub id: ScreenId,
    pub frame: Rect,
    pub space: Option<SpaceId>,
    pub display_uuid: String,
    pub name: Option<String>,
}

/// A copy of `s` that shows `space`.
pub fn screen_with_space(s: &ScreenInfo, space: Option<SpaceId>) -> (r: ScreenInfo)
    ensures
        r == (ScreenInfo { space, ..*s }),
{
    let name = match &s.name {
        Some(n) => Some(n.clone()),
        None => None,
    };
    ScreenInfo { id: s.id, frame: s.frame, space, display_uuid: s.display_uuid.clone(), name }
}

/// Which display a selector names.
pub enum DisplaySelector {
    /// The n-th display counted from the left.
    Index(usize),
    /// The display with this uuid.
    Uuid(String),
}

/// Whether display `a` (at position `i` of the list) comes before display `b`
/// (at position `j`) counted from the left: by the left edge, then the top
/// edge, then the position in the list.
pub open spec fn left_of(a: Rect, i: int, b: Rect, j: int) -> bool {
    ||| a.x < b.x
    ||| a.x == b.x && a.y < b.y
    ||| a.x == b.x && a.y == b.y && i < j
}

/// How many of the first `n` displays come before display `k`.
pub open spec fn rank_below(frames: Seq<Rect>, k: int, n: int) -> nat
    decreases n,
{
    if n <= 0 {
        0
    } else {
        rank_below(frames, k, n - 1) + if left_of(frames[n - 1], n - 1, frames[k], k) {
            1nat
        } else {
            0nat
        }
    }
}

/// The position of display `k` counted from the left, starting at zero.
pub open spec fn rank(frames: Seq<Rect>, k: int) -> nat {
    rank_below(frames, k, frames.len() as int)
}

pub open spec fn frames_of(screens: Seq<ScreenInfo>) -> Seq<Rect> {
    Seq::new(screens.len(), |i: int| screens[i].frame)
}

proof fn lemma_rank_below_bound(frames: Seq<Rect>, k: int, n: int)
    ensures
        n >= 0 ==> rank_below(frames, k, n) <= n,
    decreases n,
{
    if n > 0 {
        lemma_rank_below_bound(frames, k, n - 1);
    }
}


/// Counting the displays before `a` and before `b`: when every display
/// before `a` is before `b` too, `a` has no larger count, and a strictly
/// smaller one when some display among the first `n` is before `b` only.
proof fn lemma_rank_below_mono(frames: Seq<Rect>, a: int, b: int, n: int)
    requires
        forall|j: int| 0 <= j < n && left_of(frames[j], j, frames[a], a) ==> left_of(frames[j], j, frames[b], b),
    ensures
        rank_below(frames, a, n) <= rank_below(frames, b, n),
        (exists|j: int|
            0 <= j < n && left_of(frames[j], j, frames[b], b) && !left_of(frames[j], j, frames[a], a))
            ==> rank_below(frames, a, n) < rank_below(frames, b, n),
    decreases n,
{
    if n > 0 {
        lemma_rank_below_mono(frames, a, b, n - 1);
        if exists|j: int|
            0 <= j < n && left_of(frames[j], j, frames[b], b) && !left_of(frames[j], j, frames[a], a) {
            let j = choose|j: int|
                0 <= j < n && left_of(frames[j], j, frames[b], b) && !left_of(frames[j], j, frames[a], a);
            if j < n - 1 {
                assert(exists|j2: int|
                    0 <= j2 < n - 1 && left_of(frames[j2], j2, frames[b], b) && !left_of(
                        frames[j2],
                        j2,
                        frames[a],
                        a,
                    ));
            }
        }
    }
}

/// A display is not counted before itself.
proof fn lemma_rank_below_excludes_self(frames: Seq<Rect>, k: int, n: int)
    requires
        n >= 0,
    ensures
        rank_below(frames, k, n) + (if 0 <= k < n {
            1int
        } else {
            0int
        }) <= n,
    decreases n,
{
    if n > 0 {
        lemma_rank_below_excludes_self(frames, k, n - 1);
    }
}

/// Counting from the left numbers the displays `0` to `len - 1`, each
/// number going to exactly one display: so the index selector finds a
/// display exactly for the indices below the number of displays, and a
/// different one for each index.
pub proof fn law_index_selection_numbers_displays_left_to_right(frames: Seq<Rect>, n: int)
    ensures
        forall|k1: int, k2: int|
            0 <= k1 < frames.len() && 0 <= k2 < frames.len() && k1 != k2 ==> rank(frames, k1) != rank(frames, k2),
        forall|k: int| 0 <= k < frames.len() ==> rank(frames, k) < frames.len(),
        (exists|k: int| 0 <= k < frames.len() && rank(frames, k) == n) <==> 0 <= n < frames.len(),
{
    let len = frames.len() as int;
    assert forall|k: int| 0 <= k < len implies rank(frames, k) < len by {
        lemma_rank_below_excludes_self(frames, k, len);
    }
    assert forall|k1: int, k2: int| 0 <= k1 < len && 0 <= k2 < len && k1 != k2 implies rank(frames, k1) != rank(
        frames,
        k2,
    ) by {
        if left_of(frames[k1], k1, frames[k2], k2) {
            lemma_rank_below_mono(frames, k1, k2, len);
            assert(0 <= k1 < len && left_of(frames[k1], k1, frames[k2], k2) && !left_of(frames[k1], k1, frames[k1], k1));
        } else {
            assert(left_of(frames[k2], k2, frames[k1], k1));
            lemma_rank_below_mono(frames, k2, k1, len);
            assert(0 <= k2 < len && left_of(frames[k2], k2, frames[k1], k1) && !left_of(frames[k2], k2, frames[k2], k2));
        }
    }
    let d = vstd::set_lib::set_int_range(0, len);
    let f = |k: int| rank(frames, k) as int;
    vstd::set_lib::lemma_int_range(0, len);
    let img = d.map(f);
    assert(vstd::relations::injective_on(f, d)) by {
        assert forall|x: int, y: int| d.contains(x) && d.contains(y) && #[trigger] f(x) == #[trigger] f(y) implies x == y by {
            if x != y {
                assert(rank(frames, x) != rank(frames, y));
            }
        }
    }
    vstd::set_lib::lemma_map_size(d, img, f);
    assert(img.subset_of(d)) by {
        assert forall|v: int| img.contains(v) implies d.contains(v) by {
            let k = choose|k: int| d.contains(k) && f(k) == v;
            assert(rank(frames, k) < len);
        }
    }
    vstd::set_lib::lemma_subset_equality(img, d);
    if 0 <= n < len {
        assert(d.contains(n));
        assert(img.contains(n));
        let k = choose|k: int| d.contains(k) && f(k) == n;
        assert(0 <= k < len && rank(frames, k) == n);
    }
}

/// Counting from the left orders the displays by their left edge, then by
/// their top edge, then by their place in the list: display `a` gets a
/// smaller number than display `b` exactly when it lies further left, or
/// as far left and higher up, or at the same origin and earlier in the list.
pub proof fn law_index_counts_displays_by_left_edge(frames: Seq<Rect>, a: int, b: int)
    requires
        0 <= a < frames.len(),
        0 <= b < frames.len(),
        a != b,
    ensures
        rank(frames, a) < rank(frames, b) <==> (frames[a].x < frames[b].x || (frames[a].x == frames[b].x
            && frames[a].y < frames[b].y) || (frames[a].x == frames[b].x && frames[a].y == frames[b].y && a < b)),
{
    let len = frames.len() as int;
    if frames[a].x < frames[b].x || (frames[a].x == frames[b].x && frames[a].y < frames[b].y) || (frames[a].x
        == frames[b].x && frames[a].y == frames[b].y && a < b) {
        lemma_rank_below_mono(frames, a, b, len);
        assert(0 <= a < len && left_of(frames[a], a, frames[b], b) && !left_of(frames[a], a, frames[a], a));
    } else {
        lemma_rank_below_mono(frames, b, a, len);
        assert(0 <= b < len && left_of(frames[b], b, frames[a], a) && !left_of(frames[b], b, frames[b], b));
    }
}

/// The index selector numbers displays from the left edge: a display whose
/// left edge lies further left is selected by a smaller index.
pub proof fn law_index_selector_follows_left_edges(screens: Seq<ScreenInfo>, i: int, j: int, a: usize, b: usize)
    requires
        selected_by_index(screens, i, Some(a)),
        selected_by_index(screens, j, Some(b)),
        screens[a as int].frame.x < screens[b as int].frame.x,
    ensures
        i < j,
{
    let frames = frames_of(screens);
    assert(frames[a as int] == screens[a as int].frame);
    assert(frames[b as int] == screens[b as int].frame);
    law_index_counts_displays_by_left_edge(frames, a as int, b as int);
}

/// A display holds a frame when the frame's centre lies within it on both
/// axes: from its left edge up to, not including, its right edge, and from
/// its top edge up to, not including, its bottom edge. (Coordinates are
/// doubled so that the centre of an odd-sized frame stays whole.)
pub proof fn law_center_test_checks_both_axes(r: Rect, f: Rect)
    ensures
        r.contains_center_of(f) <==> {
            &&& 2 * r.x <= 2 * f.x + f.width
            &&& 2 * f.x + f.width < 2 * r.x + 2 * r.width
            &&& 2 * r.y <= 2 * f.y + f.height
            &&& 2 * f.y + f.height < 2 * r.y + 2 * r.height
        },
{
}

/// `r` is the display whose position from the left is `n`, or there is none.
pub open spec fn selected_by_index(screens: Seq<ScreenInfo>, n: int, r: Option<usize>) -> bool {
    match r {
        Some(k) => k < screens.len() && rank(frames_of(screens), k as int) == n,
        None => forall|k: int| 0 <= k < screens.len() ==> rank(frames_of(screens), k) != n,
    }
}

/// `r` is the first display with uuid `u`, or there is none.
pub open spec fn selected_by_uuid(screens: Seq<ScreenInfo>, u: Seq<char>, r: Option<usize>) -> bool {
    match r {
        Some(k) => k < screens.len() && screens[k as int].display_uuid@ == u && forall|j: int|
            0 <= j < k ==> screens[j].display_uuid@ != u,
        None => forall|k: int| 0 <= k < screens.len() ==> screens[k].display_uuid@ != u,
    }
}

/// The display whose position from the left is `n`.
pub fn screen_for_index(screens: &Vec<ScreenInfo>, n: usize) -> (r: Option<usize>)
    ensures
        selected_by_index(screens@, n as int, r),
{
    let ghost frames = frames_of(screens@);
    let mut k: usize = 0;
    while k < screens.len()
        invariant
            k <= screens@.len(),
            frames == frames_of(screens@),
            forall|q: int| 0 <= q < k ==> rank(frames, q) != n,
        decreases screens@.len() - k,
    {
        let fk = screens[k].frame;
        let mut count: usize = 0;
        let mut j: usize = 0;
        while j < screens.len()
            invariant
                j <= screens@.len(),
                k < screens@.len(),
                frames == frames_of(screens@),
                fk == frames[k as int],
                count == rank_below(frames, k as int, j as int),
            decreases screens@.len() - j,
        {
            let fj = screens[j].frame;
            proof {
                lemma_rank_below_bound(frames, k as int, j as int);
            }
            if fj.x < fk.x || (fj.x == fk.x && fj.y < fk.y) || (fj.x == fk.x && fj.y == fk.y && j < k) {
                count = count + 1;
            }
            j = j + 1;
        }
        if count == n {
            return Some(k);
        }
        k = k + 1;
    }
    None
}

/// The first display whose uuid is `u`.
pub fn screen_for_uuid(screens: &Vec<ScreenInfo>, u: &String) -> (r: Option<usize>)
    ensures
        selected_by_uuid(screens@, u@, r),
{
    let mut k: usize = 0;
    while k < screens.len()
        invariant
            k <= screens@.len(),
            forall|q: int| 0 <= q < k ==> screens@[q].display_uuid@ != u@,
        decreases screens@.len() - k,
    {
        if screens[k].display_uuid == *u {
            return Some(k);
        }
        k = k + 1;
    }
    None
}

/// `r` is the display that `sel` names among `screens`, or there is none.
pub open spec fn selects(screens: Seq<ScreenInfo>, sel: DisplaySelector, r: Option<usize>) -> bool {
    match sel {
        DisplaySelector::Index(n) => selected_by_index(screens, n as int, r),
        DisplaySelector::Uuid(u) => selected_by_uuid(screens, u@, r),
    }
}

/// The display that `sel` names among `screens`.
pub fn screen_for_selector(screens: &Vec<ScreenInfo>, sel: &DisplaySelector) -> (r: Option<usize>)
    ensures
        selects(screens@, *sel, r),
{
    match sel {
        DisplaySelector::Index(n) => screen_for_index(screens, *n),
        DisplaySelector::Uuid(u) => screen_for_uuid(screens, u),
    }
}

/// The first display that holds the centre of `frame`.
pub fn screen_for_frame(screens: &Vec<ScreenInfo>, frame: &Rect) -> (r: Option<usize>)
    ensures
        match r {
            Some(k) => k < screens@.len() && screens@[k as int].frame.contains_center_of(*frame) && forall|j: int|
                0 <= j < k ==> !screens@[j].frame.contains_center_of(*frame),
            None => forall|j: int| 0 <= j < screens@.len() ==> !screens@[j].frame.contains_center_of(*frame),
        },
{
    let mut k: usize = 0;
    while k < screens.len()
        invariant
            k <= screens@.len(),
            forall|j: int| 0 <= j < k ==> !screens@[j].frame.contains_center_of(*frame),
        decreases screens@.len() - k,
    {
        if screens[k].frame.contains_center(frame) {
            return Some(k);
        }
        k = k + 1;
    }
    None
}

/// The display holding the centre of `frame`: the first such display.
pub open spec fn screen_of(screens: Seq<ScreenInfo>, frame: Rect) -> Option<usize> {
    if exists|k: int| 0 <= k < screens.len() && screens[k].frame.contains_center_of(frame) {
        Some(
            (choose|k: int|
                0 <= k < screens.len() && screens[k].frame.contains_center_of(frame) && forall|j: int|
                    0 <= j < k ==> !screens[j].frame.contains_center_of(frame)) as usize,
        )
    } else {
        None
    }
}

/// When some display holds the centre of `frame`, a first one does.
pub proof fn lemma_first_holding_exists(screens: Seq<ScreenInfo>, frame: Rect, k0: int)
    requires
        0 <= k0 < screens.len(),
        screens[k0].frame.contains_center_of(frame),
    ensures
        exists|k: int|
            0 <= k < screens.len() && screens[k].frame.contains_center_of(frame) && forall|j: int|
                0 <= j < k ==> !screens[j].frame.contains_center_of(frame),
    decreases k0,
{
    if exists|j: int| 0 <= j < k0 && screens[j].frame.contains_center_of(frame) {
        let j = choose|j: int| 0 <= j < k0 && screens[j].frame.contains_center_of(frame);
        lemma_first_holding_exists(screens, frame, j);
    } else {
        assert(0 <= k0 < screens.len() && screens[k0].frame.contains_center_of(frame) && forall|j: int|
            0 <= j < k0 ==> !screens[j].frame.contains_center_of(frame));
    }
}

/// The display holding the centre of `frame`.
pub fn locate_screen(screens: &Vec<ScreenInfo>, frame: &Rect) -> (r: Option<usize>)
    ensures
        r == screen_of(screens@, *frame),
        r matches Some(k) ==> k < screens@.len(),
{
    let r = screen_for_frame(screens, frame);
    match r {
        Some(k) => {
            let ghost c = choose|c: int|
                0 <= c < screens@.len() && screens@[c].frame.contains_center_of(*frame) && forall|j: int|
                    0 <= j < c ==> !screens@[j].frame.contains_center_of(*frame);
            proof {
                assert(0 <= k < screens@.len() && screens@[k as int].frame.contains_center_of(*frame));
                if c < k {
                } else if (k as int) < c {
                }
                assert(c == k);
            }
        },
        None => {},
    }
    r
}

} // verus!
