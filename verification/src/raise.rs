use vstd::prelude::*;

use crate::ids::{Pid, WindowId};
use crate::screen::{locate_screen, screen_of, Rect, ScreenInfo};

verus! {

/// Windows are raised in groups: the windows of one application on one
/// display (or on no display) go together.
pub type GroupKey = (Pid, Option<usize>);

/// A window to raise, with the display it is on.
pub type RaiseItem = (WindowId, Option<usize>);

pub open spec fn item_key(item: RaiseItem) -> GroupKey {
    (item.0.pid, item.1)
}

/// Whether some group has key `k`.
pub open spec fn has_group(groups: Seq<(GroupKey, Seq<WindowId>)>, k: GroupKey) -> bool {
    exists|i: int| 0 <= i < groups.len() && groups[i].0 == k
}

/// The windows of `items` grouped by key: groups in the order their first
/// window comes, windows in their order.
pub open spec fn grouped(items: Seq<RaiseItem>) -> Seq<(GroupKey, Seq<WindowId>)>
    decreases items.len(),
{
    if items.len() == 0 {
        Seq::empty()
    } else {
        let g = grouped(items.drop_last());
        let item = items.last();
        let k = item_key(item);
        if has_group(g, k) {
            let i = choose|i: int| 0 <= i < g.len() && g[i].0 == k;
            g.update(i, (k, g[i].1.push(item.0)))
        } else {
            g.push((k, seq![item.0]))
        }
    }
}

/// The windows of `items` with key `k`, in their order.
pub open spec fn with_key(items: Seq<RaiseItem>, k: GroupKey) -> Seq<WindowId>
    decreases items.len(),
{
    if items.len() == 0 {
        Seq::empty()
    } else {
        let rest = with_key(items.drop_last(), k);
        if item_key(items.last()) == k {
            rest.push(items.last().0)
        } else {
            rest
        }
    }
}

proof fn lemma_with_key_empty(items: Seq<RaiseItem>, k: GroupKey)
    requires
        forall|j: int| 0 <= j < items.len() ==> item_key(items[j]) != k,
    ensures
        with_key(items, k) == Seq::<WindowId>::empty(),
    decreases items.len(),
{
    if items.len() > 0 {
        lemma_with_key_empty(items.drop_last(), k);
    }
}

/// Grouping puts every window in the one group of its key: the keys are
/// distinct, every window's key has a group, no group is empty, and each
/// group holds exactly the windows with its key, in their order.
pub proof fn law_grouping_partitions_by_key(items: Seq<RaiseItem>)
    ensures
        ({
            let g = grouped(items);
            &&& forall|i: int, j: int|
                0 <= i < g.len() && 0 <= j < g.len() && #[trigger] g[i].0 == #[trigger] g[j].0 ==> i == j
            &&& forall|j: int| 0 <= j < items.len() ==> has_group(g, #[trigger] item_key(items[j]))
            &&& forall|i: int| 0 <= i < g.len() ==> #[trigger] g[i].1 == with_key(items, g[i].0)
            &&& forall|i: int| 0 <= i < g.len() ==> #[trigger] g[i].1.len() > 0
        }),
    decreases items.len(),
{
    if items.len() > 0 {
        let t = items.drop_last();
        law_grouping_partitions_by_key(t);
        let g0 = grouped(t);
        let item = items.last();
        let k = item_key(item);
        let g = grouped(items);
        assert forall|k2: GroupKey| k2 != k implies #[trigger] with_key(items, k2) == with_key(t, k2) by {}
        assert(with_key(items, k) == with_key(t, k).push(item.0));
        if has_group(g0, k) {
            let i0 = choose|i: int| 0 <= i < g0.len() && g0[i].0 == k;
            assert(g == g0.update(i0, (k, g0[i0].1.push(item.0))));
            assert forall|i: int| 0 <= i < g.len() implies #[trigger] g[i].1 == with_key(items, g[i].0) by {
                if i != i0 {
                    assert(g[i] == g0[i]);
                    assert(g0[i].0 != k);
                }
            }
            assert forall|j: int| 0 <= j < items.len() implies has_group(g, #[trigger] item_key(items[j])) by {
                if j < t.len() {
                    assert(t[j] == items[j]);
                    let i = choose|i: int| 0 <= i < g0.len() && g0[i].0 == item_key(t[j]);
                    assert(g[i].0 == g0[i].0);
                } else {
                    assert(g[i0].0 == k);
                }
            }
            assert forall|i: int, j: int|
                0 <= i < g.len() && 0 <= j < g.len() && #[trigger] g[i].0 == #[trigger] g[j].0 implies i == j by {
                assert(g[i].0 == g0[i].0);
                assert(g[j].0 == g0[j].0);
            }
            assert forall|i: int| 0 <= i < g.len() implies #[trigger] g[i].1.len() > 0 by {
                if i != i0 {
                    assert(g[i] == g0[i]);
                }
            }
        } else {
            assert(g == g0.push((k, seq![item.0])));
            assert forall|j: int| 0 <= j < t.len() implies item_key(t[j]) != k by {
                assert(has_group(g0, item_key(t[j])));
            }
            lemma_with_key_empty(t, k);
            assert(with_key(items, k) =~= seq![item.0]);
            assert forall|i: int| 0 <= i < g.len() implies #[trigger] g[i].1 == with_key(items, g[i].0) by {
                if i < g0.len() {
                    assert(g[i] == g0[i]);
                    assert(g0[i].0 != k);
                }
            }
            assert forall|j: int| 0 <= j < items.len() implies has_group(g, #[trigger] item_key(items[j])) by {
                if j < t.len() {
                    assert(t[j] == items[j]);
                    let i = choose|i: int| 0 <= i < g0.len() && g0[i].0 == item_key(t[j]);
                    assert(g[i] == g0[i]);
                } else {
                    assert(g[g0.len() as int].0 == k);
                }
            }
            assert forall|i: int, j: int|
                0 <= i < g.len() && 0 <= j < g.len() && #[trigger] g[i].0 == #[trigger] g[j].0 implies i == j by {
                if i < g0.len() {
                    assert(g[i] == g0[i]);
                }
                if j < g0.len() {
                    assert(g[j] == g0[j]);
                }
                if i < g0.len() && j == g0.len() {
                    assert(g0[i].0 == k);
                }
                if j < g0.len() && i == g0.len() {
                    assert(g0[j].0 == k);
                }
            }
            assert forall|i: int| 0 <= i < g.len() implies #[trigger] g[i].1.len() > 0 by {
                if i < g0.len() {
                    assert(g[i] == g0[i]);
                }
            }
        }
    }
}

/// A request to raise windows, and to focus one.
pub struct RaiseRequest {
    /// The groups of windows to raise.
    pub raise_windows: Vec<Vec<WindowId>>,
    /// The window to focus.
    pub focus_window: Option<WindowId>,
    /// The applications the request touches.
    pub app_handles: Vec<Pid>,
}

/// The windows to raise, with their displays.
pub open spec fn raise_items(screens: Seq<ScreenInfo>, raise: Seq<(WindowId, Rect)>) -> Seq<RaiseItem> {
    Seq::new(raise.len(), |i: int| (raise[i].0, screen_of(screens, raise[i].1)))
}

/// Whether the request touches application `p`.
pub open spec fn touches(raise: Seq<(WindowId, Rect)>, focus: Option<WindowId>, p: Pid) -> bool {
    ||| exists|i: int| 0 <= i < raise.len() && raise[i].0.pid == p
    ||| focus matches Some(f) && f.pid == p
}

fn same_key(a: GroupKey, b: GroupKey) -> (r: bool)
    ensures
        r == (a == b),
{
    a.0 == b.0 && match (a.1, b.1) {
        (Some(x), Some(y)) => x == y,
        (None, None) => true,
        _ => false,
    }
}

fn add_pid(pids: &mut Vec<Pid>, p: Pid)
    requires
        old(pids)@.no_duplicates(),
    ensures
        final(pids)@.no_duplicates(),
        forall|q: Pid| #[trigger] final(pids)@.contains(q) <==> old(pids)@.contains(q) || q == p,
{
    let mut i: usize = 0;
    while i < pids.len()
        invariant
            i <= pids@.len(),
            pids@ == old(pids)@,
            pids@.no_duplicates(),
            forall|j: int| 0 <= j < i ==> pids@[j] != p,
        decreases pids@.len() - i,
    {
        if pids[i] == p {
            proof {
                assert(pids@[i as int] == p);
            }
            return ;
        }
        i = i + 1;
    }
    let ghost before = pids@;
    pids.push(p);
    proof {
        assert(pids@[before.len() as int] == p);
        assert forall|q: Pid| #[trigger] pids@.contains(q) <==> before.contains(q) || q == p by {
            if pids@.contains(q) {
                let j = choose|j: int| 0 <= j < pids@.len() && pids@[j] == q;
                if j < before.len() {
                    assert(before[j] == q);
                }
            }
            if before.contains(q) {
                let j = choose|j: int| 0 <= j < before.len() && before[j] == q;
                assert(pids@[j] == q);
            }
        }
    }
}

/// Builds the request to raise `raise` (each window with its frame) and focus
/// `focus`, grouping the windows by application and display.
pub fn build_raise_request(
    screens: &Vec<ScreenInfo>,
    raise: &Vec<(WindowId, Rect)>,
    focus: Option<WindowId>,
) -> (r: RaiseRequest)
    ensures
        r.raise_windows@.len() == grouped(raise_items(screens@, raise@)).len(),
        forall|i: int|
            0 <= i < r.raise_windows@.len() ==> #[trigger] r.raise_windows@[i]@ == grouped(
                raise_items(screens@, raise@),
            )[i].1,
        r.focus_window == focus,
        r.app_handles@.no_duplicates(),
        forall|p: Pid| #[trigger] r.app_handles@.contains(p) <==> touches(raise@, focus, p),
{
    let ghost items = raise_items(screens@, raise@);
    let mut groups: Vec<(GroupKey, Vec<WindowId>)> = Vec::new();
    let mut handles: Vec<Pid> = Vec::new();
    let mut n: usize = 0;
    while n < raise.len()
        invariant
            n <= raise@.len(),
            items == raise_items(screens@, raise@),
            groups@.len() == grouped(items.take(n as int)).len(),
            forall|i: int|
                #![trigger groups@[i]]
                0 <= i < groups@.len() ==> groups@[i].0 == grouped(items.take(n as int))[i].0 && groups@[i].1@
                    == grouped(items.take(n as int))[i].1,
            handles@.no_duplicates(),
            forall|p: Pid| #[trigger]
                handles@.contains(p) <==> exists|i: int| 0 <= i < n && raise@[i].0.pid == p,
        decreases raise@.len() - n,
    {
        let (w, frame) = raise[n];
        let screen = locate_screen(screens, &frame);
        let key: GroupKey = (w.pid, screen);
        let ghost t = items.take(n as int);
        let ghost g0 = grouped(t);
        proof {
            assert(items.take(n + 1).drop_last() =~= t);
            assert(items.take(n + 1).last() == (w, screen));
            law_grouping_partitions_by_key(t);
        }
        let mut found: Option<usize> = None;
        let mut i: usize = 0;
        while i < groups.len()
            invariant
                i <= groups@.len(),
                groups@.len() == g0.len(),
                forall|q: int| 0 <= q < groups@.len() ==> #[trigger] groups@[q].0 == g0[q].0,
                match found {
                    Some(f) => f < groups@.len() && groups@[f as int].0 == key,
                    None => forall|q: int| 0 <= q < i ==> groups@[q].0 != key,
                },
            decreases groups@.len() - i,
        {
            if found.is_none() && same_key(groups[i].0, key) {
                found = Some(i);
            }
            i = i + 1;
        }
        let ghost before = groups@;
        let ghost g1 = grouped(items.take(n + 1));
        match found {
            Some(f) => {
                proof {
                    assert(has_group(g0, key));
                    let c = choose|c: int| 0 <= c < g0.len() && g0[c].0 == key;
                    assert(g0[f as int].0 == key);
                    assert(c == f);
                    assert(g1 == g0.update(f as int, (key, g0[f as int].1.push(w))));
                }
                let mut entry = groups.remove(f);
                entry.1.push(w);
                let ghost e2 = entry;
                groups.insert(f, entry);
                proof {
                    assert(groups@ =~= before.update(f as int, e2));
                    assert forall|q: int| 0 <= q < groups@.len() implies #[trigger] groups@[q].0 == g1[q].0
                        && groups@[q].1@ == g1[q].1 by {
                        if q != f {
                            assert(groups@[q] == before[q]);
                        }
                    }
                }
            },
            None => {
                proof {
                    if has_group(g0, key) {
                        let c = choose|c: int| 0 <= c < g0.len() && g0[c].0 == key;
                        assert(groups@[c].0 == key);
                    }
                    assert(g1 == g0.push((key, seq![w])));
                }
                let mut ws: Vec<WindowId> = Vec::new();
                ws.push(w);
                proof {
                    assert(ws@ =~= seq![w]);
                }
                groups.push((key, ws));
                proof {
                    assert forall|q: int| 0 <= q < groups@.len() implies #[trigger] groups@[q].0 == g1[q].0
                        && groups@[q].1@ == g1[q].1 by {
                        if q < before.len() {
                            assert(groups@[q] == before[q]);
                        }
                    }
                }
            },
        }
        let ghost hb = handles@;
        add_pid(&mut handles, w.pid);
        proof {
            assert forall|p: Pid| #[trigger]
                handles@.contains(p) <==> exists|i: int| 0 <= i < n + 1 && raise@[i].0.pid == p by {
                if hb.contains(p) {
                    let i = choose|i: int| 0 <= i < n && raise@[i].0.pid == p;
                }
                if exists|i: int| 0 <= i < n + 1 && raise@[i].0.pid == p {
                    let i = choose|i: int| 0 <= i < n + 1 && raise@[i].0.pid == p;
                    if i < n {
                        assert(hb.contains(p));
                    }
                }
            }
        }
        n = n + 1;
    }
    proof {
        assert(items.take(n as int) =~= items);
        assert(grouped(items.take(n as int)) == grouped(items));
    }
    match focus {
        Some(f) => add_pid(&mut handles, f.pid),
        None => {},
    }
    // Drop the keys.
    let ghost g = grouped(items);
    let mut raise_windows: Vec<Vec<WindowId>> = Vec::new();
    let total_len = groups.len();
    let ghost total = total_len as nat;
    proof {
        assert forall|i: int| 0 <= i < groups@.len() implies #[trigger] groups@[i].1@ == g[i + 0].1 by {
            assert(groups@[i].1@ == grouped(items.take(n as int))[i].1);
        }
    }
    let mut m: usize = 0;
    while groups.len() > 0
        invariant
            groups@.len() + m == total,
            total <= usize::MAX,
            total == g.len(),
            raise_windows@.len() == m,
            forall|i: int| 0 <= i < m ==> #[trigger] raise_windows@[i]@ == g[i].1,
            forall|i: int| 0 <= i < groups@.len() ==> #[trigger] groups@[i].1@ == g[i + m].1,
        decreases groups@.len(),
    {
        let ghost gb = groups@;
        let entry = groups.remove(0);
        raise_windows.push(entry.1);
        proof {
            assert forall|i: int| 0 <= i < groups@.len() implies #[trigger] groups@[i].1@ == g[i + m + 1].1 by {
                assert(groups@[i] == gb[i + 1]);
            }
        }
        m = m + 1;
    }
    RaiseRequest { raise_windows, focus_window: focus, app_handles: handles }
}

} // verus!
