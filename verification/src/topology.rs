use vstd::prelude::*;

verus! {

/// The display reconfiguration flags of CoreGraphics, as bits.
pub struct DisplayReconfigFlags;

impl DisplayReconfigFlags {
    pub const BEGIN_CONFIGURATION: u32 = 1;
    pub const MOVED: u32 = 2;
    pub const SET_MAIN: u32 = 4;
    pub const SET_MODE: u32 = 8;
    pub const ADD: u32 = 16;
    pub const REMOVE: u32 = 32;
    pub const ENABLED: u32 = 256;
    pub const DISABLED: u32 = 512;
    pub const MIRROR: u32 = 1024;
    pub const UNMIRROR: u32 = 2048;
    pub const DESKTOP_SHAPE_CHANGED: u32 = 4096;
}

/// How many window events were dropped while the display topology was
/// changing.
#[derive(Clone, Copy, Debug, PartialEq, Eq, Structural)]
pub struct QuarantineStats {
    /// Window appearances dropped.
    pub appeared_dropped: u64,
    /// Window destructions dropped.
    pub destroyed_dropped: u64,
    /// Window list resyncs dropped.
    pub resync_dropped: u64,
}

/// Where the display topology stands.
#[derive(Debug)]
pub enum TopologyState {
    /// No reconfiguration is under way.
    Stable,
    /// Displays are being reconfigured; `pending` holds the displays whose
    /// reconfiguration has begun and not ended, `flags` every flag seen.
    Churning { pending: Vec<u32>, flags: u32 },
    /// Every display has finished; the next screen snapshot commits the new
    /// topology.
    AwaitingCommitSnapshot { flags: u32 },
}

/// The topology state as a mathematical value.
pub enum TopologyPhase {
    Stable,
    Churning { pending: Seq<u32>, flags: u32 },
    AwaitingCommitSnapshot { flags: u32 },
}

impl View for TopologyState {
    type V = TopologyPhase;

    open spec fn view(&self) -> TopologyPhase {
        match self {
            TopologyState::Stable => TopologyPhase::Stable,
            TopologyState::Churning { pending, flags } => TopologyPhase::Churning {
                pending: pending@,
                flags: *flags,
            },
            TopologyState::AwaitingCommitSnapshot { flags } => TopologyPhase::AwaitingCommitSnapshot {
                flags: *flags,
            },
        }
    }
}

/// `s` without the display `d`.
pub open spec fn without_display(s: Seq<u32>, d: u32) -> Seq<u32>
    decreases s.len(),
{
    if s.len() == 0 {
        s
    } else {
        let rest = without_display(s.drop_last(), d);
        if s.last() != d {
            rest.push(s.last())
        } else {
            rest
        }
    }
}

impl TopologyPhase {
    /// A display begins reconfiguring.
    pub open spec fn after_begin(self, display: u32, flags: u32) -> TopologyPhase {
        match self {
            TopologyPhase::Stable => TopologyPhase::Churning { pending: seq![display], flags },
            TopologyPhase::Churning { pending, flags: f } => TopologyPhase::Churning {
                pending: if pending.contains(display) {
                    pending
                } else {
                    pending.push(display)
                },
                flags: f | flags,
            },
            TopologyPhase::AwaitingCommitSnapshot { flags: f } => TopologyPhase::Churning {
                pending: seq![display],
                flags: f | flags,
            },
        }
    }

    /// A display finishes reconfiguring; when no display is left pending the
    /// topology awaits its commit snapshot.
    pub open spec fn after_end(self, display: u32, flags: u32) -> TopologyPhase {
        match self {
            TopologyPhase::Churning { pending, flags: f } => {
                let rest = without_display(pending, display);
                if rest.len() == 0 {
                    TopologyPhase::AwaitingCommitSnapshot { flags: f | flags }
                } else {
                    TopologyPhase::Churning { pending: rest, flags: f | flags }
                }
            },
            _ => self,
        }
    }

    /// A screen snapshot arrives: it commits an awaited topology.
    pub open spec fn after_snapshot(self) -> TopologyPhase {
        match self {
            TopologyPhase::AwaitingCommitSnapshot { .. } => TopologyPhase::Stable,
            _ => self,
        }
    }

    /// Whether window events are being held back.
    pub open spec fn quarantining(self) -> bool {
        !(self is Stable)
    }
}


/// Window events are held back from the moment a display begins
/// reconfiguring until the snapshot that commits the new topology: beginning
/// or ending a reconfiguration never ends it, and a snapshot ends it unless a
/// display is still reconfiguring.
pub proof fn law_churn_quarantines_until_commit(p: TopologyPhase, d: u32, f: u32)
    ensures
        p.after_begin(d, f).quarantining(),
        p.quarantining() ==> p.after_end(d, f).quarantining(),
        !p.after_snapshot().quarantining() <==> !(p is Churning),
        p is Churning ==> p.after_snapshot() == p,
{
}

/// Whatever the topology's state, a display that begins reconfiguring is
/// pending from then on: the topology is churning with that display among
/// its pending ones, every display that was pending still is, and a screen
/// snapshot does not end the holding back of window events.
pub proof fn law_begin_makes_display_pending(p: TopologyPhase, d: u32, f: u32)
    ensures
        p.after_begin(d, f) is Churning,
        p.after_begin(d, f) matches TopologyPhase::Churning { pending, .. } && pending.contains(d),
        p matches TopologyPhase::Churning { pending: before, .. } ==> (p.after_begin(d, f) matches TopologyPhase::Churning {
            pending: after,
            ..
        } && forall|x: u32| before.contains(x) ==> after.contains(x)),
        p.after_begin(d, f).after_snapshot().quarantining(),
{
    match p {
        TopologyPhase::Churning { pending, .. } => {
            if !pending.contains(d) {
                assert(pending.push(d)[pending.len() as int] == d);
                assert forall|x: u32| pending.contains(x) implies pending.push(d).contains(x) by {
                    let k = choose|k: int| 0 <= k < pending.len() && pending[k] == x;
                    assert(pending.push(d)[k] == x);
                }
            }
        },
        _ => {
            assert(seq![d][0] == d);
        },
    }
}

/// A display that ends reconfiguring leaves the pending displays, and only
/// it: the topology keeps churning while another display is pending, and
/// awaits its commit snapshot once none is.
pub proof fn law_end_removes_only_that_display(pending: Seq<u32>, flags: u32, d: u32, f: u32, x: u32)
    ensures
        ({
            let p2 = (TopologyPhase::Churning { pending, flags }).after_end(d, f);
            &&& (exists|y: u32| pending.contains(y) && y != d) ==> (p2 matches TopologyPhase::Churning {
                pending: rest,
                ..
            } && (rest.contains(x) <==> pending.contains(x) && x != d))
            &&& (forall|y: u32| pending.contains(y) ==> y == d) ==> p2 is AwaitingCommitSnapshot
        }),
{
    lemma_without_display_contains(pending, d, x);
    if exists|y: u32| pending.contains(y) && y != d {
        let y = choose|y: u32| pending.contains(y) && y != d;
        lemma_without_display_keeps(pending, d, y);
    } else {
        let r = without_display(pending, d);
        if r.len() > 0 {
            lemma_without_display_contains(pending, d, r[0]);
            assert(r.contains(r[0]));
        }
    }
}

proof fn lemma_without_display_contains(s: Seq<u32>, d: u32, x: u32)
    ensures
        without_display(s, d).contains(x) <==> s.contains(x) && x != d,
    decreases s.len(),
{
    if s.len() > 0 {
        let t = s.drop_last();
        lemma_without_display_contains(t, d, x);
        let r = without_display(t, d);
        if s.contains(x) && x != d {
            let k = choose|k: int| 0 <= k < s.len() && s[k] == x;
            if k < t.len() {
                assert(t[k] == x);
                let q = choose|q: int| 0 <= q < r.len() && r[q] == x;
                if s.last() != d {
                    assert(r.push(s.last())[q] == x);
                }
            } else {
                assert(r.push(s.last())[r.len() as int] == x);
            }
        }
        if without_display(s, d).contains(x) {
            if s.last() != d {
                let r2 = r.push(s.last());
                let q = choose|q: int| 0 <= q < r2.len() && r2[q] == x;
                if q < r.len() {
                    assert(r[q] == x);
                    let k = choose|k: int| 0 <= k < t.len() && t[k] == x;
                    assert(s[k] == x);
                } else {
                    assert(s[s.len() - 1] == x);
                }
            } else {
                let k = choose|k: int| 0 <= k < t.len() && t[k] == x;
                assert(s[k] == x);
            }
        }
    }
}

/// A display that begins and ends reconfiguring on its own brings the
/// topology to await its commit snapshot, which makes it stable again.
pub proof fn law_single_display_churn_round_trip(d: u32, f1: u32, f2: u32)
    ensures
        TopologyPhase::Stable.after_begin(d, f1).after_end(d, f2) is AwaitingCommitSnapshot,
        TopologyPhase::Stable.after_begin(d, f1).after_end(d, f2).after_snapshot() is Stable,
{
    let s = seq![d];
    assert(s.drop_last() =~= Seq::<u32>::empty());
    assert(without_display(s.drop_last(), d) == Seq::<u32>::empty());
    assert(without_display(s, d).len() == 0);
}

/// A display that is still reconfiguring keeps the topology from awaiting
/// its commit: ending another display's reconfiguration leaves it churning.
pub proof fn law_pending_display_keeps_churning(pending: Seq<u32>, flags: u32, d: u32, other: u32)
    requires
        pending.contains(other),
        other != d,
    ensures
        (TopologyPhase::Churning { pending, flags }).after_end(d, 0) is Churning,
{
    lemma_without_display_keeps(pending, d, other);
}

proof fn lemma_without_display_keeps(s: Seq<u32>, d: u32, other: u32)
    requires
        s.contains(other),
        other != d,
    ensures
        without_display(s, d).contains(other),
    decreases s.len(),
{
    let t = s.drop_last();
    let r = without_display(t, d);
    if s.last() == other {
        assert(r.push(s.last())[r.len() as int] == other);
    } else {
        let k = choose|k: int| 0 <= k < s.len() && s[k] == other;
        assert(t[k] == other);
        lemma_without_display_keeps(t, d, other);
        if s.last() != d {
            let q = choose|q: int| 0 <= q < r.len() && r[q] == other;
            assert(r.push(s.last())[q] == other);
        }
    }
}

/// A counter that stops at its largest value.
pub open spec fn bumped(c: u64) -> u64 {
    if c < u64::MAX {
        (c + 1) as u64
    } else {
        c
    }
}

/// Tracks display reconfigurations, and what was dropped meanwhile.
pub struct DisplayTopologyManager {
    pub state: TopologyState,
    pub quarantine_stats: QuarantineStats,
}

impl DisplayTopologyManager {
    pub open spec fn phase(&self) -> TopologyPhase {
        self.state@
    }

    pub fn new() -> (m: DisplayTopologyManager)
        ensures
            m.phase() is Stable,
            m.quarantine_stats == (QuarantineStats { appeared_dropped: 0, destroyed_dropped: 0, resync_dropped: 0 }),
    {
        DisplayTopologyManager {
            state: TopologyState::Stable,
            quarantine_stats: QuarantineStats { appeared_dropped: 0, destroyed_dropped: 0, resync_dropped: 0 },
        }
    }

    /// The current state.
    pub fn state(&self) -> (s: &TopologyState)
        ensures
            s@ == self.phase(),
    {
        &self.state
    }

    /// Whether window events are being held back.
    pub fn is_quarantining(&self) -> (r: bool)
        ensures
            r == self.phase().quarantining(),
    {
        match self.state {
            TopologyState::Stable => false,
            _ => true,
        }
    }

    /// Display `display` begins reconfiguring with `flags`.
    pub fn begin_churn(&mut self, display: u32, flags: u32)
        ensures
            final(self).phase() == old(self).phase().after_begin(display, flags),
            final(self).quarantine_stats == old(self).quarantine_stats,
    {
        let next = match &self.state {
            TopologyState::Stable => {
                let mut pending: Vec<u32> = Vec::new();
                pending.push(display);
                proof {
                    assert(pending@ =~= seq![display]);
                }
                TopologyState::Churning { pending, flags }
            },
            TopologyState::Churning { pending, flags: f } => {
                let mut p = pending.clone();
                let mut found = false;
                let mut i: usize = 0;
                while i < p.len()
                    invariant
                        p@ == pending@,
                        i <= p@.len(),
                        found == (exists|j: int| 0 <= j < i && p@[j] == display),
                    decreases p@.len() - i,
                {
                    if p[i] == display {
                        found = true;
                    }
                    i = i + 1;
                }
                if !found {
                    p.push(display);
                }
                TopologyState::Churning { pending: p, flags: *f | flags }
            },
            TopologyState::AwaitingCommitSnapshot { flags: f } => {
                let mut pending: Vec<u32> = Vec::new();
                pending.push(display);
                proof {
                    assert(pending@ =~= seq![display]);
                }
                TopologyState::Churning { pending, flags: *f | flags }
            },
        };
        self.state = next;
    }

    /// Display `display` finishes reconfiguring with `flags`.
    pub fn end_churn_to_awaiting(&mut self, display: u32, flags: u32)
        ensures
            final(self).phase() == old(self).phase().after_end(display, flags),
            final(self).quarantine_stats == old(self).quarantine_stats,
    {
        let next = match &self.state {
            TopologyState::Churning { pending, flags: f } => {
                let mut rest: Vec<u32> = Vec::new();
                let mut i: usize = 0;
                while i < pending.len()
                    invariant
                        i <= pending@.len(),
                        rest@ == without_display(pending@.take(i as int), display),
                    decreases pending@.len() - i,
                {
                    proof {
                        assert(pending@.take(i + 1).drop_last() =~= pending@.take(i as int));
                    }
                    if pending[i] != display {
                        rest.push(pending[i]);
                    }
                    i = i + 1;
                }
                proof {
                    assert(pending@.take(pending@.len() as int) =~= pending@);
                }
                if rest.len() == 0 {
                    TopologyState::AwaitingCommitSnapshot { flags: *f | flags }
                } else {
                    TopologyState::Churning { pending: rest, flags: *f | flags }
                }
            },
            TopologyState::Stable => TopologyState::Stable,
            TopologyState::AwaitingCommitSnapshot { flags: f } => TopologyState::AwaitingCommitSnapshot {
                flags: *f,
            },
        };
        self.state = next;
    }

    /// A screen snapshot arrived; returns whether it committed an awaited
    /// topology.
    pub fn commit_snapshot(&mut self) -> (committed: bool)
        ensures
            final(self).phase() == old(self).phase().after_snapshot(),
            committed == (old(self).phase() is AwaitingCommitSnapshot),
            final(self).quarantine_stats == old(self).quarantine_stats,
    {
        match self.state {
            TopologyState::AwaitingCommitSnapshot { .. } => {
                self.state = TopologyState::Stable;
                true
            },
            _ => false,
        }
    }

    /// Counts a dropped window appearance.
    pub fn quarantine_appeared(&mut self)
        ensures
            final(self).phase() == old(self).phase(),
            final(self).quarantine_stats == (QuarantineStats {
                appeared_dropped: bumped(old(self).quarantine_stats.appeared_dropped),
                ..old(self).quarantine_stats
            }),
    {
        self.quarantine_stats.appeared_dropped = self.quarantine_stats.appeared_dropped.saturating_add(1);
    }

    /// Counts a dropped window destruction.
    pub fn quarantine_destroyed(&mut self)
        ensures
            final(self).phase() == old(self).phase(),
            final(self).quarantine_stats == (QuarantineStats {
                destroyed_dropped: bumped(old(self).quarantine_stats.destroyed_dropped),
                ..old(self).quarantine_stats
            }),
    {
        self.quarantine_stats.destroyed_dropped = self.quarantine_stats.destroyed_dropped.saturating_add(1);
    }

    /// Counts a dropped window list resync.
    pub fn quarantine_resync(&mut self)
        ensures
            final(self).phase() == old(self).phase(),
            final(self).quarantine_stats == (QuarantineStats {
                resync_dropped: bumped(old(self).quarantine_stats.resync_dropped),
                ..old(self).quarantine_stats
            }),
    {
        self.quarantine_stats.resync_dropped = self.quarantine_stats.resync_dropped.saturating_add(1);
    }
}

} // verus!
