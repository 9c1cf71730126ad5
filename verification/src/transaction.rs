use vstd::prelude::*;

use crate::assoc::{assoc_map, keys_unique, lemma_assoc_absent, lemma_assoc_lookup, lemma_assoc_push, lemma_assoc_update};
use crate::screen::Rect;

verus! {

/// A window as the window server numbers it.
#[derive(Clone, Copy, Debug, PartialEq, Eq, Hash, Structural)]
pub struct WindowServerId {
    pub id: u32,
}

impl WindowServerId {
    pub fn new(id: u32) -> (w: WindowServerId)
        ensures
            w.id == id,
    {
        WindowServerId { id }
    }
}

/// The number of a frame write the reactor sent for a window; later writes
/// get larger numbers.
#[derive(Clone, Copy, Debug, PartialEq, Eq, Hash, Structural)]
pub struct TransactionId {
    pub id: u64,
}

/// The mouse button, when a frame change was seen.
#[derive(Clone, Copy, Debug, PartialEq, Eq, Structural)]
pub enum MouseState {
    Up,
    Down,
}

/// The last write sent for a window, and the frame it asked for while the
/// write is not seen through.
#[derive(Clone, Copy, Debug, PartialEq, Eq, Structural)]
pub struct TxRecord {
    pub last: TransactionId,
    pub target: Option<Rect>,
}

/// What a frame change of a window is.
#[derive(Clone, Copy, Debug, PartialEq, Eq, Structural)]
pub enum FrameChange {
    /// It answers a write older than the last one sent: ignored.
    Stale,
    /// It reaches the frame the last write asked for: that write is done.
    OwnWriteDone,
    /// It answers the last write on the way to the frame asked for: ignored,
    /// and never taken for the user moving the window.
    OwnWriteInProgress,
    /// The window moved for some other reason; `dragging` when the mouse
    /// button was down.
    External { dragging: bool },
}

/// The record of a window that has none yet.
pub open spec fn no_record() -> TxRecord {
    TxRecord { last: TransactionId { id: 0 }, target: None }
}

pub open spec fn record_of(m: Map<WindowServerId, TxRecord>, w: WindowServerId) -> TxRecord {
    if m.contains_key(w) {
        m[w]
    } else {
        no_record()
    }
}

/// How a frame change is classified, and the window's record afterwards.
pub open spec fn classify(rec: TxRecord, frame: Rect, txid: Option<TransactionId>, mouse: Option<MouseState>) -> (
    FrameChange,
    TxRecord,
) {
    let external = FrameChange::External { dragging: mouse == Some(MouseState::Down) };
    match txid {
        Some(t) => {
            if t.id < rec.last.id {
                (FrameChange::Stale, rec)
            } else if t.id == rec.last.id && rec.target == Some(frame) {
                (FrameChange::OwnWriteDone, TxRecord { target: None, ..rec })
            } else if t.id == rec.last.id && rec.target is Some {
                (FrameChange::OwnWriteInProgress, rec)
            } else {
                (external, rec)
            }
        },
        None => (external, rec),
    }
}

/// The number after `t`; the largest number stays.
pub open spec fn next_txid(t: TransactionId) -> TransactionId {
    if t.id < u64::MAX {
        TransactionId { id: (t.id + 1) as u64 }
    } else {
        t
    }
}

/// Tracks the frame writes sent to windows.
pub struct TransactionManager {
    records: Vec<(WindowServerId, TxRecord)>,
}

impl View for TransactionManager {
    type V = Map<WindowServerId, TxRecord>;

    closed spec fn view(&self) -> Map<WindowServerId, TxRecord> {
        assoc_map(self.records@)
    }
}

impl TransactionManager {
    pub closed spec fn wf(&self) -> bool {
        keys_unique(self.records@)
    }

    pub fn new() -> (m: TransactionManager)
        ensures
            m.wf(),
            m@ == Map::<WindowServerId, TxRecord>::empty(),
    {
        let m = TransactionManager { records: Vec::new() };
        assert(assoc_map(m.records@) =~= Map::<WindowServerId, TxRecord>::empty());
        m
    }

    fn find(&self, w: WindowServerId) -> (r: Option<usize>)
        ensures
            match r {
                Some(i) => i < self.records@.len() && self.records@[i as int].0 == w,
                None => forall|i: int| 0 <= i < self.records@.len() ==> self.records@[i].0 != w,
            },
    {
        let mut i: usize = 0;
        while i < self.records.len()
            invariant
                i <= self.records@.len(),
                forall|j: int| 0 <= j < i ==> self.records@[j].0 != w,
            decreases self.records@.len() - i,
        {
            if self.records[i].0 == w {
                return Some(i);
            }
            i = i + 1;
        }
        None
    }

    /// The record of window `w`.
    pub fn record(&self, w: WindowServerId) -> (r: TxRecord)
        requires
            self.wf(),
        ensures
            r == record_of(self@, w),
    {
        match self.find(w) {
            Some(i) => {
                proof {
                    lemma_assoc_lookup(self.records@, i as int);
                }
                self.records[i].1
            },
            None => {
                proof {
                    lemma_assoc_absent(self.records@, w);
                }
                TxRecord { last: TransactionId { id: 0 }, target: None }
            },
        }
    }

    fn set_record(&mut self, w: WindowServerId, rec: TxRecord)
        requires
            old(self).wf(),
        ensures
            final(self).wf(),
            final(self)@ == old(self)@.insert(w, rec),
    {
        match self.find(w) {
            Some(i) => {
                proof {
                    lemma_assoc_update(self.records@, i as int, rec);
                }
                self.records.set(i, (w, rec));
            },
            None => {
                proof {
                    lemma_assoc_absent(self.records@, w);
                    lemma_assoc_push(self.records@, w, rec);
                }
                self.records.push((w, rec));
            },
        }
    }

    /// Numbers a new write for window `w`.
    pub fn generate_next_txid(&mut self, w: WindowServerId) -> (t: TransactionId)
        requires
            old(self).wf(),
        ensures
            final(self).wf(),
            t == next_txid(record_of(old(self)@, w).last),
            final(self)@ == old(self)@.insert(w, TxRecord { last: t, ..record_of(old(self)@, w) }),
    {
        let rec = self.record(w);
        let t = if rec.last.id < u64::MAX {
            TransactionId { id: rec.last.id + 1 }
        } else {
            rec.last
        };
        self.set_record(w, TxRecord { last: t, target: rec.target });
        t
    }

    /// Records that write `t` for window `w` asks for `target`.
    pub fn store_txid(&mut self, w: WindowServerId, t: TransactionId, target: Rect)
        requires
            old(self).wf(),
        ensures
            final(self).wf(),
            final(self)@ == old(self)@.insert(w, TxRecord { last: t, target: Some(target) }),
    {
        self.set_record(w, TxRecord { last: t, target: Some(target) });
    }

    /// The frame the last write for `w` asks for, while it is not seen through.
    pub fn get_target_frame(&self, w: WindowServerId) -> (r: Option<Rect>)
        requires
            self.wf(),
        ensures
            r == record_of(self@, w).target,
    {
        self.record(w).target
    }

    /// Classifies a frame change of window `w`.
    pub fn frame_changed(
        &mut self,
        w: WindowServerId,
        frame: Rect,
        txid: Option<TransactionId>,
        mouse: Option<MouseState>,
    ) -> (r: FrameChange)
        requires
            old(self).wf(),
        ensures
            final(self).wf(),
            r == classify(record_of(old(self)@, w), frame, txid, mouse).0,
            final(self)@ == if r == FrameChange::OwnWriteDone {
                old(self)@.insert(w, classify(record_of(old(self)@, w), frame, txid, mouse).1)
            } else {
                old(self)@
            },
    {
        let rec = self.record(w);
        let dragging = match mouse {
            Some(MouseState::Down) => true,
            _ => false,
        };
        match txid {
            Some(t) => {
                if t.id < rec.last.id {
                    FrameChange::Stale
                } else if t.id == rec.last.id {
                    match rec.target {
                        Some(target) => {
                            if target == frame {
                                self.set_record(w, TxRecord { last: rec.last, target: None });
                                FrameChange::OwnWriteDone
                            } else {
                                FrameChange::OwnWriteInProgress
                            }
                        },
                        None => FrameChange::External { dragging },
                    }
                } else {
                    FrameChange::External { dragging }
                }
            },
            None => FrameChange::External { dragging },
        }
    }
}

/// Once a newer write was numbered for a window, a frame change that answers
/// an older write is ignored and changes nothing.
pub proof fn law_older_writes_are_stale(
    m: Map<WindowServerId, TxRecord>,
    w: WindowServerId,
    older: TransactionId,
    frame: Rect,
    mouse: Option<MouseState>,
)
    requires
        record_of(m, w).last.id < u64::MAX,
        older.id <= record_of(m, w).last.id,
    ensures
        ({
            let t = next_txid(record_of(m, w).last);
            let m2 = m.insert(w, TxRecord { last: t, ..record_of(m, w) });
            classify(record_of(m2, w), frame, Some(older), mouse) == (FrameChange::Stale, record_of(m2, w))
        }),
{
}

/// A frame change that answers the last write while its target is pending
/// is never taken for the user dragging the window, whatever the mouse.
pub proof fn law_own_writes_never_start_a_drag(
    rec: TxRecord,
    frame: Rect,
    mouse: Option<MouseState>,
)
    requires
        rec.target is Some,
    ensures
        !(classify(rec, frame, Some(rec.last), mouse).0 is External),
        classify(rec, frame, Some(rec.last), mouse).0 == FrameChange::OwnWriteInProgress ==> classify(
            rec,
            frame,
            Some(rec.last),
            mouse,
        ).1 == rec,
{
}

/// A frame change taken for a move from outside starts a drag exactly when
/// the mouse button is down, whatever write number it carries: only the
/// reactor's own writes still under way (and stale ones) are kept from
/// starting a drag.
pub proof fn law_outside_moves_drag_exactly_with_the_button_down(
    rec: TxRecord,
    frame: Rect,
    txid: Option<TransactionId>,
    mouse: Option<MouseState>,
)
    ensures
        classify(rec, frame, txid, mouse).0 matches FrameChange::External { dragging } ==> dragging == (mouse
            == Some(MouseState::Down)),
        txid is None ==> classify(rec, frame, txid, mouse).0 == (FrameChange::External {
            dragging: mouse == Some(MouseState::Down),
        }),
        txid matches Some(t) && t.id > rec.last.id ==> classify(rec, frame, txid, mouse).0 == (FrameChange::External {
            dragging: mouse == Some(MouseState::Down),
        }),
        txid matches Some(t) && t.id == rec.last.id && rec.target is None ==> classify(rec, frame, txid, mouse).0
            == (FrameChange::External { dragging: mouse == Some(MouseState::Down) }),
        classify(rec, frame, txid, mouse).1.last == rec.last,
{
}

/// The write number a frame change carries decides what it is: a number
/// older than the last write sent makes it stale and changes nothing; the
/// last write's number makes it that write seen through when the frame is
/// the one asked for (the write is then done), and the write still under way
/// when another frame was asked for.
pub proof fn law_write_numbers_decide_the_change(rec: TxRecord, frame: Rect, t: TransactionId, mouse: Option<MouseState>)
    ensures
        t.id < rec.last.id ==> classify(rec, frame, Some(t), mouse) == (FrameChange::Stale, rec),
        t.id == rec.last.id && rec.target == Some(frame) ==> classify(rec, frame, Some(t), mouse) == (
        FrameChange::OwnWriteDone,
        TxRecord { last: rec.last, target: None },
        ),
        t.id == rec.last.id && rec.target is Some && rec.target != Some(frame) ==> classify(rec, frame, Some(t), mouse)
            == (FrameChange::OwnWriteInProgress, rec),
{
}

} // verus!
