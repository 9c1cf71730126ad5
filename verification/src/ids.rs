use vstd::prelude::*;

verus! {

/// A process id, as the window server reports it.
pub type Pid = i32;

/// A window of an application: the owning process and the window's index
/// within that process.
#[derive(Clone, Copy, Debug, PartialEq, Eq, Hash, Structural)]
pub struct WindowId {
    pub pid: Pid,
    pub idx: u32,
}

impl WindowId {
    pub fn new(pid: Pid, idx: u32) -> (w: WindowId)
        ensures
            w.pid == pid,
            w.idx == idx,
    {
        WindowId { pid, idx }
    }
}

/// A macOS space (a desktop of one display).
#[derive(Clone, Copy, Debug, PartialEq, Eq, Hash, Structural)]
pub struct SpaceId {
    pub id: u64,
}

impl SpaceId {
    pub fn new(id: u64) -> (s: SpaceId)
        ensures
            s.id == id,
    {
        SpaceId { id }
    }

    pub fn get(&self) -> (id: u64)
        ensures
            id == self.id,
    {
        self.id
    }
}

/// A virtual workspace: the space it belongs to and its index among that
/// space's workspaces.
#[derive(Clone, Copy, Debug, PartialEq, Eq, Hash, Structural)]
pub struct WorkspaceId {
    pub space: SpaceId,
    pub index: u32,
}

} // verus!
