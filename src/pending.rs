use vstd::prelude::*;

verus! {

/// The slot through which the path a process was launched with reaches the
/// display surface: setting overwrites, taking hands the path over once and
/// empties the slot, and an empty slot simply means no file is pending.
pub struct PendingOpenPath {
    slot: Option<String>,
}

impl View for PendingOpenPath {
    type V = Option<Seq<char>>;

    closed spec fn view(&self) -> Option<Seq<char>> {
        match self.slot {
            Some(p) => Some(p@),
            None => None,
        }
    }
}

pub open spec fn path_view(p: Option<String>) -> Option<Seq<char>> {
    match p {
        Some(s) => Some(s@),
        None => None,
    }
}

impl PendingOpenPath {
    pub fn new() -> (r: PendingOpenPath)
        ensures
            r@ is None,
    {
        PendingOpenPath { slot: None }
    }

    /// Records `path`, replacing whatever was pending.
    pub fn set(&mut self, path: Option<String>)
        ensures
            final(self)@ == path_view(path),
    {
        self.slot = path;
    }

    /// Returns what was pending and leaves the slot empty.
    pub fn take(&mut self) -> (r: Option<String>)
        ensures
            path_view(r) == old(self)@,
            final(self)@ is None,
    {
        self.slot.take()
    }
}

} // verus!
