use vstd::prelude::*;

verus! {

/// Counts the bytes added and released while one operation runs.
#[derive(Debug, Clone, Copy, PartialEq, Eq, Structural)]
pub struct StorageTracker {
    pub bytes_added: u64,
    pub bytes_released: u64,
    pub is_active: bool,
}

impl StorageTracker {
    /// The net change in bytes recorded so far.
    pub open spec fn net(&self) -> int {
        self.bytes_added - self.bytes_released
    }

    pub fn new() -> (r: StorageTracker)
        ensures
            r.bytes_added == 0,
            r.bytes_released == 0,
            !r.is_active,
    {
        StorageTracker { bytes_added: 0, bytes_released: 0, is_active: false }
    }

    /// Opens a bracket: counting restarts from zero.
    pub fn start(&mut self)
        requires
            !old(self).is_active,
        ensures
            final(self).is_active,
            final(self).bytes_added == 0,
            final(self).bytes_released == 0,
    {
        self.is_active = true;
        self.bytes_added = 0;
        self.bytes_released = 0;
    }

    /// Closes the bracket; the counts stay for reconciliation.
    pub fn stop(&mut self)
        requires
            old(self).is_active,
        ensures
            !final(self).is_active,
            final(self).bytes_added == old(self).bytes_added,
            final(self).bytes_released == old(self).bytes_released,
    {
        self.is_active = false;
    }

    /// Records `bytes` of new storage inside the open bracket.
    pub fn add(&mut self, bytes: u64)
        requires
            old(self).is_active,
            old(self).bytes_added + bytes <= u64::MAX,
        ensures
            *final(self) == (StorageTracker { bytes_added: (old(self).bytes_added + bytes) as u64, ..*old(self) }),
    {
        self.bytes_added = self.bytes_added + bytes;
    }

    /// Records `bytes` of storage freed inside the open bracket.
    pub fn release(&mut self, bytes: u64)
        requires
            old(self).is_active,
            old(self).bytes_released + bytes <= u64::MAX,
        ensures
            *final(self) == (StorageTracker { bytes_released: (old(self).bytes_released + bytes) as u64, ..*old(self) }),
    {
        self.bytes_released = self.bytes_released + bytes;
    }

    /// Sets both counts back to zero.
    pub fn reset(&mut self)
        ensures
            *final(self) == (StorageTracker { bytes_added: 0, bytes_released: 0, ..*old(self) }),
    {
        self.bytes_added = 0;
        self.bytes_released = 0;
    }
}

} // verus!
