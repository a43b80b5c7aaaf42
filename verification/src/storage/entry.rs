//! A stored value with its expiry deadline, last access time and accounted
//! size. Times are nanoseconds on the store's monotonic clock.
use vstd::prelude::*;

verus! {

/// A stored value.
#[derive(Debug, Clone)]
pub struct Entry {
    pub value: Vec<u8>,
    pub expires_at: Option<u64>,
    pub last_accessed: u64,
    pub approx_size_bytes: usize,
}

/// The content of an entry.
pub struct EntryView {
    pub value: Seq<u8>,
    pub expires_at: Option<u64>,
    pub last_accessed: u64,
    pub size: nat,
}

impl View for Entry {
    type V = EntryView;

    open spec fn view(&self) -> EntryView {
        EntryView {
            value: self.value@,
            expires_at: self.expires_at,
            last_accessed: self.last_accessed,
            size: self.approx_size_bytes as nat,
        }
    }
}

/// The bookkeeping bytes charged for every entry besides its key and value:
/// the size, on a 64-bit target, of an entry record that holds a shared byte
/// buffer (32 bytes), an optional deadline and a last-access instant (16
/// bytes each) and its size (8 bytes).
pub const ENTRY_OVERHEAD: usize = 72;

/// The bytes accounted for an entry: its key, its value and the entry
/// record's [`ENTRY_OVERHEAD`].
pub open spec fn entry_size(key_len: nat, value_len: nat) -> nat {
    key_len + value_len + ENTRY_OVERHEAD as nat
}

/// An entry has expired once the clock has reached its deadline.
pub open spec fn expired(e: EntryView, now: u64) -> bool {
    match e.expires_at {
        Some(t) => now >= t,
        None => false,
    }
}

impl Entry {
    /// A fresh entry for a key of `key_len` bytes, last accessed at `now`.
    pub fn new(key_len: usize, value: Vec<u8>, expires_at: Option<u64>, now: u64) -> (r: Self)
        requires
            entry_size(key_len as nat, value@.len()) <= usize::MAX,
        ensures
            r@ == (EntryView {
                value: value@,
                expires_at,
                last_accessed: now,
                size: entry_size(key_len as nat, value@.len()),
            }),
    {
        let approx_size_bytes = key_len + value.len() + ENTRY_OVERHEAD;
        Entry { value, expires_at, last_accessed: now, approx_size_bytes }
    }

    /// The entry has expired at time `now`.
    pub fn is_expired(&self, now: u64) -> (r: bool)
        ensures
            r == expired(self@, now),
    {
        match self.expires_at {
            Some(t) => now >= t,
            None => false,
        }
    }

    /// Records an access at time `now`.
    pub fn touch(&mut self, now: u64)
        ensures
            final(self)@ == (EntryView { last_accessed: now, ..old(self)@ }),
    {
        self.last_accessed = now;
    }
}

} // verus!
