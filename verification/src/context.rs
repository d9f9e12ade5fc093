//! The fixture context store: the group-scoped shared value produced by a
//! group's `before`, and the test-scoped owned value produced by its
//! `before_each`.
//!
//! The shared slot is written once per group scope and read-only
//! thereafter, so every test and the group's `after` observe the identical
//! value. The owned slot is filled freshly for every test and emptied when
//! it is consumed, so no state ever leaks from one test to the next or
//! across groups.

use vstd::prelude::*;

verus! {

/// The context values of the group currently executing: at most one shared
/// value (produced by `before`, read by everyone) and at most one owned
/// value (produced by `before_each`, consumed by the test or its
/// `after_each`).
pub struct ContextStore<S, O> {
    pub shared: Option<S>,
    pub owned: Option<O>,
}

impl<S, O> ContextStore<S, O> {
    /// An empty store: no group scope is open.
    pub fn new() -> (r: ContextStore<S, O>)
        ensures
            r.shared is None,
            r.owned is None,
    {
        ContextStore { shared: None, owned: None }
    }

    /// Open a group scope: both slots start empty, so nothing produced by
    /// an earlier group is visible.
    pub fn open_group(&mut self)
        ensures
            final(self).shared is None,
            final(self).owned is None,
    {
        self.shared = None;
        self.owned = None;
    }

    /// Store the shared value the group's `before` produced. The slot must
    /// be empty: the value is created at most once per group, and is never
    /// replaced afterwards.
    pub fn set_shared(&mut self, v: S)
        requires
            old(self).shared is None,
        ensures
            final(self).shared == Some(v),
            final(self).owned == old(self).owned,
    {
        self.shared = Some(v);
    }

    /// Borrow the shared value. Every caller within the group scope sees
    /// the very value `before` produced, unchanged.
    pub fn shared(&self) -> (r: Option<&S>)
        ensures
            match r {
                Some(v) => self.shared == Some(*v),
                None => self.shared is None,
            },
    {
        match &self.shared {
            Some(v) => Some(v),
            None => None,
        }
    }

    /// Store the owned value the group's `before_each` produced for the
    /// test about to run. The slot must be empty: the previous test's
    /// value was consumed and this one is fresh.
    pub fn set_owned(&mut self, v: O)
        requires
            old(self).owned is None,
        ensures
            final(self).owned == Some(v),
            final(self).shared == old(self).shared,
    {
        self.owned = Some(v);
    }

    /// Consume the owned value: hand it out and leave the slot empty, so
    /// the next test cannot observe it.
    pub fn take_owned(&mut self) -> (r: Option<O>)
        ensures
            r == old(self).owned,
            final(self).owned is None,
            final(self).shared == old(self).shared,
    {
        let mut taken: Option<O> = None;
        core::mem::swap(&mut taken, &mut self.owned);
        taken
    }

    /// Close the group scope: both slots are emptied, so no context value
    /// leaks into the next group.
    pub fn close_group(&mut self)
        ensures
            final(self).shared is None,
            final(self).owned is None,
    {
        self.shared = None;
        self.owned = None;
    }
}

} // verus!
