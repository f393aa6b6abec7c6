use crate::common::FrameId;
use vstd::prelude::*;

pub mod buffer_pool_manager;
pub mod clock_replacer;

verus! {

/// A replacement policy: it tracks which frames may be evicted and picks the
/// next one to evict.
///
/// The view of a replacer is the state of its policy. What an operation does
/// to that state is given by the `spec` functions below, so that code written
/// against the trait can say exactly what it asked of the policy. Whatever the
/// policy, the set of evictable frames changes in the same way: unpinning a
/// frame adds it, pinning it or choosing it as the victim removes it.
pub trait Replacer: View {
    /// The representation invariant of the replacer.
    spec fn inv(&self) -> bool;

    /// The number of frames the policy tracks; they are numbered from 1.
    spec fn capacity(model: Self::V) -> nat;

    /// The frames that may be chosen as a victim.
    spec fn evictable(model: Self::V) -> Set<FrameId>;

    /// The frame that `victim` picks in this state, if there is one.
    spec fn victim_choice(model: Self::V) -> Option<FrameId>;

    /// The state that `victim` leaves.
    spec fn after_victim(model: Self::V) -> Self::V;

    /// The state that `pin` leaves.
    spec fn after_pin(model: Self::V, frame_id: FrameId) -> Self::V;

    /// The state that `unpin` leaves.
    spec fn after_unpin(model: Self::V, frame_id: FrameId) -> Self::V;

    /// Removes the victim chosen by the policy from the evictable frames and
    /// returns it. Returns `None` exactly when no frame is evictable.
    fn victim(&mut self) -> (victim: Option<FrameId>)
        requires
            old(self).inv(),
        ensures
            final(self).inv(),
            victim == Self::victim_choice(old(self)@),
            final(self)@ == Self::after_victim(old(self)@),
            Self::capacity(final(self)@) == Self::capacity(old(self)@),
            victim is None <==> Self::evictable(old(self)@).is_empty(),
            match victim {
                Some(frame_id) => Self::evictable(old(self)@).contains(frame_id)
                    && Self::evictable(final(self)@) == Self::evictable(old(self)@).remove(
                    frame_id,
                ),
                None => final(self)@ == old(self)@,
            },
    ;

    /// Marks a frame as in use: it cannot be chosen as a victim until it is
    /// unpinned again.
    fn pin(&mut self, frame_id: FrameId)
        requires
            old(self).inv(),
            1 <= frame_id.0 <= Self::capacity(old(self)@),
        ensures
            final(self).inv(),
            final(self)@ == Self::after_pin(old(self)@, frame_id),
            Self::capacity(final(self)@) == Self::capacity(old(self)@),
            Self::evictable(final(self)@) == Self::evictable(old(self)@).remove(frame_id),
    ;

    /// Marks a frame as no longer in use: it may now be chosen as a victim.
    fn unpin(&mut self, frame_id: FrameId)
        requires
            old(self).inv(),
            1 <= frame_id.0 <= Self::capacity(old(self)@),
        ensures
            final(self).inv(),
            final(self)@ == Self::after_unpin(old(self)@, frame_id),
            Self::capacity(final(self)@) == Self::capacity(old(self)@),
            Self::evictable(final(self)@) == Self::evictable(old(self)@).insert(frame_id),
    ;

    /// The number of evictable frames.
    fn size(&mut self) -> (size: usize)
        requires
            old(self).inv(),
        ensures
            final(self).inv(),
            final(self)@ == old(self)@,
            size == Self::evictable(old(self)@).len(),
    ;
}

} // verus!
