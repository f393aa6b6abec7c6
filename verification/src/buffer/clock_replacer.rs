use crate::buffer::Replacer;
use crate::common::FrameId;
use vstd::prelude::*;

verus! {

/// What the clock policy keeps for one frame.
#[derive(Copy, Clone)]
pub struct FrameEntry {
    /// The frame is in use and must not be evicted.
    pub pinned: bool,
    /// The frame was unpinned since the hand last passed it.
    pub ref_bit: bool,
}

/// The state of the clock policy: one entry per frame, entry `i` for frame
/// `i + 1`, and the slot the hand points at.
pub struct ClockView {
    pub entries: Seq<FrameEntry>,
    pub hand: int,
}

impl ClockView {
    /// The state of a new replacer: every frame pinned, no reference bit set,
    /// the hand at the first slot.
    pub open spec fn fresh(capacity: nat) -> ClockView {
        ClockView {
            entries: Seq::new(capacity, |i: int| FrameEntry { pinned: true, ref_bit: false }),
            hand: 0,
        }
    }

    pub open spec fn capacity(self) -> nat {
        self.entries.len()
    }

    /// The hand points at a slot, or at 0 where there is no slot at all.
    pub open spec fn wf(self) -> bool {
        if self.entries.len() == 0 {
            self.hand == 0
        } else {
            0 <= self.hand < self.entries.len()
        }
    }

    pub open spec fn is_evictable(self, slot: int) -> bool {
        0 <= slot < self.entries.len() && !self.entries[slot].pinned
    }

    /// The frames that are not pinned.
    pub open spec fn evictable(self) -> Set<FrameId> {
        Set::new(|frame_id: FrameId| self.is_evictable(frame_id.0 - 1))
    }

    /// Pinning keeps the reference bit as it is.
    pub open spec fn pin(self, frame_id: FrameId) -> ClockView {
        let slot = frame_id.0 - 1;
        ClockView {
            entries: self.entries.update(
                slot,
                FrameEntry { pinned: true, ref_bit: self.entries[slot].ref_bit },
            ),
            hand: self.hand,
        }
    }

    /// Unpinning sets the reference bit, also where the frame was unpinned
    /// already.
    pub open spec fn unpin(self, frame_id: FrameId) -> ClockView {
        ClockView {
            entries: self.entries.update(
                frame_id.0 - 1,
                FrameEntry { pinned: false, ref_bit: true },
            ),
            hand: self.hand,
        }
    }

    /// The number of slots that the hand visits before it reaches `slot`.
    pub open spec fn ahead(self, slot: int) -> int {
        if slot >= self.hand {
            slot - self.hand
        } else {
            slot - self.hand + self.entries.len()
        }
    }

    /// Some evictable frame has its reference bit clear, so that the scan
    /// ends within its first pass.
    pub open spec fn has_unreferenced(self) -> bool {
        exists|slot: int| self.is_evictable(slot) && !(#[trigger] self.entries[slot]).ref_bit
    }

    /// The slots at which the scan may end: the evictable ones whose reference
    /// bit is clear or, where every evictable frame has its bit set, all the
    /// evictable ones, since the first pass clears every bit.
    pub open spec fn is_candidate(self, slot: int) -> bool {
        self.is_evictable(slot) && (self.has_unreferenced() ==> !self.entries[slot].ref_bit)
    }

    /// The slot at which the scan ends: the candidate that the hand reaches
    /// first.
    pub open spec fn is_victim(self, slot: int) -> bool {
        &&& self.is_candidate(slot)
        &&& forall|other: int| #[trigger]
            self.is_candidate(other) ==> self.ahead(slot) <= self.ahead(other)
    }

    pub open spec fn victim_slot(self) -> Option<int> {
        if exists|slot: int| self.is_victim(slot) {
            Some(choose|slot: int| self.is_victim(slot))
        } else {
            None
        }
    }

    /// The frame that the next scan selects.
    pub open spec fn victim(self) -> Option<FrameId> {
        match self.victim_slot() {
            Some(slot) => Some(FrameId((slot + 1) as usize)),
            None => None,
        }
    }

    /// The state after a scan that ends at `slot`: the victim is pinned, the
    /// evictable frames that the hand passed have lost their reference bit,
    /// and the hand points behind the victim.
    pub open spec fn select(self, slot: int) -> ClockView {
        ClockView {
            entries: Seq::new(
                self.entries.len(),
                |i: int|
                    if i == slot {
                        FrameEntry { pinned: true, ref_bit: false }
                    } else if self.is_evictable(i) && (!self.has_unreferenced() || self.ahead(i)
                        < self.ahead(slot)) {
                        FrameEntry { pinned: false, ref_bit: false }
                    } else {
                        self.entries[i]
                    },
            ),
            hand: if slot + 1 == self.entries.len() {
                0
            } else {
                slot + 1
            },
        }
    }

    /// The state after the next scan. A scan that finds no evictable frame
    /// changes nothing.
    pub open spec fn after_victim(self) -> ClockView {
        match self.victim_slot() {
            Some(slot) => self.select(slot),
            None => self,
        }
    }

    /// The state after unpinning the frames of `frames`, first to last.
    pub open spec fn unpin_all(self, frames: Seq<FrameId>) -> ClockView
        decreases frames.len(),
    {
        if frames.len() == 0 {
            self
        } else {
            self.unpin_all(frames.drop_last()).unpin(frames.last())
        }
    }

    /// The state after `count` scans.
    pub open spec fn after_victims(self, count: nat) -> ClockView
        decreases count,
    {
        if count == 0 {
            self
        } else {
            self.after_victims((count - 1) as nat).after_victim()
        }
    }

    /// At most one slot is the victim.
    pub proof fn lemma_victim_unique(self, slot: int, other: int)
        requires
            self.wf(),
            self.is_victim(slot),
            self.is_victim(other),
        ensures
            slot == other,
    {
    }

    /// A slot that is the victim is what `victim` and `after_victim` speak of.
    pub proof fn lemma_victim_is(self, slot: int)
        requires
            self.wf(),
            self.is_victim(slot),
        ensures
            self.victim_slot() == Some(slot),
            self.victim() == Some(FrameId((slot + 1) as usize)),
            self.after_victim() == self.select(slot),
    {
        let chosen = choose|slot: int| self.is_victim(slot);
        self.lemma_victim_unique(slot, chosen);
    }

    /// Without an evictable frame there is no victim.
    pub proof fn lemma_no_victim(self)
        requires
            forall|slot: int| !self.is_evictable(slot),
        ensures
            self.victim_slot() is None,
            self.victim() is None,
            self.after_victim() == self,
    {
    }
}

impl ClockView {
    /// Pinning a frame twice is pinning it once, and pinning a pinned frame
    /// changes nothing. Unpinning a frame twice is unpinning it once, and
    /// unpinning an evictable frame leaves the evictable frames, and so their
    /// number, as they are.
    pub proof fn lemma_pin_unpin_idempotent(self, frame_id: FrameId)
        requires
            1 <= frame_id.0 <= self.capacity(),
        ensures
            self.pin(frame_id).pin(frame_id) == self.pin(frame_id),
            self.unpin(frame_id).unpin(frame_id) == self.unpin(frame_id),
            !self.evictable().contains(frame_id) ==> self.pin(frame_id) == self,
            self.evictable().contains(frame_id) ==> self.unpin(frame_id).evictable()
                == self.evictable(),
    {
        let slot = frame_id.0 - 1;
        assert(self.pin(frame_id).pin(frame_id).entries =~= self.pin(frame_id).entries);
        assert(self.unpin(frame_id).unpin(frame_id).entries =~= self.unpin(frame_id).entries);
        if !self.evictable().contains(frame_id) {
            assert(self.entries[slot].pinned);
            assert(self.pin(frame_id).entries =~= self.entries);
        } else {
            assert(self.unpin(frame_id).evictable() =~= self.evictable());
        }
    }

    /// A scan finds a victim exactly when some frame is evictable, and the
    /// victim is one of the evictable frames.
    pub proof fn lemma_victim_exists(self)
        requires
            self.wf(),
        ensures
            self.victim_slot() is Some <==> exists|slot: int| self.is_evictable(slot),
            self.victim_slot() is Some ==> self.is_evictable(self.victim_slot().unwrap()),
    {
        if exists|slot: int| self.is_evictable(slot) {
            let evictable = choose|slot: int| self.is_evictable(slot);
            if self.has_unreferenced() {
                let unreferenced = choose|slot: int|
                    self.is_evictable(slot) && !(#[trigger] self.entries[slot]).ref_bit;
                assert(self.is_candidate(unreferenced));
            } else {
                assert(self.is_candidate(evictable));
            }
            self.lemma_scan_finds(self.entries.len() as int);
        }
    }

    /// Among the first `reach` slots that the hand visits there is the
    /// victim, or none of them is a candidate.
    proof fn lemma_scan_finds(self, reach: int)
        requires
            self.wf(),
            0 <= reach <= self.entries.len(),
        ensures
            (exists|slot: int| self.is_victim(slot)) || forall|slot: int| #[trigger]
                self.is_candidate(slot) ==> self.ahead(slot) >= reach,
        decreases reach,
    {
        if reach > 0 {
            self.lemma_scan_finds(reach - 1);
            if !(exists|slot: int| self.is_victim(slot)) {
                let reached = if self.hand + reach - 1 < self.entries.len() {
                    self.hand + reach - 1
                } else {
                    self.hand + reach - 1 - self.entries.len()
                };
                assert(self.ahead(reached) == reach - 1);
                if self.is_candidate(reached) {
                    assert(self.is_victim(reached));
                }
            }
        }
    }

    /// Frames unpinned in a new replacer leave it in ascending order, one with
    /// each scan, and after the last of them no victim is left. The frames
    /// are given in ascending order: the hand starts at frame 1 and moves
    /// upwards, whatever the order of the calls to `unpin` was.
    pub proof fn lemma_scan_of_new_replacer_is_ascending(
        capacity: nat,
        frames: Seq<FrameId>,
        turn: nat,
    )
        requires
            forall|i: int| 0 <= i < frames.len() ==> 1 <= (#[trigger] frames[i]).0 <= capacity,
            forall|i: int, j: int|
                0 <= i < j < frames.len() ==> (#[trigger] frames[i]).0 < (#[trigger] frames[j]).0,
            turn <= frames.len(),
        ensures
            turn < frames.len() ==> Self::fresh(capacity).unpin_all(frames).after_victims(
                turn,
            ).victim() == Some(frames[turn as int]),
            turn == frames.len() ==> Self::fresh(capacity).unpin_all(frames).after_victims(
                turn,
            ).victim() is None,
    {
        lemma_drained_after_victims(capacity, frames, turn);
        lemma_drained_victim(capacity, frames, turn);
    }
}

/// `frame_number` is among the frames of `frames` from index `from` on.
spec fn listed(frames: Seq<FrameId>, from: int, frame_number: int) -> bool {
    exists|j: int| from <= j < frames.len() && (#[trigger] frames[j]).0 == frame_number
}

/// The state of a new replacer in which the frames of `frames` were unpinned
/// and the first `turn` of them have left again.
spec fn drained(capacity: nat, frames: Seq<FrameId>, turn: int) -> ClockView {
    ClockView {
        entries: Seq::new(
            capacity,
            |i: int|
                if listed(frames, turn, i + 1) {
                    FrameEntry { pinned: false, ref_bit: turn == 0 }
                } else {
                    FrameEntry { pinned: true, ref_bit: false }
                },
        ),
        hand: if turn == 0 || frames[turn - 1].0 == capacity {
            0
        } else {
            frames[turn - 1].0 as int
        },
    }
}

proof fn lemma_unpin_all(capacity: nat, frames: Seq<FrameId>)
    requires
        forall|i: int| 0 <= i < frames.len() ==> 1 <= (#[trigger] frames[i]).0 <= capacity,
    ensures
        ClockView::fresh(capacity).unpin_all(frames) == drained(capacity, frames, 0),
    decreases frames.len(),
{
    let fresh = ClockView::fresh(capacity);
    if frames.len() == 0 {
        assert(fresh.entries =~= drained(capacity, frames, 0).entries);
    } else {
        let front = frames.drop_last();
        lemma_unpin_all(capacity, front);
        let before = drained(capacity, front, 0);
        let after = before.unpin(frames.last());
        assert forall|i: int| 0 <= i < capacity implies after.entries[i] == drained(
            capacity,
            frames,
            0,
        ).entries[i] by {
            if listed(front, 0, i + 1) {
                let j = choose|j: int| 0 <= j < front.len() && (#[trigger] front[j]).0 == i + 1;
                assert(frames[j].0 == i + 1);
            }
            if listed(frames, 0, i + 1) {
                let j = choose|j: int| 0 <= j < frames.len() && (#[trigger] frames[j]).0 == i + 1;
                if j < front.len() {
                    assert(front[j].0 == i + 1);
                }
            }
            if i + 1 == frames.last().0 {
                assert(frames[frames.len() - 1].0 == i + 1);
            }
        }
        assert(after.entries =~= drained(capacity, frames, 0).entries);
    }
}

proof fn lemma_drained_victim(capacity: nat, frames: Seq<FrameId>, turn: nat)
    requires
        forall|i: int| 0 <= i < frames.len() ==> 1 <= (#[trigger] frames[i]).0 <= capacity,
        forall|i: int, j: int|
            0 <= i < j < frames.len() ==> (#[trigger] frames[i]).0 < (#[trigger] frames[j]).0,
        turn <= frames.len(),
    ensures
        turn < frames.len() ==> {
            &&& drained(capacity, frames, turn as int).victim() == Some(frames[turn as int])
            &&& drained(capacity, frames, turn as int).after_victim() == drained(
                capacity,
                frames,
                turn as int + 1,
            )
        },
        turn == frames.len() ==> drained(capacity, frames, turn as int).victim() is None,
{
    let state = drained(capacity, frames, turn as int);
    if turn == frames.len() {
        assert forall|slot: int| !state.is_evictable(slot) by {
            assert(!listed(frames, turn as int, slot + 1));
        }
        state.lemma_no_victim();
    } else {
        let slot = frames[turn as int].0 - 1;
        assert(listed(frames, turn as int, slot + 1));
        assert(state.wf()) by {
            if turn > 0 {
                assert(frames[turn - 1].0 < frames[turn as int].0);
            }
        }
        assert forall|other: int| state.is_evictable(other) implies state.entries[other].ref_bit
            == (turn == 0) && state.ahead(slot) <= state.ahead(other) && (other != slot
            ==> listed(frames, turn as int + 1, other + 1)) by {
            let j = choose|j: int|
                turn <= j < frames.len() && (#[trigger] frames[j]).0 == other + 1;
            if j > turn {
                assert(frames[turn as int].0 < frames[j].0);
            }
            if turn > 0 {
                assert(frames[turn - 1].0 < frames[turn as int].0);
            }
        }
        if turn == 0 {
            assert(!state.has_unreferenced());
        } else {
            assert(!state.entries[slot].ref_bit);
            assert(state.has_unreferenced());
        }
        assert(state.is_candidate(slot));
        assert(state.is_victim(slot));
        state.lemma_victim_is(slot);
        let next = drained(capacity, frames, turn as int + 1);
        assert forall|i: int| 0 <= i < capacity implies state.select(slot).entries[i]
            == next.entries[i] by {
            if listed(frames, turn as int + 1, i + 1) {
                let j = choose|j: int|
                    turn + 1 <= j < frames.len() && (#[trigger] frames[j]).0 == i + 1;
                assert(frames[turn as int].0 < frames[j].0);
                assert(listed(frames, turn as int, i + 1));
                assert(state.is_evictable(i));
            }
            if i != slot && listed(frames, turn as int, i + 1) {
                assert(state.is_evictable(i));
            }
        }
        assert(state.select(slot).entries =~= next.entries);
    }
}

proof fn lemma_drained_after_victims(capacity: nat, frames: Seq<FrameId>, turn: nat)
    requires
        forall|i: int| 0 <= i < frames.len() ==> 1 <= (#[trigger] frames[i]).0 <= capacity,
        forall|i: int, j: int|
            0 <= i < j < frames.len() ==> (#[trigger] frames[i]).0 < (#[trigger] frames[j]).0,
        turn <= frames.len(),
    ensures
        ClockView::fresh(capacity).unpin_all(frames).after_victims(turn) == drained(
            capacity,
            frames,
            turn as int,
        ),
    decreases turn,
{
    if turn == 0 {
        lemma_unpin_all(capacity, frames);
    } else {
        lemma_drained_after_victims(capacity, frames, (turn - 1) as nat);
        lemma_drained_victim(capacity, frames, (turn - 1) as nat);
    }
}

/// A set of frames numbered from 1 to `capacity` has at most `capacity`
/// members.
proof fn lemma_frame_set_len(frames: Set<FrameId>, capacity: nat)
    requires
        frames.finite(),
        forall|frame_id: FrameId| frames.contains(frame_id) ==> 1 <= frame_id.0 <= capacity,
    ensures
        frames.len() <= capacity,
    decreases capacity,
{
    if capacity == 0 {
        if frames.len() != 0 {
            let member = frames.choose();
            assert(frames.contains(member));
        }
    } else {
        let top = FrameId(capacity as usize);
        let rest = frames.remove(top);
        assert forall|frame_id: FrameId| rest.contains(frame_id) implies 1 <= frame_id.0 <= (
        capacity - 1) as nat by {
            if frame_id.0 == capacity {
                assert(frame_id == top);
            }
        }
        lemma_frame_set_len(rest, (capacity - 1) as nat);
    }
}

/// The clock ("second chance") replacement policy.
///
/// Frames stand in a circle; a hand moves over them. A scan for a victim
/// skips pinned frames, takes the reference bit from each evictable frame it
/// passes, and stops at the first evictable frame whose bit is already clear.
pub struct ClockReplacer {
    count: usize,
    size: usize,
    hand_index: usize,
    entries: Vec<FrameEntry>,
}

impl View for ClockReplacer {
    type V = ClockView;

    closed spec fn view(&self) -> ClockView {
        ClockView { entries: self.entries@, hand: self.hand_index as int }
    }
}

impl ClockReplacer {
    /// Creates a replacer for `count` frames, all of them pinned.
    pub fn new(count: usize) -> (replacer: Self)
        ensures
            replacer.inv(),
            replacer@ == ClockView::fresh(count as nat),
            replacer@.evictable() == Set::<FrameId>::empty(),
    {
        let entry = FrameEntry { pinned: true, ref_bit: false };
        let mut entries: Vec<FrameEntry> = Vec::new();
        let mut filled: usize = 0;
        while filled < count
            invariant
                filled <= count,
                entries@.len() == filled,
                forall|i: int| 0 <= i < filled ==> entries@[i] == entry,
            decreases count - filled,
        {
            entries.push(entry);
            filled = filled + 1;
        }
        let replacer = ClockReplacer { count, size: 0, hand_index: 0, entries };
        proof {
            assert(replacer@.entries =~= ClockView::fresh(count as nat).entries);
            assert(replacer@.evictable() =~= Set::empty());
        }
        replacer
    }

    /// In a replacer that is in a state between two calls the hand points at
    /// a slot, and the frames can be numbered in `usize`.
    pub proof fn lemma_inv_wf(&self)
        requires
            self.inv(),
        ensures
            self@.wf(),
            self@.capacity() <= usize::MAX,
    {
    }
}

impl Replacer for ClockReplacer {
    closed spec fn inv(&self) -> bool {
        &&& self.count == self.entries@.len()
        &&& self@.wf()
        &&& self@.evictable().finite()
        &&& self.size == self@.evictable().len()
    }

    open spec fn capacity(model: ClockView) -> nat {
        model.capacity()
    }

    open spec fn evictable(model: ClockView) -> Set<FrameId> {
        model.evictable()
    }

    open spec fn victim_choice(model: ClockView) -> Option<FrameId> {
        model.victim()
    }

    open spec fn after_victim(model: ClockView) -> ClockView {
        model.after_victim()
    }

    open spec fn after_pin(model: ClockView, frame_id: FrameId) -> ClockView {
        model.pin(frame_id)
    }

    open spec fn after_unpin(model: ClockView, frame_id: FrameId) -> ClockView {
        model.unpin(frame_id)
    }

    /// Scans from the hand for the first evictable frame whose reference bit
    /// is clear, taking the bit from the evictable frames it passes. The scan
    /// ends within two passes over the frames.
    fn victim(&mut self) -> (victim: Option<FrameId>) {
        if self.size == 0 {
            proof {
                assert forall|slot: int| !self@.is_evictable(slot) by {
                    if self@.is_evictable(slot) {
                        assert(self@.evictable().contains(FrameId((slot + 1) as usize)));
                    }
                }
                self@.lemma_no_victim();
            }
            return None;
        }
        let ghost start = self@;
        let ghost lap: int = 0;
        let ghost passed: int = 0;
        proof {
            let member = start.evictable().choose();
            assert(start.evictable().contains(member));
            assert(start.is_evictable(member.0 - 1));
        }
        loop
            invariant
                start == old(self)@,
                start.wf(),
                old(self).inv(),
                self.count == self.entries@.len(),
                self.count == start.entries.len(),
                self.size == old(self).size,
                self.size > 0,
                exists|slot: int| start.is_evictable(slot),
                0 <= lap <= 1,
                0 <= passed < self.count,
                0 <= self.hand_index < self.count,
                start.ahead(self.hand_index as int) == passed,
                forall|i: int|
                    0 <= i < self.count ==> (#[trigger] self.entries@[i]).pinned
                        == start.entries[i].pinned,
                forall|i: int|
                    0 <= i < self.count && start.entries[i].pinned ==> (
                    #[trigger] self.entries@[i]).ref_bit == start.entries[i].ref_bit,
                forall|i: int|
                    0 <= i < self.count && !start.entries[i].pinned ==> (
                    #[trigger] self.entries@[i]).ref_bit == (start.entries[i].ref_bit && lap == 0
                        && start.ahead(i) >= passed),
                lap == 0 ==> forall|i: int|
                    start.is_evictable(i) && start.ahead(i) < passed ==> (
                    #[trigger] start.entries[i]).ref_bit,
                lap == 1 ==> forall|i: int|
                    start.is_evictable(i) ==> (#[trigger] start.entries[i]).ref_bit,
                lap == 1 ==> forall|i: int|
                    #![trigger start.entries[i]]
                    start.is_evictable(i) ==> start.ahead(i) >= passed,
            decreases 2 * self.count - (lap * self.count + passed),
        {
            let try_index: usize = self.hand_index;
            self.hand_index = if try_index + 1 == self.count {
                0
            } else {
                try_index + 1
            };
            let entry = self.entries[try_index];
            if !entry.pinned {
                if !entry.ref_bit {
                    self.size = self.size - 1;
                    self.entries.set(try_index, FrameEntry { pinned: true, ref_bit: false });
                    proof {
                        let slot = try_index as int;
                        assert(start.is_evictable(slot));
                        if lap == 0 {
                            assert(!start.entries[slot].ref_bit);
                            assert(start.has_unreferenced());
                        } else {
                            assert(!start.has_unreferenced());
                        }
                        assert(start.is_candidate(slot));
                        assert forall|other: int| #[trigger]
                            start.is_candidate(other) implies start.ahead(slot) <= start.ahead(
                            other,
                        ) by {
                            assert(start.entries[other] == start.entries[other]);
                        }
                        assert(start.is_victim(slot));
                        start.lemma_victim_is(slot);
                        assert(self@.entries =~= start.select(slot).entries);
                        assert(self@ == start.select(slot));
                        let frame_id = FrameId((try_index + 1) as usize);
                        assert(start.evictable().contains(frame_id));
                        assert(self@.evictable() =~= start.evictable().remove(frame_id));
                    }
                    return Some(FrameId(try_index + 1));
                }
                self.entries.set(try_index, FrameEntry { pinned: false, ref_bit: false });
            }
            proof {
                if passed + 1 == self.count {
                    if lap == 1 {
                        let slot = choose|slot: int| start.is_evictable(slot);
                        assert(start.entries[slot] == start.entries[slot]);
                        assert(false);
                    }
                    lap = lap + 1;
                    passed = 0;
                } else {
                    passed = passed + 1;
                }
            }
        }
    }

    fn pin(&mut self, frame_id: FrameId) {
        let FrameId(id) = frame_id;
        let entry = self.entries[id - 1];
        if !entry.pinned {
            proof {
                assert(self@.evictable().contains(frame_id));
            }
            self.entries.set(id - 1, FrameEntry { pinned: true, ref_bit: entry.ref_bit });
            self.size = self.size - 1;
        }
        proof {
            assert(self@.entries =~= old(self)@.pin(frame_id).entries);
            assert(self@.evictable() =~= old(self)@.evictable().remove(frame_id));
        }
    }

    fn unpin(&mut self, frame_id: FrameId) {
        let FrameId(id) = frame_id;
        let entry = self.entries[id - 1];
        self.entries.set(id - 1, FrameEntry { pinned: false, ref_bit: true });
        proof {
            assert(self@.entries =~= old(self)@.unpin(frame_id).entries);
            assert(self@.evictable() =~= old(self)@.evictable().insert(frame_id));
        }
        if entry.pinned {
            proof {
                assert(!old(self)@.evictable().contains(frame_id));
                lemma_frame_set_len(self@.evictable(), self.count as nat);
            }
            self.size = self.size + 1;
        }
    }

    fn size(&mut self) -> (size: usize) {
        self.size
    }
}

} // verus!
