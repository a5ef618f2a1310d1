//! The slot subscription session: one WebSocket subscription streams live
//! slot numbers, and on the first live notification the session prepends
//! the replay range from the persisted height, so restarts drop no slots.

use vstd::prelude::*;

use crate::domain::Slot;

verus! {

/// The identifier a `slotSubscribe` call returns and `slotUnsubscribe`
/// takes.
pub type SubscriptionId = u64;

/// The payload of one slot notification.
pub struct SlotNotification {
    pub slot: Slot,
}

/// The half-open range of slots from `lo` up to `hi` (empty when `lo >= hi`).
pub open spec fn slot_range(lo: Slot, hi: Slot) -> Seq<u64> {
    if lo <= hi {
        Seq::new((hi - lo) as nat, |i: int| (lo + i) as u64)
    } else {
        Seq::empty()
    }
}

/// What one session forwards for one notification carrying `slot`.
pub open spec fn emission(initial: Option<Slot>, slot: Slot) -> Seq<u64> {
    match initial {
        Some(s0) => slot_range(s0, slot).push(slot),
        None => seq![slot],
    }
}

/// The replay state of one subscription session: the slot to replay from,
/// cleared once the first live notification has been bridged.
pub struct SlotSession {
    initial_slot: Option<Slot>,
}

impl SlotSession {
    /// The slot the next notification will replay from, if any.
    pub closed spec fn spec_initial(&self) -> Option<Slot> {
        self.initial_slot
    }

    /// A session seeded from the persisted height, if one was stored.
    pub fn new(initial_slot: Option<Slot>) -> (r: Self)
        ensures
            r.spec_initial() == initial_slot,
    {
        Self { initial_slot }
    }

    /// The slots to forward for one live notification: on the first one,
    /// the replay range from the seed up to the live slot, then the live
    /// slot itself; afterwards just the live slot.
    pub fn on_notification(&mut self, slot: Slot) -> (out: Vec<Slot>)
        ensures
            final(self).spec_initial() is None,
            out@ == emission(old(self).spec_initial(), slot),
    {
        match self.initial_slot {
            Some(s0) => {
                self.initial_slot = None;
                let mut out: Vec<Slot> = Vec::new();
                let mut cur = s0;
                proof {
                    assert(out@ =~= slot_range(s0, if s0 <= slot {
                        s0
                    } else {
                        slot
                    }));
                }
                while cur < slot
                    invariant
                        s0 <= cur <= slot || (cur == s0 && slot < s0),
                        out@ == slot_range(s0, if s0 <= slot {
                            cur
                        } else {
                            slot
                        }),
                    decreases slot - cur,
                {
                    out.push(cur);
                    cur = cur + 1;
                    proof {
                        assert(out@ =~= slot_range(s0, cur));
                    }
                }
                out.push(slot);
                proof {
                    assert(out@ =~= emission(Some(s0), slot));
                }
                out
            },
            None => {
                let mut out: Vec<Slot> = Vec::new();
                out.push(slot);
                proof {
                    assert(out@ =~= emission(None::<Slot>, slot));
                }
                out
            },
        }
    }
}

/// Whether a sequence of slots never decreases.
pub open spec fn non_decreasing(s: Seq<u64>) -> bool {
    forall|a: int, b: int| 0 <= a <= b < s.len() ==> s[a] <= s[b]
}

/// What a whole session forwards for a stream of live notifications: the
/// first bridges the replay gap, the rest pass through.
pub open spec fn session_emission(initial: Option<Slot>, lives: Seq<u64>) -> Seq<u64>
    decreases lives.len(),
{
    if lives.len() == 0 {
        Seq::empty()
    } else {
        emission(initial, lives[0]) + session_emission(None, lives.drop_first())
    }
}

proof fn lemma_session_emission_none(lives: Seq<u64>)
    ensures
        session_emission(None, lives) == lives,
    decreases lives.len(),
{
    if lives.len() > 0 {
        lemma_session_emission_none(lives.drop_first());
        assert(emission(None, lives[0]) + lives.drop_first() =~= lives);
    }
}

/// Law: the forwarded heights are monotone. Whatever the persisted seed,
/// a session fed non-decreasing live slots forwards a non-decreasing slot
/// stream, so the persisted height never decreases across successful slot
/// processings.
pub proof fn lemma_session_monotone(initial: Option<Slot>, lives: Seq<u64>)
    requires
        non_decreasing(lives),
    ensures
        non_decreasing(session_emission(initial, lives)),
{
    if lives.len() == 0 {
    } else {
        let f = emission(initial, lives[0]);
        let r = lives.drop_first();
        lemma_session_emission_none(r);
        let e = session_emission(initial, lives);
        assert(e == f + r);
        // every slot of the first block is at most the first live slot, and
        // the block itself is non-decreasing
        assert(forall|i: int| 0 <= i < f.len() ==> #[trigger] f[i] <= lives[0]);
        assert(forall|a: int, b: int| 0 <= a <= b < f.len() ==> #[trigger] f[a] <= #[trigger] f[b]);
        assert forall|a: int, b: int| 0 <= a <= b < e.len() implies #[trigger] e[a]
            <= #[trigger] e[b] by {
            if b < f.len() {
            } else if a < f.len() {
                assert(e[a] == f[a]);
                assert(e[b] == r[b - f.len()]);
                assert(r[b - f.len()] == lives[b - f.len() + 1]);
                assert(lives[0] <= lives[b - f.len() + 1]);
            } else {
                assert(e[a] == lives[a - f.len() + 1]);
                assert(e[b] == lives[b - f.len() + 1]);
            }
        }
    }
}

} // verus!
