//! Physical frame allocator.
//!
//! Firmware-reported usable memory is reclaimed as a stack of fixed-size
//! frames. The hardware keeps the stack as an intrusive list threaded through
//! the free frames themselves; here the stack of frame base addresses is the
//! verified model of that list: the head of the intrusive list is the top of
//! the stack, so acquisition is last-in, first-out. Every frame on the stack
//! is 4096-aligned and no frame appears twice.

use vstd::prelude::*;

verus! {

/// Byte size of one physical frame.
pub const FRAME_SIZE: u64 = 4096;

/// Largest `base + length` a reclaimed region may have, so that stepping
/// through it one frame at a time never overflows an address.
pub const REGION_END_MAX: u64 = 0xFFFF_FFFF_FFFF_F000;

/// The first frame base address at or above `base`.
pub open spec fn first_frame_at(base: u64) -> int {
    if base % 4096 == 0 {
        base as int
    } else {
        base + 4096 - (base % 4096)
    }
}

/// How many 4096-aligned frames lie wholly inside `[base, base + length)`:
/// one for each aligned address at or above `base` whose frame ends at or
/// before `base + length`.
pub open spec fn region_frame_count(base: u64, length: u64) -> nat {
    let start = first_frame_at(base);
    if start + 4096 <= base + length {
        ((base + length - start) / 4096) as nat
    } else {
        0
    }
}

/// The frame base addresses that reclaiming `[base, base + length)` pushes,
/// in push order: every 4096-aligned frame lying wholly inside the region,
/// lowest address first.
pub open spec fn region_frames(base: u64, length: u64) -> Seq<u64> {
    Seq::new(region_frame_count(base, length), |k: int| (first_frame_at(base) + 4096 * k) as u64)
}

proof fn lemma_first_frame_at(base: u64)
    ensures
        base <= first_frame_at(base) < base + 4096,
        first_frame_at(base) % 4096 == 0,
{
    vstd::arithmetic::div_mod::lemma_fundamental_div_mod(base as int, 4096);
    vstd::arithmetic::div_mod::lemma_mod_bound(base as int, 4096);
    if base % 4096 != 0 {
        let q = base as int / 4096;
        assert(first_frame_at(base) == 4096 * (q + 1));
        vstd::arithmetic::div_mod::lemma_mod_multiples_basic(q + 1, 4096);
        assert((q + 1) * 4096 == 4096 * (q + 1)) by (nonlinear_arith);
    }
}

proof fn lemma_frame_count_bounds(base: u64, length: u64)
    ensures
        first_frame_at(base) + 4096 <= base + length ==> 4096 * region_frame_count(base, length)
            <= base + length - first_frame_at(base) < 4096 * (region_frame_count(base, length)
            + 1),
        first_frame_at(base) + 4096 > base + length ==> region_frame_count(base, length) == 0,
{
    if first_frame_at(base) + 4096 <= base + length {
        let d = base + length - first_frame_at(base);
        vstd::arithmetic::div_mod::lemma_fundamental_div_mod(d, 4096);
        vstd::arithmetic::div_mod::lemma_mod_bound(d, 4096);
        assert(4096 * (d / 4096) == d - (d % 4096));
    }
}

/// The stack of currently free physical frames.
pub struct Freelist {
    frames: Vec<u64>,
}

impl View for Freelist {
    type V = Seq<u64>;

    closed spec fn view(&self) -> Seq<u64> {
        self.frames@
    }
}

impl Freelist {
    /// Every frame on the stack is 4096-aligned and listed once.
    pub open spec fn wf(&self) -> bool {
        &&& forall|i: int| 0 <= i < self@.len() ==> self@[i] % 4096 == 0
        &&& forall|i: int, j: int| 0 <= i < j < self@.len() ==> self@[i] != self@[j]
    }

    pub fn new() -> (r: Freelist)
        ensures
            r.wf(),
            r@ == Seq::<u64>::empty(),
    {
        Freelist { frames: Vec::new() }
    }

    /// Pushes one frame onto the stack. An unaligned address is ignored.
    /// The caller guarantees the frame is unused: pushing a frame that is
    /// still on the stack would corrupt it, so that input is excluded.
    pub fn link_page(&mut self, address: u64)
        requires
            old(self).wf(),
            address % 4096 == 0 ==> !old(self)@.contains(address),
        ensures
            final(self).wf(),
            address % 4096 == 0 ==> final(self)@ == old(self)@.push(address),
            address % 4096 != 0 ==> final(self)@ == old(self)@,
    {
        if address % 4096 != 0 {
            return;
        }
        self.frames.push(address);
    }

    /// Pops the most recently pushed frame, or `None` when the stack is
    /// empty (resource exhaustion, fatal to callers that need the frame).
    pub fn unlink_page(&mut self) -> (r: Option<u64>)
        requires
            old(self).wf(),
        ensures
            final(self).wf(),
            old(self)@.len() == 0 ==> r == None::<u64> && final(self)@ == old(self)@,
            old(self)@.len() > 0 ==> r == Some(old(self)@.last())
                && final(self)@ == old(self)@.drop_last(),
            r matches Some(f) ==> f % 4096 == 0,
    {
        let r = self.frames.pop();
        proof {
            if old(self)@.len() > 0 {
                assert(self@ =~= old(self)@.drop_last());
            }
        }
        r
    }

    /// Reclaims the firmware-reported region `[base, base + length)`,
    /// pushing every 4096-aligned frame lying wholly inside it, lowest
    /// address first. The firmware guarantees the region holds no frame
    /// already reclaimed.
    pub fn free_region(&mut self, base: u64, length: u64)
        requires
            old(self).wf(),
            base + length <= REGION_END_MAX,
            forall|f: u64| region_frames(base, length).contains(f)
                ==> !old(self)@.contains(f),
        ensures
            final(self).wf(),
            final(self)@ == old(self)@ + region_frames(base, length),
    {
        let ghost total: nat = region_frame_count(base, length);
        proof {
            lemma_first_frame_at(base);
        }
        let end = base + length;
        let remainder = base % 4096;
        let mut page = if remainder == 0 {
            base
        } else {
            base + (4096 - remainder)
        };
        let ghost mut k: int = 0;
        proof {
            assert(region_frames(base, length).take(0) =~= Seq::<u64>::empty());
        }
        while page < end && end - page >= 4096
            invariant
                self.wf(),
                total == region_frame_count(base, length),
                end == base + length,
                base + length <= REGION_END_MAX,
                0 <= k <= total,
                page as int == first_frame_at(base) + 4096 * k,
                page % 4096 == 0,
                self@ == old(self)@ + region_frames(base, length).take(k),
                forall|f: u64| region_frames(base, length).contains(f)
                    ==> !old(self)@.contains(f),
            decreases end - page,
        {
            proof {
                lemma_first_frame_at(base);
                lemma_frame_count_bounds(base, length);
                assert(first_frame_at(base) + 4096 <= end);
                assert(4096 * (k + 1) <= end - first_frame_at(base));
                assert(k < total);
                assert(region_frames(base, length)[k] == page);
                assert(region_frames(base, length).contains(page));
                assert(!old(self)@.contains(page));
                assert forall|i: int| 0 <= i < self@.len() implies self@[i] != page by {
                    if i < old(self)@.len() {
                        assert(old(self)@[i] == self@[i]);
                        assert(old(self)@.contains(self@[i]));
                    } else {
                        let j = i - old(self)@.len();
                        assert(self@[i] == region_frames(base, length)[j]);
                        assert(self@[i] == (first_frame_at(base) + 4096 * j) as u64);
                    }
                }
                assert(!self@.contains(page));
            }
            self.link_page(page);
            proof {
                assert(region_frames(base, length).take(k + 1)
                    =~= region_frames(base, length).take(k).push(page));
                assert(self@ =~= old(self)@ + region_frames(base, length).take(k + 1));
                k = k + 1;
            }
            page = page + 4096;
            proof {
                vstd::arithmetic::div_mod::lemma_mod_multiples_vanish(
                    1,
                    page - 4096,
                    4096,
                );
            }
        }
        proof {
            lemma_frame_count_bounds(base, length);
            if first_frame_at(base) + 4096 <= base + length {
                // the loop stopped exactly past the region's last whole frame
                assert(4096 * (k + 1) > end - first_frame_at(base));
                assert(k >= total);
            }
            assert(k == total);
            assert(region_frames(base, length).take(total as int)
                =~= region_frames(base, length));
            assert(self@ =~= old(self)@ + region_frames(base, length));
        }
    }
}

/// Law: releasing a frame and then acquiring returns that frame, before any
/// earlier-released one — the stack is last-in, first-out. Stated over the
/// stack model that `link_page` pushes to and `unlink_page` pops from.
pub proof fn lemma_release_then_acquire(fl: Seq<u64>, frame: u64)
    ensures
        fl.push(frame).last() == frame,
        fl.push(frame).drop_last() == fl,
{
    assert(fl.push(frame).drop_last() =~= fl);
}

/// Law: two acquisitions with no release in between return distinct frames —
/// no frame is ever handed out twice, because a well-formed stack lists each
/// frame at most once.
pub proof fn lemma_acquire_twice_distinct(fl: Freelist)
    requires
        fl.wf(),
        fl@.len() >= 2,
    ensures
        fl@.last() != fl@.drop_last().last(),
{
    assert(fl@.drop_last().last() == fl@[fl@.len() - 2]);
}

} // verus!
