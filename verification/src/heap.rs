//! Heap bootstrap.
//!
//! At boot the firmware's memory map is walked once: every usable region is
//! reclaimed into the frame allocator, and then frames are drawn and mapped
//! one after another into a fixed, architecture-reserved virtual window at
//! increasing page offsets until the freelist is exhausted. The mapped
//! window `[HEAP_START, HEAP_START + pages * 4096)` is what the
//! general-purpose allocator is handed as its sole arena; reading the
//! firmware map and seeding the allocator are the caller's hardware edges.

use vstd::prelude::*;

use crate::frames::Freelist;
use crate::frames::REGION_END_MAX;
use crate::frames::region_frame_count;
use crate::frames::region_frames;
use crate::paging::PageTables;
use crate::paging::page_slot;

verus! {

/// The fixed virtual base of the heap window: the 320th 512-GiB slot of
/// the address space (320 shifted up by 39 bits).
pub const HEAP_START: u64 = 0xA000_0000_0000;

/// The flags heap pages are mapped with: present and writable.
pub const HEAP_FLAGS: u64 = 3;

/// One firmware-reported memory region; only usable regions are reclaimed.
#[derive(Clone, Copy)]
pub struct MemRegion {
    pub base: u64,
    pub length: u64,
    pub usable: bool,
}

/// How many frames the usable regions of the map yield altogether.
pub open spec fn usable_frames_total(rs: Seq<MemRegion>) -> int
    decreases rs.len(),
{
    if rs.len() == 0 {
        0
    } else {
        (if rs[0].usable {
            region_frame_count(rs[0].base, rs[0].length) as int
        } else {
            0
        }) + usable_frames_total(rs.drop_first())
    }
}

proof fn lemma_usable_total_step(rs: Seq<MemRegion>, i: int)
    requires
        0 <= i < rs.len(),
    ensures
        usable_frames_total(rs.take(i + 1)) == usable_frames_total(rs.take(i)) + (
        if rs[i].usable {
            region_frame_count(rs[i].base, rs[i].length) as int
        } else {
            0
        }),
    decreases i,
{
    if i == 0 {
        assert(rs.take(0) =~= Seq::<MemRegion>::empty());
        assert(rs.take(1) =~= seq![rs[0]]);
        assert(seq![rs[0]].drop_first() =~= Seq::<MemRegion>::empty());
    } else {
        lemma_usable_total_step(rs.drop_first(), i - 1);
        assert(rs.take(i + 1).drop_first() =~= rs.drop_first().take(i));
        assert(rs.take(i).drop_first() =~= rs.drop_first().take(i - 1));
        assert(rs.take(i + 1)[0] == rs[0]);
        assert(rs.take(i)[0] == rs[0]);
        assert(rs.drop_first()[i - 1] == rs[i]);
    }
}

proof fn lemma_heap_slots_distinct(k1: u64, k2: u64)
    requires
        k1 < 0x2000_0000,
        k2 < 0x2000_0000,
        k1 != k2,
    ensures
        page_slot((HEAP_START + 4096 * k1) as u64) != page_slot((HEAP_START + 4096 * k2) as u64),
{
    let va1 = (HEAP_START + 4096 * k1) as u64;
    let va2 = (HEAP_START + 4096 * k2) as u64;
    assert(va1 == 0xA000_0000_0000 + 4096 * k1);
    assert(va2 == 0xA000_0000_0000 + 4096 * k2);
    assert((k1 < 0x2000_0000 && k2 < 0x2000_0000 && k1 != k2 && va1 == 0xA000_0000_0000u64
        + 4096u64 * k1 && va2 == 0xA000_0000_0000u64 + 4096u64 * k2) ==> ((va1 >> 12)
        & 0xF_FFFF_FFFFu64) != ((va2 >> 12) & 0xF_FFFF_FFFFu64)) by (bit_vector);
}

/// Boot-time memory initialization: reclaims every usable region of the
/// firmware map into a fresh frame allocator, then maps frame after frame
/// into the heap window at increasing offsets until the freelist runs out.
/// Yields the exhausted allocator, the page tables, the number of pages the
/// window holds — every one of them translating to the frame recorded for
/// it, mapped read-write-present — and that record of frames.
pub fn mm_init(regions: &Vec<MemRegion>) -> (r: (Freelist, PageTables, u64, Ghost<Seq<u64>>))
    requires
        forall|i: int|
            0 <= i < regions@.len() && (#[trigger] regions@[i]).usable ==> regions@[i].base
                + regions@[i].length <= REGION_END_MAX,
        forall|i: int, j: int, f: u64|
            0 <= i < regions@.len() && 0 <= j < regions@.len() && i != j && regions@[i].usable
                && regions@[j].usable && #[trigger] region_frames(
                regions@[i].base,
                regions@[i].length,
            ).contains(f) ==> !(#[trigger] region_frames(
                regions@[j].base,
                regions@[j].length,
            ).contains(f)),
        usable_frames_total(regions@) < 0x2000_0000,
    ensures
        r.0.wf(),
        r.0@.len() == 0,
        r.1.wf(),
        r.3@.len() == r.2 as int,
        r.2 as int <= usable_frames_total(regions@),
        r.2 as int + r.1.num_tables() - 1 <= usable_frames_total(regions@) <= r.2 as int
            + r.1.num_tables(),
        forall|k: int|
            0 <= k < r.2 ==> (#[trigger] r.3@[k]) % 4096 == 0 && r.1.translate(
                (HEAP_START + 4096 * k) as u64,
            ) == Some(r.3@[k] | HEAP_FLAGS),
{
    let mut fl = Freelist::new();
    let ghost total = usable_frames_total(regions@);
    let mut i: usize = 0;
    proof {
        assert(regions@.take(0) =~= Seq::<MemRegion>::empty());
    }
    while i < regions.len()
        invariant
            fl.wf(),
            i <= regions@.len(),
            total == usable_frames_total(regions@),
            total < 0x2000_0000,
            fl@.len() == usable_frames_total(regions@.take(i as int)),
            forall|a: int|
                0 <= a < regions@.len() && (#[trigger] regions@[a]).usable ==> regions@[a].base
                    + regions@[a].length <= REGION_END_MAX,
            forall|a: int, b: int, f: u64|
                0 <= a < regions@.len() && 0 <= b < regions@.len() && a != b
                    && regions@[a].usable && regions@[b].usable && #[trigger] region_frames(
                    regions@[a].base,
                    regions@[a].length,
                ).contains(f) ==> !(#[trigger] region_frames(
                    regions@[b].base,
                    regions@[b].length,
                ).contains(f)),
            forall|f: u64|
                #[trigger] fl@.contains(f) ==> exists|j: int|
                    0 <= j < i && (#[trigger] regions@[j]).usable && region_frames(
                        regions@[j].base,
                        regions@[j].length,
                    ).contains(f),
        decreases regions@.len() - i,
    {
        let region = regions[i];
        proof {
            lemma_usable_total_step(regions@, i as int);
        }
        if region.usable {
            proof {
                assert forall|f: u64| region_frames(region.base, region.length).contains(f)
                    implies !fl@.contains(f) by {
                    if fl@.contains(f) {
                        let j = choose|j: int|
                            0 <= j < i && (#[trigger] regions@[j]).usable && region_frames(
                                regions@[j].base,
                                regions@[j].length,
                            ).contains(f);
                        assert(!region_frames(regions@[i as int].base, regions@[
                            i as int].length).contains(f));
                    }
                }
            }
            let ghost fl_before = fl@;
            fl.free_region(region.base, region.length);
            proof {
                assert forall|f: u64| #[trigger] fl@.contains(f) implies exists|j: int|
                    0 <= j < i + 1 && (#[trigger] regions@[j]).usable && region_frames(
                        regions@[j].base,
                        regions@[j].length,
                    ).contains(f) by {
                    let ix = choose|ix: int| 0 <= ix < fl@.len() && fl@[ix] == f;
                    if ix < fl_before.len() {
                        assert(fl_before[ix] == f);
                        assert(fl_before.contains(f));
                        let j = choose|j: int|
                            0 <= j < i && (#[trigger] regions@[j]).usable && region_frames(
                                regions@[j].base,
                                regions@[j].length,
                            ).contains(f);
                        assert(0 <= j < i + 1 && regions@[j].usable && region_frames(
                            regions@[j].base,
                            regions@[j].length,
                        ).contains(f));
                    } else {
                        assert(region_frames(region.base, region.length)[ix
                            - fl_before.len()] == f);
                        assert(region_frames(regions@[i as int].base, regions@[
                            i as int].length).contains(f));
                        assert(0 <= (i as int) < i + 1 && regions@[i as int].usable
                            && region_frames(regions@[i as int].base, regions@[
                            i as int].length).contains(f));
                    }
                }
            }
        }
        i = i + 1;
    }
    proof {
        assert(regions@.take(regions@.len() as int) =~= regions@);
    }
    let ghost reclaimed: int = fl@.len() as int;
    let mut tables = PageTables::new();
    let mut pages: u64 = 0;
    let ghost mut mapped: Seq<u64> = Seq::empty();
    loop
        invariant_except_break
            tables.num_tables() <= 1 + 3 * (pages as int),
            fl@.len() + (pages as int) + tables.num_tables() - 1 == reclaimed,
        invariant
            fl.wf(),
            tables.wf(),
            reclaimed < 0x2000_0000,
            fl@.len() + pages <= reclaimed,
            pages as int == mapped.len(),
            forall|k: int|
                0 <= k < pages ==> (#[trigger] mapped[k]) % 4096 == 0 && tables.translate(
                    (HEAP_START + 4096 * k) as u64,
                ) == Some(mapped[k] | HEAP_FLAGS),
        ensures
            fl@.len() == 0,
            fl.wf(),
            tables.wf(),
            pages as int == mapped.len(),
            pages <= reclaimed,
            (pages as int) + tables.num_tables() - 1 <= reclaimed <= (pages as int)
                + tables.num_tables(),
            forall|k: int|
                0 <= k < pages ==> (#[trigger] mapped[k]) % 4096 == 0 && tables.translate(
                    (HEAP_START + 4096 * k) as u64,
                ) == Some(mapped[k] | HEAP_FLAGS),
        decreases fl@.len(),
    {
        let page = match fl.unlink_page() {
            Some(page) => page,
            None => {
                // every reclaimed frame has become a heap page or a table
                proof {
                    assert((pages as int) + tables.num_tables() - 1 == reclaimed);
                }
                break;
            },
        };
        let ghost tables_before = tables;
        let v_address = HEAP_START + 4096 * pages;
        proof {
            assert(3u64 & 1 == 1) by (bit_vector);
        }
        let ok = tables.map_page(&mut fl, v_address, page, HEAP_FLAGS, 4096);
        proof {
            assert forall|k: int|
                0 <= k < pages implies (#[trigger] mapped[k]) % 4096 == 0 && tables.translate(
                    (HEAP_START + 4096 * k) as u64,
                ) == Some(mapped[k] | HEAP_FLAGS) by {
                lemma_heap_slots_distinct(k as u64, pages);
                assert(page_slot((HEAP_START + 4096 * k) as u64) != page_slot(v_address));
                assert(tables.translate((HEAP_START + 4096 * k) as u64)
                    == tables_before.translate((HEAP_START + 4096 * k) as u64));
            }
        }
        if !ok {
            // the freelist ran dry creating an intermediate level; every
            // reclaimed frame but the one in hand became a heap page or a
            // table, and the window ends with the pages already mapped
            proof {
                assert((pages as int) + tables.num_tables() == reclaimed);
            }
            break;
        }
        pages = pages + 1;
        proof {
            mapped = mapped.push(page);
        }
    }
    let r = (fl, tables, pages, Ghost(mapped));
    r
}

} // verus!
