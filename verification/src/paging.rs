//! Address-space mapper: a four-level radix tree of 512-entry tables.
//!
//! The hardware walks page tables stored in physical frames; here the
//! hierarchy is modelled as an arena of tables, where a table's "address"
//! is its index shifted into the frame-address bits of an entry. An entry
//! is either not present (bit 0 clear) or carries a payload and flags; an
//! intermediate entry's payload is the next table, a leaf entry's payload
//! is the mapped physical page. Walking to a missing intermediate table
//! acquires a frame from the freelist, zero-fills a fresh table — so no
//! residual data can form accidental mappings — and links it with
//! read-write-present flags, exactly as the hardware-facing walk does.

use vstd::prelude::*;

use crate::frames::Freelist;

verus! {

/// Nine bits of the virtual address, starting at bit `12 + 9 * level`:
/// the index into the table at walk level `level`.
pub open spec fn level_index(va: u64, level: u64) -> int {
    ((va >> ((12 + 9 * level) as u64)) & 0x1FF) as int
}

/// The 36 bits that select a leaf slot: the four level indices together.
/// Two addresses with the same slot are mapped by the same leaf entry.
pub open spec fn page_slot(va: u64) -> int {
    ((va >> 12) & 0xF_FFFF_FFFFu64) as int
}

/// Whether an entry is present.
pub open spec fn entry_present(e: u64) -> bool {
    e & 1 == 1
}

/// The table index an intermediate entry points to.
pub open spec fn entry_child(e: u64) -> int {
    ((e & 0xFFFF_FFFF_FFFF_F000u64) >> 12) as int
}

/// A freshly scrubbed table: 512 entries, none present.
pub open spec fn zero_table() -> Seq<u64> {
    Seq::new(512, |i: int| 0u64)
}

/// Greatest number of tables the arena may reach while an entry can still
/// encode the next one.
pub open spec fn table_cap() -> int {
    0x10_0000_0000_0000
}

proof fn lemma_level_index_bounds(va: u64, level: u64)
    requires
        level <= 3,
    ensures
        0 <= level_index(va, level) < 512,
{
    let sh = (12 + 9 * level) as u64;
    assert((va >> sh) & 0x1FF < 512) by (bit_vector);
}

proof fn lemma_child_entry_bits(c: u64)
    requires
        c < 0x10_0000_0000_0000,
    ensures
        entry_present((c << 12) | 7),
        entry_child((c << 12) | 7) == c,
{
    assert(((c << 12) | 7) & 1 == 1) by (bit_vector);
    assert(c < 0x10_0000_0000_0000 ==> ((((c << 12) | 7) & 0xFFFF_FFFF_FFFF_F000u64) >> 12)
        == c) by (bit_vector);
}

proof fn lemma_mapped_entry_nonzero(p: u64, f: u64)
    requires
        f & 1 == 1,
    ensures
        entry_present(p | f),
        p | f != 0,
{
    assert(f & 1 == 1 ==> (p | f) & 1 == 1) by (bit_vector);
    assert((p | f) & 1 == 1 ==> (p | f) != 0) by (bit_vector);
}

proof fn lemma_same_indices_same_slot(va1: u64, va2: u64)
    requires
        level_index(va1, 3) == level_index(va2, 3),
        level_index(va1, 2) == level_index(va2, 2),
        level_index(va1, 1) == level_index(va2, 1),
        level_index(va1, 0) == level_index(va2, 0),
    ensures
        page_slot(va1) == page_slot(va2),
{
    assert((((va1 >> 39) & 0x1FF) == ((va2 >> 39) & 0x1FF) && ((va1 >> 30) & 0x1FF) == ((va2
        >> 30) & 0x1FF) && ((va1 >> 21) & 0x1FF) == ((va2 >> 21) & 0x1FF) && ((va1 >> 12)
        & 0x1FF) == ((va2 >> 12) & 0x1FF)) ==> ((va1 >> 12) & 0xF_FFFF_FFFFu64) == ((va2 >> 12)
        & 0xF_FFFF_FFFFu64)) by (bit_vector);
}

/// The page-table arena. `tables[0]` is the root; the ghost `levels`
/// records each table's height in the hierarchy (the root is 4, leaf
/// tables are 1) and carries the structural invariant.
pub struct PageTables {
    tables: Vec<Vec<u64>>,
    levels: Ghost<Seq<int>>,
}

impl PageTables {
    /// The arena's tables, as sequences of entries.
    pub closed spec fn tbl(&self) -> Seq<Seq<u64>> {
        self.tables@.map_values(|t: Vec<u64>| t@)
    }

    /// How many tables the arena holds.
    pub closed spec fn num_tables(&self) -> int {
        self.tbl().len() as int
    }

    /// Structural invariant: the root exists at height 4; every table has
    /// 512 entries and a height between 1 and 4; every present entry of a
    /// table above height 1 points below the arena's end, one height down,
    /// and never at the root; and no two present intermediate entries point
    /// at the same table, so the arena is a tree.
    pub closed spec fn wf(&self) -> bool {
        let ts = self.tbl();
        let lv = self.levels@;
        &&& ts.len() >= 1
        &&& ts.len() <= table_cap()
        &&& lv.len() == ts.len()
        &&& lv[0] == 4
        &&& forall|t: int| 0 <= t < ts.len() ==> (#[trigger] ts[t]).len() == 512
        &&& forall|t: int| 0 <= t < ts.len() ==> 1 <= #[trigger] lv[t] <= 4
        &&& forall|t: int| 0 <= t < ts.len() ==> (lv[t] == 4 <==> t == 0)
        &&& forall|t: int, j: int|
            0 <= t < ts.len() && 0 <= j < 512 && lv[t] >= 2 && entry_present(#[trigger] ts[t][j])
                ==> 0 < entry_child(ts[t][j]) < ts.len() && lv[entry_child(ts[t][j])] == lv[t]
                - 1
        &&& forall|t1: int, j1: int, t2: int, j2: int|
            0 <= t1 < ts.len() && 0 <= j1 < 512 && 0 <= t2 < ts.len() && 0 <= j2 < 512
                && lv[t1] >= 2 && lv[t2] >= 2 && entry_present(#[trigger] ts[t1][j1])
                && entry_present(#[trigger] ts[t2][j2]) && (t1 != t2 || j1 != j2)
                ==> entry_child(ts[t1][j1]) != entry_child(ts[t2][j2])
    }

    /// The mapping the hierarchy encodes for `va`: the leaf entry reached
    /// by the four-level walk, or `None` when an intermediate entry is
    /// absent or the leaf entry is zero.
    pub closed spec fn translate(&self, va: u64) -> Option<u64> {
        let ts = self.tbl();
        let e3 = ts[0][level_index(va, 3)];
        if !entry_present(e3) {
            None
        } else {
            let e2 = ts[entry_child(e3)][level_index(va, 2)];
            if !entry_present(e2) {
                None
            } else {
                let e1 = ts[entry_child(e2)][level_index(va, 1)];
                if !entry_present(e1) {
                    None
                } else {
                    let leaf = ts[entry_child(e1)][level_index(va, 0)];
                    if leaf == 0 {
                        None
                    } else {
                        Some(leaf)
                    }
                }
            }
        }
    }
}

impl PageTables {
    /// The height of table `t` in the hierarchy.
    pub closed spec fn level_of(&self, t: int) -> int {
        self.levels@[t]
    }

    /// The heights of all tables, in arena order.
    pub closed spec fn level_seq(&self) -> Seq<int> {
        self.levels@
    }
}

/// A fresh all-zero table.
fn make_zero_table() -> (r: Vec<u64>)
    ensures
        r@ == zero_table(),
{
    let mut r: Vec<u64> = Vec::new();
    let mut i: usize = 0;
    while i < 512
        invariant
            i <= 512,
            r@.len() == i,
            forall|j: int| 0 <= j < i ==> r@[j] == 0u64,
        decreases 512 - i,
    {
        r.push(0);
        i = i + 1;
    }
    proof {
        assert(r@ =~= zero_table());
    }
    r
}

/// Index into the table at walk level `level` for `v_address`: the nine
/// address bits starting at bit `12 + 9 * level`, as the hardware walk
/// extracts them.
pub fn walk_index(v_address: u64, level: u64) -> (r: usize)
    requires
        level <= 3,
    ensures
        r as int == level_index(v_address, level),
        r < 512,
{
    proof {
        lemma_level_index_bounds(v_address, level);
    }
    ((v_address >> (12 + 9 * level)) & 0x1FF) as usize
}

impl PageTables {
    /// An arena holding only the scrubbed root: nothing is mapped.
    pub fn new() -> (r: PageTables)
        ensures
            r.wf(),
            r.num_tables() == 1,
            forall|va: u64| r.translate(va) == None::<u64>,
    {
        let root = make_zero_table();
        let mut tables: Vec<Vec<u64>> = Vec::new();
        tables.push(root);
        let ghost root_level: Seq<int> = seq![4int];
        let r = PageTables { tables, levels: Ghost(root_level) };
        proof {
            assert(r.tbl() =~= seq![zero_table()]);
            assert(0u64 & 1 != 1) by (bit_vector);
            assert forall|t: int, j: int| 0 <= t < r.tbl().len() && 0 <= j < 512 implies
                !entry_present(#[trigger] r.tbl()[t][j]) by {
                assert(r.tbl()[t][j] == 0u64);
            }
            assert forall|va: u64| r.translate(va) == None::<u64> by {
                lemma_level_index_bounds(va, 3);
                assert(!entry_present(r.tbl()[0][level_index(va, 3)]));
            }
        }
        r
    }

    /// The translation walk, executed: yields exactly what
    /// [`Self::translate`] says the hierarchy encodes for `v_address`.
    pub fn translate_page(&self, v_address: u64) -> (r: Option<u64>)
        requires
            self.wf(),
        ensures
            r == self.translate(v_address),
    {
        let arena = self.tables.len();
        let i3 = walk_index(v_address, 3);
        let e3 = self.tables[0][i3];
        proof {
            assert(self.tbl()[0] == self.tables@[0]@);
            assert(e3 == self.tbl()[0][i3 as int]);
        }
        if e3 & 1 != 1 {
            return None;
        }
        proof {
            assert(entry_present(self.tbl()[0][i3 as int]));
            assert(0 < entry_child(e3) < self.tbl().len());
        }
        let t3 = ((e3 & 0xFFFF_FFFF_FFFF_F000) >> 12) as usize;
        let i2 = walk_index(v_address, 2);
        proof {
            assert(t3 as int == entry_child(e3));
            assert(self.tbl()[t3 as int] == self.tables@[t3 as int]@);
            assert(self.tbl()[t3 as int].len() == 512);
        }
        let e2 = self.tables[t3][i2];
        proof {
            assert(e2 == self.tbl()[t3 as int][i2 as int]);
        }
        if e2 & 1 != 1 {
            return None;
        }
        proof {
            assert(entry_present(self.tbl()[t3 as int][i2 as int]));
            assert(0 < entry_child(e2) < self.tbl().len());
        }
        let t2 = ((e2 & 0xFFFF_FFFF_FFFF_F000) >> 12) as usize;
        let i1 = walk_index(v_address, 1);
        proof {
            assert(t2 as int == entry_child(e2));
            assert(self.tbl()[t2 as int] == self.tables@[t2 as int]@);
            assert(self.tbl()[t2 as int].len() == 512);
        }
        let e1 = self.tables[t2][i1];
        proof {
            assert(e1 == self.tbl()[t2 as int][i1 as int]);
        }
        if e1 & 1 != 1 {
            return None;
        }
        proof {
            assert(entry_present(self.tbl()[t2 as int][i1 as int]));
            assert(0 < entry_child(e1) < self.tbl().len());
        }
        let t1 = ((e1 & 0xFFFF_FFFF_FFFF_F000) >> 12) as usize;
        let i0 = walk_index(v_address, 0);
        proof {
            assert(t1 as int == entry_child(e1));
            assert(self.tbl()[t1 as int] == self.tables@[t1 as int]@);
            assert(self.tbl()[t1 as int].len() == 512);
        }
        let leaf = self.tables[t1][i0];
        proof {
            assert(leaf == self.tbl()[t1 as int][i0 as int]);
        }
        if leaf == 0 {
            None
        } else {
            Some(leaf)
        }
    }

    /// Returns the table one level down from `table` for `v_address`,
    /// materializing it when absent: a frame is drawn from the freelist
    /// and a zero-filled table is linked in its place with
    /// read-write-present flags. Returns the root's index 0 — never a
    /// child — as the sentinel when frame acquisition fails.
    pub fn get_next_level(&mut self, fl: &mut Freelist, table: usize, v_address: u64, level: u64)
        -> (r: usize)
        requires
            old(self).wf(),
            old(fl).wf(),
            (table as int) < old(self).num_tables(),
            1 <= level <= 3,
            old(self).level_of(table as int) == level + 1,
            old(self).num_tables() + 1 <= table_cap(),
        ensures
            final(self).wf(),
            final(fl).wf(),
            ({
                let ts = old(self).tbl();
                let idx = level_index(v_address, level);
                let e = ts[table as int][idx];
                if entry_present(e) {
                    &&& final(self).tbl() == ts
                    &&& final(self).level_seq() == old(self).level_seq()
                    &&& final(fl)@ == old(fl)@
                    &&& r as int == entry_child(e)
                } else if old(fl)@.len() == 0 {
                    &&& final(self).tbl() == ts
                    &&& final(self).level_seq() == old(self).level_seq()
                    &&& final(fl)@ == old(fl)@
                    &&& r == 0
                } else {
                    &&& r as int == ts.len()
                    &&& final(self).tbl() == ts.update(
                        table as int,
                        ts[table as int].update(idx, ((ts.len() as u64) << 12) | 7),
                    ).push(zero_table())
                    &&& final(self).level_seq() == old(self).level_seq().push(level as int)
                    &&& final(fl)@ == old(fl)@.drop_last()
                }
            }),
            r != 0 ==> 0 < (r as int) < final(self).num_tables() && final(self).level_of(r as int)
                == level && entry_present(
                final(self).tbl()[table as int][level_index(v_address, level)],
            ) && entry_child(final(self).tbl()[table as int][level_index(v_address, level)])
                == r as int,
            r == 0 ==> final(self).tbl() == old(self).tbl() && final(self).level_seq() == old(
                self,
            ).level_seq() && final(fl)@ == old(fl)@ && !entry_present(
                old(self).tbl()[table as int][level_index(v_address, level)],
            ) && old(fl)@.len() == 0,
            final(self).num_tables() <= old(self).num_tables() + 1,
            old(fl)@.len() - final(fl)@.len() == final(self).num_tables() - old(
                self,
            ).num_tables(),
    {
        let ghost ts0 = self.tbl();
        let idx = walk_index(v_address, level);
        proof {
            assert(ts0[table as int] == self.tables@[table as int]@);
            assert(ts0[table as int].len() == 512);
        }
        let entry = self.tables[table][idx];
        proof {
            assert(entry == ts0[table as int][idx as int]);
        }
        if entry & 1 == 1 {
            proof {
                assert(entry_present(ts0[table as int][idx as int]));
                // a present entry's child is inside the arena (structure
                // invariant), so the cast below is exact
                assert(0 < entry_child(entry) < ts0.len());
            }
            let arena_len = self.tables.len();
            let child = ((entry & 0xFFFF_FFFF_FFFF_F000) >> 12) as usize;
            return child;
        }
        match fl.unlink_page() {
            None => {
                proof {
                    assert(!entry_present(ts0[table as int][idx as int]));
                }
                0
            },
            Some(_frame) => {
                let n = self.tables.len();
                proof {
                    lemma_child_entry_bits(n as u64);
                    assert(0u64 & 1 != 1) by (bit_vector);
                }
                let mut row = self.tables.remove(table);
                proof {
                    assert(row@ == ts0[table as int]);
                    assert(row@.len() == 512);
                }
                row.set(idx, ((n as u64) << 12) | 7);
                self.tables.insert(table, row);
                let zt = make_zero_table();
                self.tables.push(zt);
                self.levels = Ghost(self.levels@.push(level as int));
                proof {
                    let e_new = ((n as u64) << 12) | 7;
                    let ts1 = self.tbl();
                    assert(ts1 =~~= ts0.update(
                        table as int,
                        ts0[table as int].update(idx as int, e_new),
                    ).push(zero_table()));
                    let lv1 = self.levels@;
                    assert(ts1.len() == n + 1);
                    assert(ts1[n as int] == zero_table());
                    assert(ts1[table as int] == ts0[table as int].update(idx as int, e_new));
                    assert forall|t: int| 0 <= t < n && t != table as int implies ts1[t]
                        == ts0[t] by {}
                    assert forall|j: int| 0 <= j < 512 implies !entry_present(
                        #[trigger] ts1[n as int][j],
                    ) by {
                        assert(ts1[n as int][j] == 0u64);
                    }
                    assert forall|t: int, j: int|
                        0 <= t < ts1.len() && 0 <= j < 512 && lv1[t] >= 2 && entry_present(
                            #[trigger] ts1[t][j],
                        ) implies 0 < entry_child(ts1[t][j]) < ts1.len() && lv1[entry_child(
                        ts1[t][j],
                    )] == lv1[t] - 1 by {
                        if t == table as int && j == idx as int {
                            assert(entry_child(ts1[t][j]) == n);
                        } else if t == n as int {
                        } else {
                            assert(ts1[t][j] == ts0[t][j]);
                            assert(entry_present(ts0[t][j]));
                        }
                    }
                    assert forall|t1: int, j1: int, t2: int, j2: int|
                        0 <= t1 < ts1.len() && 0 <= j1 < 512 && 0 <= t2 < ts1.len() && 0 <= j2
                            < 512 && lv1[t1] >= 2 && lv1[t2] >= 2 && entry_present(
                            #[trigger] ts1[t1][j1],
                        ) && entry_present(#[trigger] ts1[t2][j2]) && (t1 != t2 || j1 != j2)
                        implies entry_child(ts1[t1][j1]) != entry_child(ts1[t2][j2]) by {
                        if t1 == table as int && j1 == idx as int {
                            if !(t2 == table as int && j2 == idx as int) && t2 != n as int {
                                assert(ts1[t2][j2] == ts0[t2][j2]);
                                assert(entry_child(ts0[t2][j2]) < ts0.len());
                            }
                        } else if t2 == table as int && j2 == idx as int {
                            if t1 != n as int {
                                assert(ts1[t1][j1] == ts0[t1][j1]);
                                assert(entry_child(ts0[t1][j1]) < ts0.len());
                            }
                        } else if t1 != n as int && t2 != n as int {
                            assert(ts1[t1][j1] == ts0[t1][j1]);
                            assert(ts1[t2][j2] == ts0[t2][j2]);
                        }
                    }
                }
                n
            },
        }
    }
}

proof fn lemma_translate_same_tables(a: PageTables, b: PageTables)
    requires
        a.tbl() == b.tbl(),
    ensures
        forall|va: u64| a.translate(va) == b.translate(va),
{
    assert forall|va: u64| a.translate(va) == b.translate(va) by {}
}

proof fn lemma_translate_unchanged_after_create(
    pre: PageTables,
    post: PageTables,
    tb: int,
    j0: int,
    level: u64,
)
    requires
        pre.wf(),
        post.wf(),
        0 <= tb < pre.num_tables(),
        0 <= j0 < 512,
        1 <= level <= 3,
        pre.level_seq()[tb] == level + 1,
        !entry_present(pre.tbl()[tb][j0]),
        pre.num_tables() + 1 <= table_cap(),
        post.tbl() == pre.tbl().update(
            tb,
            pre.tbl()[tb].update(j0, ((pre.tbl().len() as u64) << 12) | 7),
        ).push(zero_table()),
        post.level_seq() == pre.level_seq().push(level as int),
    ensures
        forall|va: u64| post.translate(va) == pre.translate(va),
{
    let ts0 = pre.tbl();
    let ts1 = post.tbl();
    let n = ts0.len() as int;
    let e_new = ((ts0.len() as u64) << 12) | 7;
    lemma_child_entry_bits(ts0.len() as u64);
    assert(0u64 & 1 != 1) by (bit_vector);
    assert(ts1.len() == n + 1);
    assert(ts1[n] == zero_table());
    assert(ts1[tb] == ts0[tb].update(j0, e_new));
    assert forall|t: int| 0 <= t < n && t != tb implies ts1[t] == ts0[t] by {}
    assert forall|va: u64| post.translate(va) == pre.translate(va) by {
        lemma_level_index_bounds(va, 3);
        lemma_level_index_bounds(va, 2);
        lemma_level_index_bounds(va, 1);
        lemma_level_index_bounds(va, 0);
        let i3 = level_index(va, 3);
        let i2 = level_index(va, 2);
        let i1 = level_index(va, 1);
        let i0 = level_index(va, 0);
        if tb == 0 && i3 == j0 {
            // the walk died here before; now it reaches the scrubbed table
            // and dies one level down
            assert(ts1[0][i3] == e_new);
            assert(entry_child(e_new) == n);
            assert(ts1[n][i2] == 0u64);
        } else {
            assert(ts1[0][i3] == ts0[0][i3]);
            let e3 = ts0[0][i3];
            if entry_present(e3) {
                let t3 = entry_child(e3);
                assert(0 < t3 < n && pre.level_seq()[t3] == 3);
                if t3 == tb && i2 == j0 {
                    assert(ts1[t3][i2] == e_new);
                    assert(ts1[n][i1] == 0u64);
                } else {
                    assert(ts1[t3][i2] == ts0[t3][i2]);
                    let e2 = ts0[t3][i2];
                    if entry_present(e2) {
                        let t2 = entry_child(e2);
                        assert(0 < t2 < n && pre.level_seq()[t2] == 2);
                        if t2 == tb && i1 == j0 {
                            assert(ts1[t2][i1] == e_new);
                            assert(ts1[n][i0] == 0u64);
                        } else {
                            assert(ts1[t2][i1] == ts0[t2][i1]);
                            let e1 = ts0[t2][i1];
                            if entry_present(e1) {
                                let t1 = entry_child(e1);
                                assert(0 < t1 < n && pre.level_seq()[t1] == 1);
                                assert(t1 != tb);
                                assert(ts1[t1][i0] == ts0[t1][i0]);
                            }
                        }
                    }
                }
            }
        }
    }
}

proof fn lemma_translate_after_leaf_write(
    pre: PageTables,
    post: PageTables,
    va: u64,
    t3: int,
    t2: int,
    t1: int,
    value: u64,
)
    requires
        pre.wf(),
        post.wf(),
        entry_present(pre.tbl()[0][level_index(va, 3)]),
        t3 == entry_child(pre.tbl()[0][level_index(va, 3)]),
        entry_present(pre.tbl()[t3][level_index(va, 2)]),
        t2 == entry_child(pre.tbl()[t3][level_index(va, 2)]),
        entry_present(pre.tbl()[t2][level_index(va, 1)]),
        t1 == entry_child(pre.tbl()[t2][level_index(va, 1)]),
        post.tbl() == pre.tbl().update(t1, pre.tbl()[t1].update(level_index(va, 0), value)),
        post.level_seq() == pre.level_seq(),
    ensures
        post.translate(va) == (if value == 0 {
            None::<u64>
        } else {
            Some(value)
        }),
        forall|va2: u64|
            page_slot(va2) != page_slot(va) ==> post.translate(va2) == pre.translate(va2),
{
    let ts0 = pre.tbl();
    let ts1 = post.tbl();
    let n = ts0.len() as int;
    let lv = pre.level_seq();
    lemma_level_index_bounds(va, 3);
    lemma_level_index_bounds(va, 2);
    lemma_level_index_bounds(va, 1);
    lemma_level_index_bounds(va, 0);
    let i3 = level_index(va, 3);
    let i2 = level_index(va, 2);
    let i1 = level_index(va, 1);
    let i0 = level_index(va, 0);
    assert(0 < t3 < n && lv[t3] == 3);
    assert(0 < t2 < n && lv[t2] == 2);
    assert(0 < t1 < n && lv[t1] == 1);
    assert(ts1[t1] == ts0[t1].update(i0, value));
    assert forall|t: int| 0 <= t < n && t != t1 implies ts1[t] == ts0[t] by {}
    assert(ts1[0][i3] == ts0[0][i3]);
    assert(ts1[t3][i2] == ts0[t3][i2]);
    assert(ts1[t2][i1] == ts0[t2][i1]);
    assert(ts1[t1][i0] == value);
    assert forall|va2: u64| page_slot(va2) != page_slot(va) implies post.translate(va2)
        == pre.translate(va2) by {
        lemma_level_index_bounds(va2, 3);
        lemma_level_index_bounds(va2, 2);
        lemma_level_index_bounds(va2, 1);
        lemma_level_index_bounds(va2, 0);
        let k3 = level_index(va2, 3);
        let k2 = level_index(va2, 2);
        let k1 = level_index(va2, 1);
        let k0 = level_index(va2, 0);
        assert(ts1[0][k3] == ts0[0][k3]);
        let f3 = ts0[0][k3];
        if entry_present(f3) {
            let u3 = entry_child(f3);
            assert(0 < u3 < n && lv[u3] == 3);
            assert(ts1[u3][k2] == ts0[u3][k2]);
            let f2 = ts0[u3][k2];
            if entry_present(f2) {
                let u2 = entry_child(f2);
                assert(0 < u2 < n && lv[u2] == 2);
                assert(ts1[u2][k1] == ts0[u2][k1]);
                let f1 = ts0[u2][k1];
                if entry_present(f1) {
                    let u1 = entry_child(f1);
                    assert(0 < u1 < n && lv[u1] == 1);
                    if u1 == t1 && k0 == i0 {
                        // same leaf entry means the same walk all the way up
                        // (the arena is a tree), hence the same slot
                        if u2 != t2 || k1 != i1 {
                            assert(entry_child(ts0[u2][k1]) != entry_child(ts0[t2][i1]));
                            assert(false);
                        }
                        if u3 != t3 || k2 != i2 {
                            assert(entry_child(ts0[u3][k2]) != entry_child(ts0[t3][i2]));
                            assert(false);
                        }
                        if k3 != i3 {
                            assert(entry_child(ts0[0][k3]) != entry_child(ts0[0][i3]));
                            assert(false);
                        }
                        lemma_same_indices_same_slot(va2, va);
                        assert(false);
                    } else {
                        assert(ts1[u1][k0] == ts0[u1][k0]);
                    }
                }
            }
        }
    }
}

impl PageTables {
    /// Maps the 4096-byte page at `v_address` to the physical page
    /// `p_address` with `flags`, materializing missing intermediate levels
    /// from the freelist. Fails — abandoning the mapping with nothing
    /// mapped at `v_address` — exactly when frame acquisition fails, which
    /// leaves the freelist exhausted. Whatever happens, the translation of
    /// every other leaf slot is untouched. Only the 4096-byte leaf size
    /// exists; any other size is a contract violation.
    #[verifier::rlimit(100)]
    pub fn map_page(
        &mut self,
        fl: &mut Freelist,
        v_address: u64,
        p_address: u64,
        flags: u64,
        size: u64,
    ) -> (ok: bool)
        requires
            old(self).wf(),
            old(fl).wf(),
            size == 4096,
            p_address % 4096 == 0,
            flags & 1 == 1,
            flags < 4096,
            old(self).num_tables() + 3 <= table_cap(),
        ensures
            final(self).wf(),
            final(fl).wf(),
            final(fl)@ == old(fl)@.take(final(fl)@.len() as int),
            old(fl)@.len() - 3 <= final(fl)@.len() <= old(fl)@.len(),
            final(self).num_tables() <= old(self).num_tables() + 3,
            ok ==> final(self).translate(v_address) == Some(p_address | flags),
            !ok ==> final(fl)@.len() == 0 && final(self).translate(v_address) is None,
            old(fl)@.len() - final(fl)@.len() == final(self).num_tables() - old(
                self,
            ).num_tables(),
            forall|va2: u64|
                page_slot(va2) != page_slot(v_address) ==> final(self).translate(va2) == old(
                    self,
                ).translate(va2),
    {
        let ghost s0 = *self;
        let ghost fl0 = *fl;
        proof {
            lemma_level_index_bounds(v_address, 3);
            lemma_level_index_bounds(v_address, 2);
            lemma_level_index_bounds(v_address, 1);
            lemma_level_index_bounds(v_address, 0);
        }
        let level3 = self.get_next_level(fl, 0, v_address, 3);
        let ghost s1 = *self;
        proof {
            if !entry_present(s0.tbl()[0][level_index(v_address, 3)]) && fl0@.len() > 0 {
                lemma_translate_unchanged_after_create(
                    s0,
                    s1,
                    0,
                    level_index(v_address, 3),
                    3,
                );
            } else {
                lemma_translate_same_tables(s1, s0);
            }
            assert(fl@ =~= fl0@.take(fl@.len() as int));
        }
        if level3 == 0 {
            return false;
        }
        let level2 = self.get_next_level(fl, level3, v_address, 2);
        let ghost s2 = *self;
        proof {
            if !entry_present(s1.tbl()[level3 as int][level_index(v_address, 2)])
                && s2.num_tables() > s1.num_tables() {
                lemma_translate_unchanged_after_create(
                    s1,
                    s2,
                    level3 as int,
                    level_index(v_address, 2),
                    2,
                );
            } else {
                lemma_translate_same_tables(s2, s1);
            }
            // the level-3 link written by the first step survives the second
            assert(s2.tbl()[0][level_index(v_address, 3)] == s1.tbl()[0][level_index(
                v_address,
                3,
            )]);
            assert(fl@ =~= fl0@.take(fl@.len() as int));
        }
        if level2 == 0 {
            return false;
        }
        let level1 = self.get_next_level(fl, level2, v_address, 1);
        let ghost s3 = *self;
        proof {
            if !entry_present(s2.tbl()[level2 as int][level_index(v_address, 1)])
                && s3.num_tables() > s2.num_tables() {
                lemma_translate_unchanged_after_create(
                    s2,
                    s3,
                    level2 as int,
                    level_index(v_address, 1),
                    1,
                );
            } else {
                lemma_translate_same_tables(s3, s2);
            }
            // both links written so far survive the third step
            assert(s3.tbl()[0][level_index(v_address, 3)] == s2.tbl()[0][level_index(
                v_address,
                3,
            )]);
            assert(s3.tbl()[level3 as int][level_index(v_address, 2)] == s2.tbl()[level3 as int][
                level_index(v_address, 2)]);
            assert(fl@ =~= fl0@.take(fl@.len() as int));
        }
        if level1 == 0 {
            return false;
        }
        let idx = walk_index(v_address, 0);
        proof {
            assert(s3.tbl()[level1 as int] == self.tables@[level1 as int]@);
            assert(s3.tbl()[level1 as int].len() == 512);
        }
        let mut row = self.tables.remove(level1);
        proof {
            assert(row@ == s3.tbl()[level1 as int]);
        }
        row.set(idx, p_address | flags);
        self.tables.insert(level1, row);
        proof {
            lemma_mapped_entry_nonzero(p_address, flags);
            let ts3 = s3.tbl();
            let ts4 = self.tbl();
            let lv = s3.levels@;
            assert(ts4 =~~= ts3.update(
                level1 as int,
                ts3[level1 as int].update(idx as int, p_address | flags),
            ));
            assert(self.levels@ == lv);
            // a leaf write touches no intermediate entry, so the structure
            // invariant is untouched
            assert forall|t: int| 0 <= t < ts4.len() && t != level1 as int implies ts4[t]
                == ts3[t] by {}
            assert(ts4[level1 as int].len() == 512);
            assert forall|t: int, j: int|
                0 <= t < ts4.len() && 0 <= j < 512 && lv[t] >= 2 implies ts4[t][j] == ts3[t][j]
                by {
                assert(lv[level1 as int] == 1);
            }
            assert(self.wf());
            lemma_translate_after_leaf_write(
                s3,
                *self,
                v_address,
                level3 as int,
                level2 as int,
                level1 as int,
                p_address | flags,
            );
        }
        true
    }
}

} // verus!
