//! Open-allocation records for the allocation entry points of the
//! system-call shim.
//!
//! Every live allocation handed out by the shim is recorded as
//! `address -> (size, alignment)`, so that releasing or reallocating can
//! recover the layout the backing allocator needs. Releasing an address
//! with no record is a contract violation — the caller's program would
//! fault — so that input is excluded rather than handled.

use vstd::prelude::*;

verus! {

/// Mathematical image of one record.
#[verifier::ext_equal]
pub struct RecordImage {
    pub address: int,
    pub size: int,
    pub align: int,
}

/// One live allocation: its base address and the layout it was made with.
pub struct AllocRecord {
    pub address: u64,
    pub size: usize,
    pub align: usize,
}

impl View for AllocRecord {
    type V = RecordImage;

    closed spec fn view(&self) -> RecordImage {
        RecordImage {
            address: self.address as int,
            size: self.size as int,
            align: self.align as int,
        }
    }
}

/// Index of the first record for `address`, or -1 when there is none.
pub open spec fn record_index(records: Seq<RecordImage>, address: int) -> int
    decreases records.len(),
{
    if records.len() == 0 {
        -1
    } else if records[0].address == address {
        0
    } else {
        let r = record_index(records.drop_first(), address);
        if r < 0 {
            -1
        } else {
            r + 1
        }
    }
}

/// The layout recorded for `address`, or `None` when the address has no
/// record.
pub open spec fn record_layout(records: Seq<RecordImage>, address: int) -> Option<(int, int)> {
    let i = record_index(records, address);
    if i >= 0 {
        Some((records[i].size, records[i].align))
    } else {
        None
    }
}

/// The table after recording `address -> (size, align)`: an existing record
/// for the address is overwritten (a reallocation returning the same base),
/// otherwise a record is appended.
pub open spec fn insert_record(
    records: Seq<RecordImage>,
    address: int,
    size: int,
    align: int,
) -> Seq<RecordImage> {
    let i = record_index(records, address);
    let r = RecordImage { address: address, size: size, align: align };
    if i >= 0 {
        records.update(i, r)
    } else {
        records.push(r)
    }
}

/// The table after removing the record for `address`; meaningful only when
/// the record exists.
pub open spec fn remove_record(records: Seq<RecordImage>, address: int) -> Seq<RecordImage> {
    let i = record_index(records, address);
    if i >= 0 {
        records.remove(i)
    } else {
        records
    }
}

pub proof fn lemma_record_index_props(records: Seq<RecordImage>, address: int)
    ensures
        -1 <= record_index(records, address) < records.len(),
        record_index(records, address) >= 0 ==> records[record_index(
            records,
            address,
        )].address == address,
        record_index(records, address) >= 0 ==> forall|j: int|
            0 <= j < record_index(records, address) ==> records[j].address != address,
        record_index(records, address) == -1 ==> forall|j: int|
            0 <= j < records.len() ==> records[j].address != address,
    decreases records.len(),
{
    if records.len() > 0 && records[0].address != address {
        lemma_record_index_props(records.drop_first(), address);
        if record_index(records.drop_first(), address) >= 0 {
            assert forall|j: int| 0 <= j < record_index(records, address) implies records[
                j
            ].address != address by {
                if j > 0 {
                    assert(records[j] == records.drop_first()[j - 1]);
                }
            }
        } else {
            assert forall|j: int| 0 <= j < records.len() implies records[j].address
                != address by {
                if j > 0 {
                    assert(records[j] == records.drop_first()[j - 1]);
                }
            }
        }
    }
}

/// With distinct addresses, the record for `address` at index `k` is the
/// one the lookup finds.
pub proof fn lemma_record_index_unique(records: Seq<RecordImage>, address: int, k: int)
    requires
        0 <= k < records.len(),
        records[k].address == address,
        forall|i: int, j: int|
            0 <= i < j < records.len() ==> records[i].address != records[j].address,
    ensures
        record_index(records, address) == k,
{
    lemma_record_index_props(records, address);
    let ri = record_index(records, address);
    if ri == -1 {
        assert(records[k].address != address);
    } else if ri < k {
        assert(records[ri].address != records[k].address);
    } else if ri > k {
        assert(records[k].address != records[ri].address);
    }
}

/// The table of live allocations.
pub struct AllocRecords {
    records: Vec<AllocRecord>,
}

impl View for AllocRecords {
    type V = Seq<RecordImage>;

    closed spec fn view(&self) -> Seq<RecordImage> {
        self.records@.map_values(|r: AllocRecord| r@)
    }
}

impl AllocRecords {
    /// No two records share an address.
    pub open spec fn wf(&self) -> bool {
        forall|i: int, j: int|
            0 <= i < j < self@.len() ==> self@[i].address != self@[j].address
    }

    pub fn new() -> (r: AllocRecords)
        ensures
            r.wf(),
            r@ == Seq::<RecordImage>::empty(),
    {
        AllocRecords { records: Vec::new() }
    }

    /// Index of the record for `address`, scanning in order.
    fn find_record(&self, address: u64) -> (r: Option<usize>)
        ensures
            r matches Some(i) ==> 0 <= i < self@.len() && record_index(self@, address as int)
                == i,
            r is None ==> record_index(self@, address as int) == -1,
    {
        let ghost records = self@;
        let mut i: usize = 0;
        while i < self.records.len()
            invariant
                records == self@,
                self.records@.len() == records.len(),
                i <= records.len(),
                forall|j: int| 0 <= j < i ==> records[j].address != address as int,
            decreases self.records.len() - i,
        {
            if self.records[i].address == address {
                proof {
                    lemma_record_index_props(records, address as int);
                    assert(records[i as int].address == address as int);
                }
                return Some(i);
            }
            i = i + 1;
        }
        proof {
            lemma_record_index_props(records, address as int);
        }
        None
    }

    /// Records `address -> (size, align)` for a fresh or reallocated
    /// allocation.
    pub fn record(&mut self, address: u64, size: usize, align: usize)
        requires
            old(self).wf(),
        ensures
            final(self).wf(),
            final(self)@ == insert_record(old(self)@, address as int, size as int, align as int),
            record_layout(final(self)@, address as int) == Some((size as int, align as int)),
    {
        let ghost target = insert_record(self@, address as int, size as int, align as int);
        let found = self.find_record(address);
        proof {
            lemma_record_index_props(self@, address as int);
        }
        match found {
            Some(i) => {
                self.records.set(i, AllocRecord { address, size, align });
                proof {
                    assert(self@ =~= target);
                    lemma_record_index_unique(self@, address as int, i as int);
                }
            },
            None => {
                self.records.push(AllocRecord { address, size, align });
                proof {
                    assert(self@ =~= target);
                    assert forall|a: int, b: int| 0 <= a < b < self@.len() implies self@[
                        a
                    ].address != self@[b].address by {
                        if b < old(self)@.len() {
                            assert(old(self)@[a].address != old(self)@[b].address);
                        } else {
                            assert(old(self)@[a].address != address as int);
                        }
                    }
                    lemma_record_index_unique(self@, address as int, self@.len() - 1);
                }
            },
        }
    }

    /// The layout recorded for `address`, if any.
    pub fn layout_of(&self, address: u64) -> (r: Option<(usize, usize)>)
        ensures
            r matches Some(la) ==> record_layout(self@, address as int) == Some(
                (la.0 as int, la.1 as int),
            ),
            r is None ==> record_layout(self@, address as int) is None,
    {
        match self.find_record(address) {
            Some(i) => Some((self.records[i].size, self.records[i].align)),
            None => None,
        }
    }

    /// Removes the record for `address` and returns its layout, for a
    /// release. Releasing an address with no record is a contract
    /// violation and is excluded.
    pub fn release(&mut self, address: u64) -> (r: (usize, usize))
        requires
            old(self).wf(),
            record_layout(old(self)@, address as int) is Some,
        ensures
            final(self).wf(),
            final(self)@ == remove_record(old(self)@, address as int),
            Some((r.0 as int, r.1 as int)) == record_layout(old(self)@, address as int),
            record_layout(final(self)@, address as int) is None,
    {
        let i = match self.find_record(address) {
            Some(i) => i,
            None => {
                proof {
                    assert(false);
                }
                0
            },
        };
        let rec = self.records.remove(i);
        proof {
            assert(self@ =~= remove_record(old(self)@, address as int));
            assert forall|a: int, b: int| 0 <= a < b < self@.len() implies self@[a].address
                != self@[b].address by {
                let a0 = if a < i {
                    a
                } else {
                    a + 1
                };
                let b0 = if b < i {
                    b
                } else {
                    b + 1
                };
                assert(self@[a] == old(self)@[a0]);
                assert(self@[b] == old(self)@[b0]);
            }
            lemma_record_index_props(self@, address as int);
            let ri = record_index(self@, address as int);
            if ri >= 0 {
                let r0 = if ri < i {
                    ri
                } else {
                    ri + 1
                };
                assert(self@[ri] == old(self)@[r0]);
                lemma_record_index_unique(old(self)@, address as int, r0);
            }
        }
        (rec.size, rec.align)
    }

    /// Reallocation bookkeeping: the record for `old_address` — which must
    /// be live — moves to `new_address` with the new layout, so the table
    /// keeps one record per live allocation; when the allocator returned
    /// the same base the layout is replaced in place. Returns the old
    /// layout.
    pub fn reallocate(
        &mut self,
        old_address: u64,
        new_address: u64,
        size: usize,
        align: usize,
    ) -> (r: (usize, usize))
        requires
            old(self).wf(),
            record_layout(old(self)@, old_address as int) is Some,
        ensures
            final(self).wf(),
            final(self)@ == insert_record(
                remove_record(old(self)@, old_address as int),
                new_address as int,
                size as int,
                align as int,
            ),
            Some((r.0 as int, r.1 as int)) == record_layout(old(self)@, old_address as int),
            record_layout(final(self)@, new_address as int) == Some(
                (size as int, align as int),
            ),
            old_address != new_address ==> record_layout(final(self)@, old_address as int)
                is None,
            forall|a: int|
                a != old_address as int && a != new_address as int ==> record_layout(
                    final(self)@,
                    a,
                ) == record_layout(old(self)@, a),
    {
        let layout = self.release(old_address);
        proof {
            lemma_release_preserves_others(old(self)@, old_address as int);
        }
        let ghost mid = self@;
        self.record(new_address, size, align);
        proof {
            lemma_record_preserves_others(mid, new_address as int, size as int, align as int);
        }
        layout
    }
}

/// Recording an address leaves every other address's record unchanged.
pub proof fn lemma_record_preserves_others(
    records: Seq<RecordImage>,
    address: int,
    size: int,
    align: int,
)
    requires
        forall|i: int, j: int|
            0 <= i < j < records.len() ==> records[i].address != records[j].address,
    ensures
        forall|a: int|
            a != address ==> record_layout(insert_record(records, address, size, align), a)
                == record_layout(records, a),
{
    lemma_record_index_props(records, address);
    let s1 = insert_record(records, address, size, align);
    let ri = record_index(records, address);
    assert forall|i: int, j: int| 0 <= i < j < s1.len() implies s1[i].address
        != s1[j].address by {
        if ri >= 0 {
            assert(records[i].address != records[j].address);
        } else if j < records.len() {
            assert(records[i].address != records[j].address);
        } else {
            assert(records[i].address != address);
        }
    }
    assert forall|a: int| a != address implies record_layout(s1, a) == record_layout(
        records,
        a,
    ) by {
        lemma_record_index_props(records, a);
        lemma_record_index_props(s1, a);
        let oi = record_index(records, a);
        if oi >= 0 {
            assert(s1[oi] == records[oi]);
            lemma_record_index_unique(s1, a, oi);
        } else {
            let si = record_index(s1, a);
            if si >= 0 {
                if si < records.len() && (ri < 0 || si != ri) {
                    assert(s1[si] == records[si]);
                    assert(records[si].address != a);
                } else {
                    assert(s1[si].address == address);
                }
            }
        }
    }
}

/// Releasing an address leaves every other address's record unchanged.
pub proof fn lemma_release_preserves_others(records: Seq<RecordImage>, address: int)
    requires
        forall|i: int, j: int|
            0 <= i < j < records.len() ==> records[i].address != records[j].address,
        record_layout(records, address) is Some,
    ensures
        forall|a: int|
            a != address ==> record_layout(remove_record(records, address), a) == record_layout(
                records,
                a,
            ),
{
    lemma_record_index_props(records, address);
    let ri = record_index(records, address);
    let s1 = remove_record(records, address);
    assert(s1 =~= records.remove(ri));
    assert forall|i: int, j: int| 0 <= i < j < s1.len() implies s1[i].address
        != s1[j].address by {
        let i0 = if i < ri {
            i
        } else {
            i + 1
        };
        let j0 = if j < ri {
            j
        } else {
            j + 1
        };
        assert(s1[i] == records[i0]);
        assert(s1[j] == records[j0]);
    }
    assert forall|a: int| a != address implies record_layout(s1, a) == record_layout(
        records,
        a,
    ) by {
        lemma_record_index_props(records, a);
        lemma_record_index_props(s1, a);
        let oi = record_index(records, a);
        if oi >= 0 {
            let ni = if oi < ri {
                oi
            } else {
                oi - 1
            };
            assert(records[oi].address == a);
            assert(oi != ri);
            assert(s1[ni] == records[oi]);
            lemma_record_index_unique(s1, a, ni);
        } else {
            let si = record_index(s1, a);
            if si >= 0 {
                let s0 = if si < ri {
                    si
                } else {
                    si + 1
                };
                assert(s1[si] == records[s0]);
                assert(records[s0].address != a);
            }
        }
    }
}

/// Law: a recorded allocation is released without fault, and the release
/// removes exactly that record. After recording `address`, the lookup that
/// a release relies on finds the recorded layout; releasing then leaves no
/// record for `address` and every other address's record unchanged. An
/// address that was never recorded has no layout, so releasing it is
/// outside the guaranteed surface by the release contract.
pub proof fn lemma_record_then_release(
    records: Seq<RecordImage>,
    address: int,
    size: int,
    align: int,
)
    requires
        forall|i: int, j: int|
            0 <= i < j < records.len() ==> records[i].address != records[j].address,
    ensures
        ({
            let s1 = insert_record(records, address, size, align);
            &&& record_layout(s1, address) == Some((size, align))
            &&& record_layout(remove_record(s1, address), address) is None
            &&& forall|a: int|
                a != address ==> record_layout(remove_record(s1, address), a)
                    == record_layout(records, a)
        }),
{
    lemma_record_index_props(records, address);
    let s1 = insert_record(records, address, size, align);
    let ri = record_index(records, address);
    assert forall|i: int, j: int| 0 <= i < j < s1.len() implies s1[i].address
        != s1[j].address by {
        if ri >= 0 {
            assert(records[i].address != records[j].address);
        } else {
            if j < records.len() {
                assert(records[i].address != records[j].address);
            } else {
                assert(records[i].address != address);
            }
        }
    }
    if ri >= 0 {
        lemma_record_index_unique(s1, address, ri);
    } else {
        lemma_record_index_unique(s1, address, records.len() as int);
    }
    let k = record_index(s1, address);
    let s2 = remove_record(s1, address);
    assert(s2 =~= s1.remove(k));
    lemma_record_index_props(s2, address);
    let r2 = record_index(s2, address);
    if r2 >= 0 {
        let r0 = if r2 < k {
            r2
        } else {
            r2 + 1
        };
        assert(s2[r2] == s1[r0]);
        lemma_record_index_unique(s1, address, r0);
    }
    assert forall|a: int| a != address implies record_layout(s2, a) == record_layout(
        records,
        a,
    ) by {
        lemma_record_index_props(records, a);
        lemma_record_index_props(s2, a);
        assert forall|i: int, j: int| 0 <= i < j < s2.len() implies s2[i].address
            != s2[j].address by {
            let i0 = if i < k {
                i
            } else {
                i + 1
            };
            let j0 = if j < k {
                j
            } else {
                j + 1
            };
            assert(s2[i] == s1[i0]);
            assert(s2[j] == s1[j0]);
        }
        let oi = record_index(records, a);
        if oi >= 0 {
            if ri >= 0 {
                // overwrite case: entry for `a` sits at oi in s1 too, and
                // survives the removal of index k == ri
                assert(s1[oi].address == a);
                let ni = if oi < k {
                    oi
                } else {
                    oi - 1
                };
                assert(s2[ni] == s1[oi]);
                lemma_record_index_unique(s2, a, ni);
            } else {
                // append case: k is the appended index records.len()
                assert(s1[oi].address == a);
                assert(s2[oi] == s1[oi]);
                lemma_record_index_unique(s2, a, oi);
            }
        } else {
            let si = record_index(s2, a);
            if si >= 0 {
                let s0 = if si < k {
                    si
                } else {
                    si + 1
                };
                assert(s2[si] == s1[s0]);
                if ri >= 0 {
                    assert(s1[s0] == records[s0]);
                } else {
                    if s0 < records.len() {
                        assert(s1[s0] == records[s0]);
                    }
                }
            }
        }
    }
}

} // verus!
