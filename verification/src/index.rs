use vstd::prelude::*;
use crate::object::ObjectId;
use crate::object::ObjectKind;
use crate::object::bytes_lt;
use crate::object::lemma_bytes_lt_trichotomy;
use crate::object::lemma_bytes_lt_trans;

verus! {

/// Reference counters for one entry, filled in by consumers of the index.
#[derive(Clone, Copy, Debug)]
pub struct PackStats {
    pub referenced: u64,
    pub referenced_indirect: u64,
}

impl Default for PackStats {
    /// Fresh counters.
    fn default() -> (r: PackStats)
        ensures
            r.referenced == 0 && r.referenced_indirect == 0,
    {
        PackStats { referenced: 0, referenced_indirect: 0 }
    }
}

/// One indexed pack entry: where it starts, what it hashes to, how long
/// its header was, its (root) kind, and — for deltas — the index of its
/// direct base in the same store.
#[derive(Clone, Copy, Debug)]
pub struct PackEntry {
    pub offset: u64,
    pub object: ObjectId,
    pub header_len: u8,
    pub kind: ObjectKind,
    pub base_index: Option<usize>,
    pub stats: PackStats,
}

/// A resolved delta base: the index of the immediate base, and the root of
/// its chain.
#[derive(Clone, Copy, Debug)]
pub struct PackBase {
    pub base_index: usize,
    pub root_entry: PackEntry,
}

/// How a delta names its base: by absolute pack offset, or by object id.
#[derive(Clone, Copy, Debug)]
pub enum DeltaBase {
    Offset(u64),
    Reference(ObjectId),
}

/// Entries stand in strictly increasing offset order.
pub open spec fn offsets_increasing(entries: Seq<PackEntry>) -> bool {
    forall|i: int, j: int|
        #![trigger entries[i].offset, entries[j].offset]
        0 <= i < j < entries.len() ==> entries[i].offset < entries[j].offset
}

/// Every delta base reference points strictly backward.
pub open spec fn back_refs_ok(entries: Seq<PackEntry>) -> bool {
    forall|i: int|
        0 <= i < entries.len() ==> ((#[trigger] entries[i].base_index) matches Some(j) ==> j < i)
}

/// Some position of the permutation holds the value `v`.
pub open spec fn order_covers(order: Seq<usize>, v: int) -> bool {
    exists|i: int| 0 <= i < order.len() && (#[trigger] order[i]) == v
}

/// The by-object permutation: within bounds, id-sorted, and covering every
/// entry.
pub open spec fn order_ok(entries: Seq<PackEntry>, order: Seq<usize>) -> bool {
    &&& order.len() == entries.len()
    &&& forall|i: int| 0 <= i < order.len() ==> (#[trigger] order[i]) < entries.len()
    &&& forall|i: int, j: int|
        #![trigger order[i], order[j]]
        0 <= i < j < order.len() ==> bytes_lt(
            entries[order[i] as int].object@,
            entries[order[j] as int].object@,
        )
    &&& forall|v: int| 0 <= v < entries.len() ==> #[trigger] order_covers(order, v)
}

/// Offsets and header lengths fit together in a 64-bit body offset.
pub open spec fn body_offsets_fit(entries: Seq<PackEntry>) -> bool {
    forall|i: int|
        0 <= i < entries.len() ==> (#[trigger] entries[i].offset) + entries[i].header_len
            <= u64::MAX
}

/// The whole index invariant.
pub open spec fn index_wf(entries: Seq<PackEntry>, order: Seq<usize>) -> bool {
    &&& offsets_increasing(entries)
    &&& back_refs_ok(entries)
    &&& order_ok(entries, order)
    &&& body_offsets_fit(entries)
}

/// The decompressed-body offsets of the delta layers from entry `i` up to,
/// but not including, its chain's root.
pub open spec fn chain_offsets(entries: Seq<PackEntry>, i: int) -> Seq<u64>
    decreases i,
    when 0 <= i < entries.len() && back_refs_ok(entries) && body_offsets_fit(entries)
{
    match entries[i].base_index {
        None => Seq::empty(),
        Some(j) => seq![(entries[i].offset + entries[i].header_len) as u64] + chain_offsets(
            entries,
            j as int,
        ),
    }
}

/// The root of the delta chain starting at entry `i`.
pub open spec fn chain_root(entries: Seq<PackEntry>, i: int) -> int
    decreases i,
    when 0 <= i < entries.len() && back_refs_ok(entries)
{
    match entries[i].base_index {
        None => i,
        Some(j) => chain_root(entries, j as int),
    }
}

/// Index ordering: after any well-formed push sequence, the entries stand
/// in strictly increasing offset order, and the by-object permutation
/// walks their ids in strictly increasing byte order.
pub proof fn lemma_index_ordering(idx: PackIndex)
    requires
        idx.wf(),
    ensures
        forall|i: int, j: int|
            #![trigger idx.entries()[i].offset, idx.entries()[j].offset]
            0 <= i < j < idx.entries().len() ==> idx.entries()[i].offset
                < idx.entries()[j].offset,
        forall|i: int, j: int|
            #![trigger idx.order()[i], idx.order()[j]]
            0 <= i < j < idx.order().len() ==> bytes_lt(
                idx.entries()[idx.order()[i] as int].object@,
                idx.entries()[idx.order()[j] as int].object@,
            ),
{
}

/// Delta base back-reference: every base index recorded in a well-formed
/// index points strictly backward, so delta chains cannot cycle.
pub proof fn lemma_backward_bases(idx: PackIndex)
    requires
        idx.wf(),
    ensures
        forall|i: int|
            0 <= i < idx.entries().len() ==> ((#[trigger] idx.entries()[i].base_index)
                matches Some(j) ==> j < i),
{
}

/// The root of a chain is a valid index, at or before its start, and has
/// no base of its own.
pub proof fn lemma_chain_root_bounds(entries: Seq<PackEntry>, i: int)
    requires
        back_refs_ok(entries),
        0 <= i < entries.len(),
    ensures
        0 <= chain_root(entries, i) <= i,
        entries[chain_root(entries, i)].base_index is None,
    decreases i,
{
    match entries[i].base_index {
        None => {}
        Some(j) => {
            lemma_chain_root_bounds(entries, j as int);
        }
    }
}

/// No two entries share an offset.
pub proof fn lemma_offset_unique(entries: Seq<PackEntry>)
    requires
        offsets_increasing(entries),
    ensures
        forall|i: int, j: int|
            0 <= i < entries.len() && 0 <= j < entries.len() && (#[trigger] entries[i].offset) == (
            #[trigger] entries[j].offset) ==> i == j,
{
    assert forall|i: int, j: int|
        0 <= i < entries.len() && 0 <= j < entries.len() && (#[trigger] entries[i].offset) == (
        #[trigger] entries[j].offset) implies i == j by {
        if i < j {
            assert(entries[i].offset < entries[j].offset);
        }
        if j < i {
            assert(entries[j].offset < entries[i].offset);
        }
    }
}

/// No two entries share an object id.
pub proof fn lemma_object_unique(entries: Seq<PackEntry>, order: Seq<usize>)
    requires
        order_ok(entries, order),
    ensures
        forall|i: int, j: int|
            0 <= i < entries.len() && 0 <= j < entries.len() && (#[trigger] entries[i].object@) == (
            #[trigger] entries[j].object@) ==> i == j,
{
    assert forall|i: int, j: int|
        0 <= i < entries.len() && 0 <= j < entries.len() && (#[trigger] entries[i].object@) == (
        #[trigger] entries[j].object@) implies i == j by {
        if i != j {
            assert(order_covers(order, i));
            assert(order_covers(order, j));
            let pi = choose|p: int| 0 <= p < order.len() && (#[trigger] order[p]) == i;
            let pj = choose|p: int| 0 <= p < order.len() && (#[trigger] order[p]) == j;
            lemma_bytes_lt_trichotomy(entries[i].object@, entries[j].object@);
            if pi < pj {
                assert(bytes_lt(entries[order[pi] as int].object@, entries[order[pj] as int].object@));
            } else if pj < pi {
                assert(bytes_lt(entries[order[pj] as int].object@, entries[order[pi] as int].object@));
            }
        }
    }
}

/// Append-only store of pack entries with two lookup projections: by
/// offset (insertion order) and by object id (a sorted permutation).
#[derive(Debug)]
pub struct PackIndex {
    by_offset: Vec<PackEntry>,
    by_object: Vec<usize>,
}

impl PackIndex {
    /// The entries, in insertion (offset) order.
    pub closed spec fn entries(self) -> Seq<PackEntry> {
        self.by_offset@
    }

    /// The id-sorted permutation of entry indices.
    pub closed spec fn order(self) -> Seq<usize> {
        self.by_object@
    }

    pub open spec fn wf(self) -> bool {
        index_wf(self.entries(), self.order())
    }

    /// An empty index, sized for so many entries.
    pub fn with_capacity(capacity: usize) -> (r: PackIndex)
        ensures
            r.wf(),
            r.entries() == Seq::<PackEntry>::empty(),
    {
        let r = PackIndex { by_offset: Vec::with_capacity(capacity), by_object: Vec::new() };
        proof {
            assert(r.entries() =~= Seq::<PackEntry>::empty());
        }
        r
    }

    /// How many entries are stored.
    pub fn len(&self) -> (r: usize)
        ensures
            r == self.entries().len(),
    {
        self.by_offset.len()
    }

    /// The entry at a given index.
    pub fn get(&self, i: usize) -> (r: &PackEntry)
        requires
            i < self.entries().len(),
        ensures
            *r == self.entries()[i as int],
    {
        &self.by_offset[i]
    }

    /// Append an entry. Its offset must lie beyond every stored offset, its
    /// id must be new, and its base reference (if any) must point at an
    /// entry already stored; the assigned index is returned.
    pub fn push(&mut self, entry: PackEntry) -> (idx: usize)
        requires
            old(self).wf(),
            old(self).entries().len() == 0 || old(self).entries().last().offset < entry.offset,
            forall|i: int|
                0 <= i < old(self).entries().len() ==> (#[trigger] old(self).entries()[i].object@)
                    != entry.object@,
            entry.base_index matches Some(j) ==> j < old(self).entries().len(),
            entry.offset + entry.header_len <= u64::MAX,
        ensures
            final(self).wf(),
            final(self).entries() == old(self).entries().push(entry),
            idx == old(self).entries().len(),
    {
        let idx = self.by_offset.len();
        let pos = self.lower_bound(&entry.object);
        proof {
            let entries0 = self.entries();
            let order0 = self.order();
            assert forall|i: int| 0 <= i < order0.len() implies entries0[order0[i] as int].object@
                != entry.object@ by {
                assert(entries0[order0[i] as int].object@ == self.entries()[order0[i] as int].object@);
            }
        }
        self.by_object.insert(pos, idx);
        self.by_offset.push(entry);
        proof {
            let entries0 = old(self).entries();
            let order0 = old(self).order();
            let entries1 = self.entries();
            let order1 = self.order();
            assert(entries1 =~= entries0.push(entry));
            assert(order1 =~= order0.insert(pos as int, idx));
            // every old projection is unchanged by the append
            assert(forall|k: int|
                0 <= k < entries0.len() ==> entries1[k] == entries0[k]);
            assert(offsets_increasing(entries1)) by {
                assert forall|i: int, j: int| 0 <= i < j < entries1.len() implies entries1[i].offset
                    < entries1[j].offset by {
                    if j == entries1.len() - 1 {
                        if entries0.len() > 0 {
                            assert(entries0[i].offset <= entries0.last().offset);
                        }
                    }
                }
            }
            assert(back_refs_ok(entries1));
            assert(body_offsets_fit(entries1));
            assert(order_ok(entries1, order1)) by {
                assert(forall|i: int|
                    0 <= i < order1.len() ==> (#[trigger] order1[i]) < entries1.len());
                assert forall|i: int, j: int| 0 <= i < j < order1.len() implies bytes_lt(
                    entries1[order1[i] as int].object@,
                    entries1[order1[j] as int].object@,
                ) by {
                    let a = order1[i] as int;
                    let b = order1[j] as int;
                    if i < pos && j == pos {
                        assert(a == order0[i] as int && b == idx);
                    } else if i == pos && j > pos {
                        assert(a == idx && b == order0[j - 1] as int);
                    } else if i < pos && j > pos {
                        assert(a == order0[i] as int && b == order0[j - 1] as int);
                    } else if i == pos || j == pos {
                    } else if i > pos && j > pos {
                        assert(a == order0[i - 1] as int && b == order0[j - 1] as int);
                    }
                }
                assert forall|v: int| 0 <= v < entries1.len() implies #[trigger] order_covers(
                    order1,
                    v,
                ) by {
                    if v == idx {
                        assert(order1[pos as int] == idx);
                    } else {
                        assert(order_covers(order0, v));
                        let i0 = choose|i0: int| 0 <= i0 < order0.len() && (#[trigger] order0[i0]) == v;
                        if i0 < pos {
                            assert(order1[i0] == v);
                        } else {
                            assert(order1[i0 + 1] == v);
                        }
                    }
                }
            }
        }
        idx
    }

    /// The position in the id-sorted permutation before which `object`
    /// belongs: everything before it is smaller, everything at or after it
    /// is larger (equal ids are excluded by the caller).
    fn lower_bound(&self, object: &ObjectId) -> (pos: usize)
        requires
            self.wf(),
            forall|i: int|
                0 <= i < self.entries().len() ==> (#[trigger] self.entries()[i].object@)
                    != object@,
        ensures
            pos <= self.order().len(),
            forall|i: int|
                0 <= i < pos ==> bytes_lt(
                    self.entries()[(#[trigger] self.order()[i]) as int].object@,
                    object@,
                ),
            forall|i: int|
                pos <= i < self.order().len() ==> bytes_lt(
                    object@,
                    self.entries()[(#[trigger] self.order()[i]) as int].object@,
                ),
    {
        let mut lo: usize = 0;
        let mut hi: usize = self.by_object.len();
        while lo < hi
            invariant
                lo <= hi <= self.order().len(),
                self.wf(),
                forall|i: int|
                    0 <= i < self.entries().len() ==> (#[trigger] self.entries()[i].object@)
                        != object@,
                forall|i: int|
                    0 <= i < lo ==> bytes_lt(
                        self.entries()[(#[trigger] self.order()[i]) as int].object@,
                        object@,
                    ),
                forall|i: int|
                    hi <= i < self.order().len() ==> bytes_lt(
                        object@,
                        self.entries()[(#[trigger] self.order()[i]) as int].object@,
                    ),
            decreases hi - lo,
        {
            let mid = lo + (hi - lo) / 2;
            let e = self.by_object[mid];
            let mid_id = self.by_offset[e].object;
            proof {
                lemma_bytes_lt_trichotomy(mid_id@, object@);
            }
            if mid_id.lt(object) {
                proof {
                    assert forall|i: int| 0 <= i < mid + 1 implies bytes_lt(
                        self.entries()[(#[trigger] self.order()[i]) as int].object@,
                        object@,
                    ) by {
                        if i < mid {
                            lemma_bytes_lt_trans(
                                self.entries()[self.order()[i] as int].object@,
                                mid_id@,
                                object@,
                            );
                        }
                    }
                }
                lo = mid + 1;
            } else {
                proof {
                    assert forall|i: int| mid <= i < self.order().len() implies bytes_lt(
                        object@,
                        self.entries()[(#[trigger] self.order()[i]) as int].object@,
                    ) by {
                        if i > mid {
                            lemma_bytes_lt_trans(
                                object@,
                                mid_id@,
                                self.entries()[self.order()[i] as int].object@,
                            );
                        }
                    }
                }
                hi = mid;
            }
        }
        lo
    }

    /// Look an entry up by its starting offset.
    pub fn find_by_offset(&self, offset: u64) -> (r: Option<usize>)
        requires
            self.wf(),
        ensures
            match r {
                Some(i) => i < self.entries().len() && self.entries()[i as int].offset == offset,
                None => forall|i: int|
                    0 <= i < self.entries().len() ==> (#[trigger] self.entries()[i].offset)
                        != offset,
            },
    {
        let mut lo: usize = 0;
        let mut hi: usize = self.by_offset.len();
        while lo < hi
            invariant
                lo <= hi <= self.entries().len(),
                self.wf(),
                forall|i: int|
                    0 <= i < lo ==> (#[trigger] self.entries()[i].offset) < offset,
                forall|i: int|
                    hi <= i < self.entries().len() ==> (#[trigger] self.entries()[i].offset)
                        > offset,
            decreases hi - lo,
        {
            let mid = lo + (hi - lo) / 2;
            let mid_off = self.by_offset[mid].offset;
            if mid_off < offset {
                proof {
                    assert forall|i: int| 0 <= i < mid + 1 implies (#[trigger] self.entries()[i].offset)
                        < offset by {
                        if i < mid {
                            assert(self.entries()[i].offset < self.entries()[mid as int].offset);
                        }
                    }
                }
                lo = mid + 1;
            } else if mid_off > offset {
                proof {
                    assert forall|i: int| mid <= i < self.entries().len() implies (#[trigger] self.entries()[i].offset)
                        > offset by {
                        if i > mid {
                            assert(self.entries()[mid as int].offset < self.entries()[i].offset);
                        }
                    }
                }
                hi = mid;
            } else {
                return Some(mid);
            }
        }
        None
    }

    /// Look an entry up by its object id.
    pub fn find_by_object(&self, object: &ObjectId) -> (r: Option<usize>)
        requires
            self.wf(),
        ensures
            match r {
                Some(i) => i < self.entries().len() && self.entries()[i as int].object@ == object@,
                None => forall|i: int|
                    0 <= i < self.entries().len() ==> (#[trigger] self.entries()[i].object@)
                        != object@,
            },
    {
        let mut lo: usize = 0;
        let mut hi: usize = self.by_object.len();
        while lo < hi
            invariant
                lo <= hi <= self.order().len(),
                self.wf(),
                forall|i: int|
                    0 <= i < lo ==> bytes_lt(
                        self.entries()[(#[trigger] self.order()[i]) as int].object@,
                        object@,
                    ),
                forall|i: int|
                    hi <= i < self.order().len() ==> bytes_lt(
                        object@,
                        self.entries()[(#[trigger] self.order()[i]) as int].object@,
                    ),
            decreases hi - lo,
        {
            let mid = lo + (hi - lo) / 2;
            let e = self.by_object[mid];
            let mid_id = self.by_offset[e].object;
            proof {
                lemma_bytes_lt_trichotomy(mid_id@, object@);
            }
            if mid_id.lt(object) {
                proof {
                    assert forall|i: int| 0 <= i < mid + 1 implies bytes_lt(
                        self.entries()[(#[trigger] self.order()[i]) as int].object@,
                        object@,
                    ) by {
                        if i < mid {
                            lemma_bytes_lt_trans(
                                self.entries()[self.order()[i] as int].object@,
                                mid_id@,
                                object@,
                            );
                        }
                    }
                }
                lo = mid + 1;
            } else if object.lt(&mid_id) {
                proof {
                    assert forall|i: int| mid <= i < self.order().len() implies bytes_lt(
                        object@,
                        self.entries()[(#[trigger] self.order()[i]) as int].object@,
                    ) by {
                        if i > mid {
                            lemma_bytes_lt_trans(
                                object@,
                                mid_id@,
                                self.entries()[self.order()[i] as int].object@,
                            );
                        }
                    }
                }
                hi = mid;
            } else {
                return Some(e);
            }
        }
        proof {
            assert forall|i: int| 0 <= i < self.entries().len() implies (#[trigger] self.entries()[i].object@)
                != object@ by {
                assert(order_covers(self.order(), i));
                let k = choose|k: int| 0 <= k < self.order().len() && (#[trigger] self.order()[k])
                    == i;
                lemma_bytes_lt_trichotomy(self.entries()[i].object@, object@);
            }
        }
        None
    }

    /// Walk a delta chain to its root, appending the decompressed-body
    /// offset of each intermediate layer (the immediate base first) to
    /// `layer_offsets`.
    pub fn resolve_base(&self, layer_offsets: &mut Vec<u64>, base: DeltaBase) -> (r: Option<
        PackBase,
    >)
        requires
            self.wf(),
        ensures
            match r {
                None => final(layer_offsets)@ == old(layer_offsets)@ && (match base {
                    DeltaBase::Offset(off) => forall|i: int|
                        0 <= i < self.entries().len() ==> (#[trigger] self.entries()[i].offset)
                            != off,
                    DeltaBase::Reference(id) => forall|i: int|
                        0 <= i < self.entries().len() ==> (#[trigger] self.entries()[i].object@)
                            != id@,
                }),
                Some(pb) => {
                    &&& pb.base_index < self.entries().len()
                    &&& match base {
                        DeltaBase::Offset(off) => self.entries()[pb.base_index as int].offset
                            == off,
                        DeltaBase::Reference(id) => self.entries()[pb.base_index as int].object@
                            == id@,
                    }
                    &&& final(layer_offsets)@ == old(layer_offsets)@ + chain_offsets(
                        self.entries(),
                        pb.base_index as int,
                    )
                    &&& pb.root_entry == self.entries()[chain_root(
                        self.entries(),
                        pb.base_index as int,
                    )]
                    &&& pb.root_entry.base_index is None
                },
            },
    {
        let found = match base {
            DeltaBase::Offset(off) => self.find_by_offset(off),
            DeltaBase::Reference(obj) => self.find_by_object(&obj),
        };
        let base_index = match found {
            None => {
                return None;
            }
            Some(i) => i,
        };
        let ghost entries = self.entries();
        let mut idx = base_index;
        loop
            invariant
                self.wf(),
                entries == self.entries(),
                idx < entries.len(),
                base_index < entries.len(),
                match base {
                    DeltaBase::Offset(off) => entries[base_index as int].offset == off,
                    DeltaBase::Reference(id) => entries[base_index as int].object@ == id@,
                },
                chain_root(entries, base_index as int) == chain_root(entries, idx as int),
                old(layer_offsets)@ + chain_offsets(entries, base_index as int) == layer_offsets@
                    + chain_offsets(entries, idx as int),
            decreases idx,
        {
            let e = &self.by_offset[idx];
            match e.base_index {
                None => {
                    proof {
                        assert(chain_offsets(entries, idx as int) =~= Seq::<u64>::empty());
                        assert(layer_offsets@ + chain_offsets(entries, idx as int) =~= layer_offsets@);
                        assert(old(layer_offsets)@ + chain_offsets(entries, base_index as int)
                            =~= layer_offsets@);
                    }
                    return Some(PackBase { base_index, root_entry: self.by_offset[idx] });
                }
                Some(j) => {
                    let ghost prev = layer_offsets@;
                    layer_offsets.push(e.offset + (e.header_len as u64));
                    proof {
                        assert(chain_offsets(entries, idx as int) =~= seq![(entries[idx as int].offset
                            + entries[idx as int].header_len) as u64] + chain_offsets(
                            entries,
                            j as int,
                        ));
                        assert(prev + chain_offsets(entries, idx as int) =~= layer_offsets@
                            + chain_offsets(entries, j as int));
                    }
                    idx = j;
                }
            }
        }
    }
}

} // verus!
