//! The manual memory arena storage backend.
//!
//! `ArenaStore` keeps every value inside one fixed-capacity byte
//! buffer.  An index maps each live key to the `[start, end)` range of
//! its value, and a free list records the holes between live ranges,
//! sorted by position and coalesced: freeing a range merges it with any
//! adjacent hole.  A `set` allocates first-fit from the free list and
//! only then frees the range it replaces, so a failed `set` never
//! mutates anything.  Freed ranges are zero-filled; the invariant says
//! more: every byte outside a live range is zero, so no stale value
//! bytes survive a delete or an overwrite.

use vstd::prelude::*;
use vstd::set_lib::lemma_int_range;
use vstd::set_lib::lemma_len_subset;
use vstd::set_lib::lemma_set_disjoint_lens;
use vstd::set_lib::set_int_range;
use crate::store::StoreError;
use crate::store::empty_contents;

verus! {

/// One live entry of the index: a key and the range of its value.
/// An empty value occupies the empty range `[0, 0)`.
struct ArenaEntry {
    key: String,
    start: usize,
    end: usize,
}

/// One free range of the arena, always non-empty.
struct Hole {
    start: usize,
    end: usize,
}

/// Two half-open ranges have no byte in common.
spec fn ranges_disjoint(a_start: int, a_end: int, b_start: int, b_end: int) -> bool {
    a_end <= b_start || b_end <= a_start
}

/// A key-value store backed by one pre-allocated byte buffer.
pub struct ArenaStore {
    buf: Vec<u8>,
    entries: Vec<ArenaEntry>,
    holes: Vec<Hole>,
}

impl ArenaStore {
    /// The fixed capacity: the buffer's length never changes.
    pub closed spec fn capacity_spec(self) -> int {
        self.buf@.len() as int
    }

    /// Each entry's range lies inside the buffer, and an entry with an
    /// empty range sits at offset 0, where it overlaps nothing.
    spec fn entries_in_bounds(self) -> bool {
        forall|i: int|
            0 <= i < self.entries@.len() ==> {
                let e = #[trigger] self.entries@[i];
                &&& e.start <= e.end <= self.buf@.len()
                &&& (e.start == e.end ==> e.start == 0)
            }
    }

    /// No two live keys are equal.
    spec fn keys_distinct(self) -> bool {
        forall|i: int, j: int|
            #![trigger self.entries@[i], self.entries@[j]]
            0 <= i < self.entries@.len() && 0 <= j < self.entries@.len() && i != j
                ==> self.entries@[i].key@ != self.entries@[j].key@
    }

    /// No two live ranges share a byte.
    spec fn entries_disjoint(self) -> bool {
        forall|i: int, j: int|
            #![trigger self.entries@[i], self.entries@[j]]
            0 <= i < self.entries@.len() && 0 <= j < self.entries@.len() && i != j
                ==> ranges_disjoint(
                self.entries@[i].start as int,
                self.entries@[i].end as int,
                self.entries@[j].start as int,
                self.entries@[j].end as int,
            )
    }

    /// Holes are non-empty, lie inside the buffer, are sorted by
    /// position, and are coalesced: between two holes there is always
    /// at least one live byte.
    spec fn holes_wf(self) -> bool {
        &&& forall|i: int|
            0 <= i < self.holes@.len() ==> {
                let h = #[trigger] self.holes@[i];
                h.start < h.end <= self.buf@.len()
            }
        &&& forall|i: int, j: int|
            #![trigger self.holes@[i], self.holes@[j]]
            0 <= i < j < self.holes@.len() ==> self.holes@[i].end < self.holes@[j].start
    }

    /// No hole overlaps a live range.
    spec fn holes_avoid_entries(self) -> bool {
        forall|i: int, j: int|
            #![trigger self.entries@[i], self.holes@[j]]
            0 <= i < self.entries@.len() && 0 <= j < self.holes@.len() ==> ranges_disjoint(
                self.entries@[i].start as int,
                self.entries@[i].end as int,
                self.holes@[j].start as int,
                self.holes@[j].end as int,
            )
    }

    /// The offset `p` lies inside some live range.
    spec fn covered(self, p: int) -> bool {
        exists|i: int|
            0 <= i < self.entries@.len() && (#[trigger] self.entries@[i]).start <= p
                < self.entries@[i].end
    }

    /// Every byte outside all live ranges is zero: freed space is
    /// scrubbed, so no stale value can leak across keys.
    spec fn unused_zeroed(self) -> bool {
        forall|p: int| 0 <= p < self.buf@.len() && !self.covered(p) ==> self.buf@[p] == 0
    }

    /// The store's invariant: constructors establish it and every
    /// operation preserves it.
    pub closed spec fn wf(self) -> bool {
        &&& self.entries_in_bounds()
        &&& self.keys_distinct()
        &&& self.entries_disjoint()
        &&& self.holes_wf()
        &&& self.holes_avoid_entries()
        &&& self.unused_zeroed()
    }

    /// Some live entry holds this key.
    spec fn has_key(self, k: Seq<char>) -> bool {
        exists|i: int|
            0 <= i < self.entries@.len() && (#[trigger] self.entries@[i]).key@ == k
    }

    /// The index of the live entry holding this key.
    spec fn index_of(self, k: Seq<char>) -> int {
        choose|i: int| 0 <= i < self.entries@.len() && self.entries@[i].key@ == k
    }

    /// The bytes stored under this key.
    spec fn value_of(self, k: Seq<char>) -> Seq<u8> {
        let e = self.entries@[self.index_of(k)];
        self.buf@.subrange(e.start as int, e.end as int)
    }

    /// The size in bytes of the range this key occupies, 0 if absent.
    pub closed spec fn entry_size(self, k: Seq<char>) -> int {
        if self.has_key(k) {
            let e = self.entries@[self.index_of(k)];
            e.end - e.start
        } else {
            0
        }
    }

    /// The number of buffer bytes occupied by live values.
    pub closed spec fn used_bytes(self) -> int {
        entries_size(self.entries@)
    }

    /// The size of the largest free range: the largest value a `set`
    /// of a new key can still place.
    pub closed spec fn largest_free(self) -> int {
        holes_max(self.holes@)
    }
}

/// The total size of a sequence of entry ranges.
spec fn entries_size(es: Seq<ArenaEntry>) -> int
    decreases es.len(),
{
    if es.len() == 0 {
        0
    } else {
        entries_size(es.drop_last()) + (es.last().end - es.last().start)
    }
}

/// The set of buffer offsets a sequence of entries covers.
spec fn ranges_union(es: Seq<ArenaEntry>) -> Set<int>
    decreases es.len(),
{
    if es.len() == 0 {
        Set::empty()
    } else {
        ranges_union(es.drop_last()) + set_int_range(
            es.last().start as int,
            es.last().end as int,
        )
    }
}

/// For entries with in-bounds, pairwise disjoint ranges, the covered
/// offsets form a finite subset of the buffer whose cardinality is
/// exactly the total entry size.
proof fn lemma_ranges_union_facts(es: Seq<ArenaEntry>, cap: int)
    requires
        forall|i: int|
            0 <= i < es.len() ==> (#[trigger] es[i]).start <= es[i].end <= cap,
        forall|i: int, j: int|
            #![trigger es[i], es[j]]
            0 <= i < es.len() && 0 <= j < es.len() && i != j ==> ranges_disjoint(
                es[i].start as int,
                es[i].end as int,
                es[j].start as int,
                es[j].end as int,
            ),
    ensures
        ranges_union(es).finite(),
        ranges_union(es).len() == entries_size(es),
        forall|x: int| #[trigger]
            ranges_union(es).contains(x) <==> (exists|i: int|
                0 <= i < es.len() && (#[trigger] es[i]).start <= x < es[i].end),
        ranges_union(es).subset_of(set_int_range(0, cap)),
    decreases es.len(),
{
    if es.len() == 0 {
    } else {
        let rest = es.drop_last();
        let last = es.last();
        let w = es.len() - 1;
        assert forall|i: int|
            0 <= i < rest.len() implies (#[trigger] rest[i]) == es[i] by {}
        lemma_ranges_union_facts(rest, cap);
        let ls = set_int_range(last.start as int, last.end as int);
        lemma_int_range(last.start as int, last.end as int);
        assert forall|x: int| ranges_union(rest).contains(x) implies !ls.contains(
            x,
        ) by {
            let i = choose|i: int|
                0 <= i < rest.len() && (#[trigger] rest[i]).start <= x < rest[i].end;
            assert(ranges_disjoint(
                es[i].start as int,
                es[i].end as int,
                es[w].start as int,
                es[w].end as int,
            ));
        }
        assert(ranges_union(rest).disjoint(ls));
        lemma_set_disjoint_lens(ranges_union(rest), ls);
        assert forall|x: int| #[trigger]
            ranges_union(es).contains(x) implies (exists|i: int|
            0 <= i < es.len() && (#[trigger] es[i]).start <= x < es[i].end) by {
            if ranges_union(rest).contains(x) {
                let i = choose|i: int|
                    0 <= i < rest.len() && (#[trigger] rest[i]).start <= x < rest[i].end;
                assert(es[i].start <= x < es[i].end);
            } else {
                assert(es[w].start <= x < es[w].end);
            }
        }
        assert forall|x: int|
            (exists|i: int|
                0 <= i < es.len() && (#[trigger] es[i]).start <= x < es[i].end)
            implies #[trigger] ranges_union(es).contains(x) by {
            let i = choose|i: int|
                0 <= i < es.len() && (#[trigger] es[i]).start <= x < es[i].end;
            if i < w {
                assert(rest[i].start <= x < rest[i].end);
                assert(ranges_union(rest).contains(x));
            } else {
                assert(ls.contains(x));
            }
        }
    }
}

/// The largest hole size in a sequence of holes, 0 if there is none.
spec fn holes_max(hs: Seq<Hole>) -> int
    decreases hs.len(),
{
    if hs.len() == 0 {
        0
    } else {
        let rest = holes_max(hs.drop_last());
        let s = hs.last().end - hs.last().start;
        if s > rest {
            s
        } else {
            rest
        }
    }
}

/// Removing an entry shrinks the total size by that entry's size.
proof fn lemma_entries_size_remove(es: Seq<ArenaEntry>, i: int)
    requires
        0 <= i < es.len(),
    ensures
        entries_size(es.remove(i)) == entries_size(es) - (es[i].end - es[i].start),
    decreases es.len(),
{
    es.remove_ensures(i);
    if i == es.len() - 1 {
        assert(es.remove(i) =~= es.drop_last());
    } else {
        es.drop_last().remove_ensures(i);
        assert(es.remove(i).drop_last() =~= es.drop_last().remove(i));
        assert(es.remove(i).last() == es.last());
        lemma_entries_size_remove(es.drop_last(), i);
    }
}

/// Appending an entry grows the total size by that entry's size.
proof fn lemma_entries_size_push(es: Seq<ArenaEntry>, e: ArenaEntry)
    ensures
        entries_size(es.push(e)) == entries_size(es) + (e.end - e.start),
{
    assert(es.push(e).drop_last() =~= es);
    assert(es.push(e).last() == e);
}

/// Replacing an entry changes the total size by the difference of the
/// two entries' sizes.
proof fn lemma_entries_size_update(es: Seq<ArenaEntry>, i: int, e: ArenaEntry)
    requires
        0 <= i < es.len(),
    ensures
        entries_size(es.update(i, e)) == entries_size(es) - (es[i].end - es[i].start) + (
        e.end - e.start),
    decreases es.len(),
{
    if i == es.len() - 1 {
        assert(es.update(i, e).drop_last() =~= es.drop_last());
        assert(es.update(i, e).last() == e);
    } else {
        assert(es.update(i, e).drop_last() =~= es.drop_last().update(i, e));
        assert(es.update(i, e).last() == es.last());
        lemma_entries_size_update(es.drop_last(), i, e);
    }
}

/// No hole is larger than the largest hole.
proof fn lemma_holes_max_ge(hs: Seq<Hole>, j: int)
    requires
        0 <= j < hs.len(),
    ensures
        holes_max(hs) >= hs[j].end - hs[j].start,
    decreases hs.len(),
{
    if j == hs.len() - 1 {
    } else {
        lemma_holes_max_ge(hs.drop_last(), j);
    }
}

/// Copies `value` into `[start, start + value.len())` and touches
/// nothing else.
fn write_range(buf: &mut Vec<u8>, start: usize, value: &Vec<u8>)
    requires
        start + value@.len() <= old(buf)@.len(),
    ensures
        final(buf)@.len() == old(buf)@.len(),
        forall|p: int|
            0 <= p < old(buf)@.len() && !(start <= p < start + value@.len())
                ==> final(buf)@[p] == old(buf)@[p],
        final(buf)@.subrange(start as int, start as int + value@.len() as int)
            == value@,
{
    let n = value.len();
    let blen = buf.len();
    let mut p: usize = 0;
    while p < n
        invariant
            p <= n,
            n == value@.len(),
            start + n <= buf@.len(),
            buf@.len() == blen,
            buf@.len() == old(buf)@.len(),
            forall|q: int|
                0 <= q < old(buf)@.len() && !(start <= q < start + p) ==> buf@[q] == old(
                    buf,
                )@[q],
            forall|q: int| 0 <= q < p ==> buf@[start + q] == value@[q],
        decreases n - p,
    {
        buf.set(start + p, value[p]);
        p = p + 1;
    }
    assert(buf@.subrange(start as int, start as int + value@.len() as int) =~= value@);
}

/// Sets every byte of `[start, end)` to zero and touches nothing else.
fn zero_range(buf: &mut Vec<u8>, start: usize, end: usize)
    requires
        start <= end <= old(buf)@.len(),
    ensures
        final(buf)@.len() == old(buf)@.len(),
        forall|p: int|
            0 <= p < old(buf)@.len() && !(start <= p < end) ==> final(buf)@[p] == old(
                buf,
            )@[p],
        forall|p: int| start <= p < end ==> final(buf)@[p] == 0,
{
    let mut p: usize = start;
    while p < end
        invariant
            start <= p <= end,
            end <= buf@.len(),
            buf@.len() == old(buf)@.len(),
            forall|q: int|
                0 <= q < old(buf)@.len() && !(start <= q < p) ==> buf@[q] == old(buf)@[q],
            forall|q: int| start <= q < p ==> buf@[q] == 0,
        decreases end - p,
    {
        buf.set(p, 0);
        p = p + 1;
    }
}

impl View for ArenaStore {
    type V = Map<Seq<char>, Seq<u8>>;

    /// The abstract contents: each live key mapped to its value bytes.
    closed spec fn view(&self) -> Map<Seq<char>, Seq<u8>> {
        Map::new(|k: Seq<char>| self.has_key(k), |k: Seq<char>| self.value_of(k))
    }
}

impl ArenaStore {
    /// With distinct keys, the entry found for a key is the entry the
    /// view reads.
    proof fn lemma_index_of_unique(self, k: Seq<char>, i: int)
        requires
            self.keys_distinct(),
            0 <= i < self.entries@.len(),
            self.entries@[i].key@ == k,
        ensures
            self.has_key(k),
            self.index_of(k) == i,
    {
        assert(self.has_key(k));
        let j = self.index_of(k);
        assert(0 <= j < self.entries@.len() && self.entries@[j].key@ == k);
    }

    /// The abstract contents depend only on the index and the buffer:
    /// two states that share them have the same view.
    proof fn lemma_same_view(self, other: ArenaStore)
        requires
            self.keys_distinct(),
            other.entries@ == self.entries@,
            other.buf@ == self.buf@,
        ensures
            other@ == self@,
    {
        assert forall|k: Seq<char>| self.has_key(k) implies other.has_key(k) by {
            let i = choose|i: int|
                0 <= i < self.entries@.len() && self.entries@[i].key@ == k;
            assert(other.entries@[i].key@ == k);
        }
        assert forall|k: Seq<char>| other.has_key(k) implies self.has_key(k) by {
            let i = choose|i: int|
                0 <= i < other.entries@.len() && other.entries@[i].key@ == k;
            assert(self.entries@[i].key@ == k);
        }
        assert forall|k: Seq<char>| self.has_key(k) implies self.value_of(k)
            == other.value_of(k) by {
            let i = self.index_of(k);
            assert(0 <= i < self.entries@.len() && self.entries@[i].key@ == k);
            let j = other.index_of(k);
            assert(0 <= j < other.entries@.len() && other.entries@[j].key@ == k);
            assert(self.entries@[i].key@ == self.entries@[j].key@);
            assert(i == j);
        }
        assert(self@ =~= other@);
    }

    /// Creates an empty arena of the given capacity, all bytes zero.
    pub fn new(capacity: usize) -> (r: ArenaStore)
        ensures
            r.wf(),
            r@ == empty_contents(),
            r.capacity_spec() == capacity,
            r.used_bytes() == 0,
            r.largest_free() == capacity,
    {
        let mut buf: Vec<u8> = Vec::new();
        while buf.len() < capacity
            invariant
                buf@.len() <= capacity,
                forall|p: int| 0 <= p < buf@.len() ==> buf@[p] == 0,
            decreases capacity - buf@.len(),
        {
            buf.push(0);
        }
        let mut holes: Vec<Hole> = Vec::new();
        if capacity > 0 {
            holes.push(Hole { start: 0, end: capacity });
        }
        let r = ArenaStore { buf, entries: Vec::new(), holes };
        proof {
            assert(r@ =~= empty_contents());
            assert(holes_max(Seq::<Hole>::empty()) == 0);
            if capacity > 0 {
                assert(r.holes@.drop_last() =~= Seq::<Hole>::empty());
                assert(r.holes@.last() == Hole { start: 0, end: capacity });
            }
        }
        r
    }

    /// Finds the index of the live entry for a key, if there is one.
    fn find_entry(&self, key: &String) -> (r: Option<usize>)
        requires
            self.wf(),
        ensures
            match r {
                Some(i) => {
                    &&& (i as int) < self.entries@.len()
                    &&& self.entries@[i as int].key@ == key@
                    &&& self.index_of(key@) == i as int
                    &&& self.has_key(key@)
                },
                None => !self.has_key(key@),
            },
    {
        let n = self.entries.len();
        let mut i: usize = 0;
        while i < n
            invariant
                self.wf(),
                i <= n,
                n == self.entries@.len(),
                forall|j: int| 0 <= j < i ==> self.entries@[j].key@ != key@,
            decreases n - i,
        {
            if self.entries[i].key == *key {
                proof {
                    self.lemma_index_of_unique(key@, i as int);
                }
                return Some(i);
            }
            i = i + 1;
        }
        None
    }

    /// Looks a key up; a hit returns a copy of the stored bytes, so
    /// the copy stays valid across later operations on the store.
    pub fn get(&self, key: &String) -> (r: Option<Vec<u8>>)
        requires
            self.wf(),
        ensures
            match r {
                Some(v) => self@.contains_key(key@) && v@ == self@[key@],
                None => !self@.contains_key(key@),
            },
    {
        match self.find_entry(key) {
            None => None,
            Some(i) => {
                let start = self.entries[i].start;
                let end = self.entries[i].end;
                let mut out: Vec<u8> = Vec::new();
                let mut p: usize = start;
                while p < end
                    invariant
                        start <= p <= end,
                        end <= self.buf@.len(),
                        out@ =~= self.buf@.subrange(start as int, p as int),
                    decreases end - p,
                {
                    out.push(self.buf[p]);
                    p = p + 1;
                }
                assert(out@ =~= self.buf@.subrange(start as int, end as int));
                Some(out)
            },
        }
    }

    /// Returns a freed, already zero-filled range to the free list,
    /// merging it with any adjacent hole so that holes never fragment
    /// more than the live ranges force.  Touches neither the buffer
    /// nor the index, so the abstract contents are unchanged.
    #[verifier::rlimit(50)]
    fn free_range(&mut self, start: usize, end: usize)
        requires
            old(self).wf(),
            start < end <= old(self).buf@.len(),
            forall|j: int|
                0 <= j < old(self).holes@.len() ==> ranges_disjoint(
                    start as int,
                    end as int,
                    (#[trigger] old(self).holes@[j]).start as int,
                    old(self).holes@[j].end as int,
                ),
            forall|i: int|
                0 <= i < old(self).entries@.len() ==> ranges_disjoint(
                    (#[trigger] old(self).entries@[i]).start as int,
                    old(self).entries@[i].end as int,
                    start as int,
                    end as int,
                ),
        ensures
            final(self).wf(),
            final(self).buf == old(self).buf,
            final(self).entries == old(self).entries,
            final(self)@ == old(self)@,
            final(self).used_bytes() == old(self).used_bytes(),
            final(self).capacity_spec() == old(self).capacity_spec(),
    {
        let n = self.holes.len();
        let mut idx: usize = 0;
        while idx < n && self.holes[idx].start < end
            invariant
                idx <= n,
                n == self.holes@.len(),
                forall|j: int| 0 <= j < idx ==> (#[trigger] self.holes@[j]).start < end,
            decreases n - idx,
        {
            idx = idx + 1;
        }
        proof {
            assert forall|j: int| 0 <= j < idx implies (#[trigger] self.holes@[j]).end
                <= start by {
                assert(ranges_disjoint(
                    start as int,
                    end as int,
                    self.holes@[j].start as int,
                    self.holes@[j].end as int,
                ));
            }
            assert forall|j: int| idx <= j < n implies end
                <= (#[trigger] self.holes@[j]).start by {
                if j > idx {
                    assert(self.holes@[idx as int].end < self.holes@[j].start);
                }
            }
        }
        let merge_left = idx > 0 && self.holes[idx - 1].end == start;
        let merge_right = idx < n && self.holes[idx].start == end;
        if merge_left && merge_right {
            let ns = self.holes[idx - 1].start;
            let ne = self.holes[idx].end;
            self.holes.set(idx - 1, Hole { start: ns, end: ne });
            let _ = self.holes.remove(idx);
            proof {
                old(self).holes@.update(idx as int - 1, Hole { start: ns, end: ne })
                    .remove_ensures(idx as int);
                assert forall|a: int|
                    0 <= a < self.holes@.len() implies (#[trigger] self.holes@[a]) == (
                if a < idx - 1 {
                    old(self).holes@[a]
                } else if a == idx - 1 {
                    Hole { start: ns, end: ne }
                } else {
                    old(self).holes@[a + 1]
                }) by {}
            }
        } else if merge_left {
            let ns = self.holes[idx - 1].start;
            self.holes.set(idx - 1, Hole { start: ns, end });
        } else if merge_right {
            let ne = self.holes[idx].end;
            self.holes.set(idx, Hole { start, end: ne });
        } else {
            self.holes.insert(idx, Hole { start, end });
            proof {
                old(self).holes@.insert_ensures(idx as int, Hole { start, end });
                assert forall|a: int|
                    0 <= a < self.holes@.len() implies (#[trigger] self.holes@[a]) == (
                if a < idx {
                    old(self).holes@[a]
                } else if a == idx {
                    Hole { start, end }
                } else {
                    old(self).holes@[a - 1]
                }) by {}
            }
        }
        proof {
            assert forall|a: int, b: int|
                #![trigger self.holes@[a], self.holes@[b]]
                0 <= a < b < self.holes@.len() implies self.holes@[a].end
                < self.holes@[b].start by {}
            assert forall|i: int, j: int|
                #![trigger self.entries@[i], self.holes@[j]]
                0 <= i < self.entries@.len() && 0 <= j < self.holes@.len()
                implies ranges_disjoint(
                self.entries@[i].start as int,
                self.entries@[i].end as int,
                self.holes@[j].start as int,
                self.holes@[j].end as int,
            ) by {
                let e = self.entries@[i];
                assert(ranges_disjoint(
                    e.start as int,
                    e.end as int,
                    start as int,
                    end as int,
                ));
                if j < old(self).holes@.len() {
                    assert(ranges_disjoint(
                        e.start as int,
                        e.end as int,
                        old(self).holes@[j].start as int,
                        old(self).holes@[j].end as int,
                    ));
                }
                if j + 1 < old(self).holes@.len() {
                    assert(ranges_disjoint(
                        e.start as int,
                        e.end as int,
                        old(self).holes@[j + 1].start as int,
                        old(self).holes@[j + 1].end as int,
                    ));
                }
                if j - 1 >= 0 && j - 1 < old(self).holes@.len() {
                    assert(ranges_disjoint(
                        e.start as int,
                        e.end as int,
                        old(self).holes@[j - 1].start as int,
                        old(self).holes@[j - 1].end as int,
                    ));
                }
            }
            assert forall|a: int|
                0 <= a < self.holes@.len() implies (#[trigger] self.holes@[a]).start
                < self.holes@[a].end <= self.buf@.len() by {}
            old(self).lemma_same_view(*self);
            assert forall|p: int|
                0 <= p < self.buf@.len() && !self.covered(p) implies self.buf@[p]
                == 0 by {
                if old(self).covered(p) {
                    let i = choose|i: int|
                        0 <= i < old(self).entries@.len() && (#[trigger] old(
                            self,
                        ).entries@[i]).start <= p < old(self).entries@[i].end;
                    assert(self.entries@[i].start <= p < self.entries@[i].end);
                }
            }
        }
    }

    /// Finds the first hole large enough for `need` bytes, or reports
    /// the largest hole size when none is.
    fn find_hole(&self, need: usize) -> (r: Result<usize, usize>)
        requires
            self.wf(),
            need > 0,
        ensures
            match r {
                Ok(h) => {
                    &&& (h as int) < self.holes@.len()
                    &&& need <= self.holes@[h as int].end - self.holes@[h as int].start
                },
                Err(m) => {
                    &&& m as int == self.largest_free()
                    &&& self.largest_free() < need
                },
            },
    {
        let n = self.holes.len();
        let mut best: usize = 0;
        let mut i: usize = 0;
        proof {
            assert(self.holes@.subrange(0, 0) =~= Seq::<Hole>::empty());
        }
        while i < n
            invariant
                self.wf(),
                i <= n,
                n == self.holes@.len(),
                best as int == holes_max(self.holes@.subrange(0, i as int)),
                best < need,
            decreases n - i,
        {
            let sz = self.holes[i].end - self.holes[i].start;
            if sz >= need {
                return Ok(i);
            }
            if sz > best {
                best = sz;
            }
            proof {
                assert(self.holes@.subrange(0, i as int + 1).drop_last()
                    =~= self.holes@.subrange(0, i as int));
                assert(self.holes@.subrange(0, i as int + 1).last()
                    == self.holes@[i as int]);
            }
            i = i + 1;
        }
        proof {
            assert(self.holes@.subrange(0, n as int) =~= self.holes@);
        }
        Err(best)
    }

    /// Reserves the first `need` bytes of hole `h`: the reserved range
    /// leaves the free list but joins no entry yet, so it overlaps
    /// nothing and keeps its zero bytes.
    fn carve(&mut self, h: usize, need: usize) -> (ns: usize)
        requires
            old(self).wf(),
            (h as int) < old(self).holes@.len(),
            0 < need <= old(self).holes@[h as int].end - old(self).holes@[h as int].start,
        ensures
            final(self).wf(),
            final(self).entries == old(self).entries,
            final(self).buf == old(self).buf,
            final(self)@ == old(self)@,
            final(self).used_bytes() == old(self).used_bytes(),
            final(self).capacity_spec() == old(self).capacity_spec(),
            ns + need <= final(self).capacity_spec(),
            forall|j: int|
                0 <= j < final(self).holes@.len() ==> ranges_disjoint(
                    ns as int,
                    ns as int + need,
                    (#[trigger] final(self).holes@[j]).start as int,
                    final(self).holes@[j].end as int,
                ),
            forall|a: int|
                0 <= a < final(self).entries@.len() ==> ranges_disjoint(
                    (#[trigger] final(self).entries@[a]).start as int,
                    final(self).entries@[a].end as int,
                    ns as int,
                    ns as int + need,
                ),
    {
        let ns = self.holes[h].start;
        let he = self.holes[h].end;
        if ns + need == he {
            let _ = self.holes.remove(h);
            proof {
                old(self).holes@.remove_ensures(h as int);
            }
        } else {
            self.holes.set(h, Hole { start: ns + need, end: he });
        }
        proof {
            assert forall|j: int|
                0 <= j < self.holes@.len() implies (#[trigger] self.holes@[j]) == (
            if ns as int + need == he as int {
                if j < h {
                    old(self).holes@[j]
                } else {
                    old(self).holes@[j + 1]
                }
            } else if j == h {
                (Hole { start: (ns + need) as usize, end: he })
            } else {
                old(self).holes@[j]
            }) by {}
            assert forall|a: int, b: int|
                #![trigger self.holes@[a], self.holes@[b]]
                0 <= a < b < self.holes@.len() implies self.holes@[a].end
                < self.holes@[b].start by {
                let a2 = if ns as int + need == he as int && a >= h {
                    a + 1
                } else {
                    a
                };
                let b2 = if ns as int + need == he as int && b >= h {
                    b + 1
                } else {
                    b
                };
                assert(old(self).holes@[a2].end < old(self).holes@[b2].start);
            }
            assert forall|j: int|
                0 <= j < self.holes@.len() implies (#[trigger] self.holes@[j]).start
                < self.holes@[j].end <= self.buf@.len() by {}
            assert forall|a: int, j: int|
                #![trigger self.entries@[a], self.holes@[j]]
                0 <= a < self.entries@.len() && 0 <= j < self.holes@.len()
                implies ranges_disjoint(
                self.entries@[a].start as int,
                self.entries@[a].end as int,
                self.holes@[j].start as int,
                self.holes@[j].end as int,
            ) by {
                let j2 = if ns as int + need == he as int && j >= h {
                    j + 1
                } else {
                    j
                };
                assert(ranges_disjoint(
                    self.entries@[a].start as int,
                    self.entries@[a].end as int,
                    old(self).holes@[j2].start as int,
                    old(self).holes@[j2].end as int,
                ));
            }
            assert forall|j: int|
                0 <= j < self.holes@.len() implies ranges_disjoint(
                ns as int,
                ns as int + need,
                (#[trigger] self.holes@[j]).start as int,
                self.holes@[j].end as int,
            ) by {
                let j2 = if ns as int + need == he as int && j >= h {
                    j + 1
                } else {
                    j
                };
                if j2 != h {
                    assert(old(self).holes@[h as int].end < old(self).holes@[j2].start
                        || old(self).holes@[j2].end < old(self).holes@[h as int].start);
                }
            }
            assert forall|a: int|
                0 <= a < self.entries@.len() implies ranges_disjoint(
                (#[trigger] self.entries@[a]).start as int,
                self.entries@[a].end as int,
                ns as int,
                ns as int + need,
            ) by {
                assert(ranges_disjoint(
                    self.entries@[a].start as int,
                    self.entries@[a].end as int,
                    old(self).holes@[h as int].start as int,
                    old(self).holes@[h as int].end as int,
                ));
            }
            assert forall|p: int|
                0 <= p < self.buf@.len() && !self.covered(p) implies self.buf@[p]
                == 0 by {
                if old(self).covered(p) {
                    let t = choose|t: int|
                        0 <= t < old(self).entries@.len() && (#[trigger] old(
                            self,
                        ).entries@[t]).start <= p < old(self).entries@[t].end;
                    assert(self.entries@[t].start <= p < self.entries@[t].end);
                }
            }
            assert(self.wf());
            old(self).lemma_same_view(*self);
        }
        ns
    }

    /// Removes a key and zero-fills the range it occupied, then
    /// returns that range to the free list.  Absence is not an error:
    /// deleting an absent key leaves the store as it is.
    #[verifier::rlimit(50)]
    pub fn delete(&mut self, key: &String)
        requires
            old(self).wf(),
        ensures
            final(self).wf(),
            final(self)@ == old(self)@.remove(key@),
            !old(self)@.contains_key(key@) ==> *final(self) == *old(self),
            final(self).capacity_spec() == old(self).capacity_spec(),
            final(self).used_bytes() == old(self).used_bytes() - old(self).entry_size(
                key@,
            ),
    {
        match self.find_entry(key) {
            None => {
                proof {
                    assert(old(self)@.remove(key@) =~= old(self)@);
                }
            },
            Some(i) => {
                proof {
                    lemma_entries_size_remove(self.entries@, i as int);
                    self.entries@.remove_ensures(i as int);
                }
                let e = self.entries.remove(i);
                let os = e.start;
                let oe = e.end;
                zero_range(&mut self.buf, os, oe);
                proof {
                    self.lemma_after_unlink(*old(self), i as int, key@);
                }
                if os < oe {
                    self.free_range(os, oe);
                }
            },
        }
    }

    /// After the entry at `i` has been unlinked from the index and its
    /// range zero-filled, the store is well-formed again, its contents
    /// are the old contents without that entry's key, and the freed
    /// range overlaps neither a hole nor a live range.
    #[verifier::rlimit(50)]
    proof fn lemma_after_unlink(self, pre: ArenaStore, i: int, k: Seq<char>)
        requires
            pre.wf(),
            0 <= i < pre.entries@.len(),
            pre.entries@[i].key@ == k,
            self.entries@ == pre.entries@.remove(i),
            self.holes@ == pre.holes@,
            self.buf@.len() == pre.buf@.len(),
            forall|p: int|
                0 <= p < pre.buf@.len() && !((pre.entries@[i].start as int) <= p < (
                pre.entries@[i].end as int)) ==> self.buf@[p] == pre.buf@[p],
            forall|p: int|
                (pre.entries@[i].start as int) <= p < (pre.entries@[i].end as int)
                    ==> self.buf@[p] == 0,
        ensures
            self.wf(),
            self@ == pre@.remove(k),
            forall|j: int|
                0 <= j < self.holes@.len() ==> ranges_disjoint(
                    pre.entries@[i].start as int,
                    pre.entries@[i].end as int,
                    (#[trigger] self.holes@[j]).start as int,
                    self.holes@[j].end as int,
                ),
            forall|a: int|
                0 <= a < self.entries@.len() ==> ranges_disjoint(
                    (#[trigger] self.entries@[a]).start as int,
                    self.entries@[a].end as int,
                    pre.entries@[i].start as int,
                    pre.entries@[i].end as int,
                ),
    {
        pre.entries@.remove_ensures(i);
        let os = pre.entries@[i].start as int;
        let oe = pre.entries@[i].end as int;
        assert forall|a: int|
            0 <= a < self.entries@.len() implies (#[trigger] self.entries@[a]) == (
        if a < i {
            pre.entries@[a]
        } else {
            pre.entries@[a + 1]
        }) by {}
        assert forall|a: int, c: int|
            #![trigger self.entries@[a], self.entries@[c]]
            0 <= a < self.entries@.len() && 0 <= c < self.entries@.len() && a != c
            implies self.entries@[a].key@ != self.entries@[c].key@ && ranges_disjoint(
            self.entries@[a].start as int,
            self.entries@[a].end as int,
            self.entries@[c].start as int,
            self.entries@[c].end as int,
        ) by {
            let a2 = if a < i {
                a
            } else {
                a + 1
            };
            let c2 = if c < i {
                c
            } else {
                c + 1
            };
            assert(pre.entries@[a2].key@ != pre.entries@[c2].key@);
            assert(ranges_disjoint(
                pre.entries@[a2].start as int,
                pre.entries@[a2].end as int,
                pre.entries@[c2].start as int,
                pre.entries@[c2].end as int,
            ));
        }
        assert forall|a: int, j: int|
            #![trigger self.entries@[a], self.holes@[j]]
            0 <= a < self.entries@.len() && 0 <= j < self.holes@.len()
            implies ranges_disjoint(
            self.entries@[a].start as int,
            self.entries@[a].end as int,
            self.holes@[j].start as int,
            self.holes@[j].end as int,
        ) by {
            let a2 = if a < i {
                a
            } else {
                a + 1
            };
            assert(ranges_disjoint(
                pre.entries@[a2].start as int,
                pre.entries@[a2].end as int,
                pre.holes@[j].start as int,
                pre.holes@[j].end as int,
            ));
        }
        assert forall|a: int|
            0 <= a < self.entries@.len() implies ranges_disjoint(
            (#[trigger] self.entries@[a]).start as int,
            self.entries@[a].end as int,
            os,
            oe,
        ) by {
            let a2 = if a < i {
                a
            } else {
                a + 1
            };
            assert(ranges_disjoint(
                pre.entries@[a2].start as int,
                pre.entries@[a2].end as int,
                os,
                oe,
            ));
        }
        assert forall|j: int|
            0 <= j < self.holes@.len() implies ranges_disjoint(
            os,
            oe,
            (#[trigger] self.holes@[j]).start as int,
            self.holes@[j].end as int,
        ) by {
            assert(ranges_disjoint(
                pre.entries@[i].start as int,
                pre.entries@[i].end as int,
                pre.holes@[j].start as int,
                pre.holes@[j].end as int,
            ));
        }
        assert forall|p: int|
            0 <= p < self.buf@.len() && !self.covered(p) implies self.buf@[p] == 0 by {
            if !(os <= p < oe) {
                if pre.covered(p) {
                    let t = choose|t: int|
                        0 <= t < pre.entries@.len() && (#[trigger] pre.entries@[t]).start
                            <= p < pre.entries@[t].end;
                    assert(t != i);
                    let a = if t < i {
                        t
                    } else {
                        t - 1
                    };
                    assert(self.entries@[a].start <= p < self.entries@[a].end);
                }
            }
        }
        assert(self.wf());
        assert forall|k2: Seq<char>| self.has_key(k2) implies pre.has_key(k2) && k2
            != k by {
            let a = choose|a: int|
                0 <= a < self.entries@.len() && (#[trigger] self.entries@[a]).key@ == k2;
            let a2 = if a < i {
                a
            } else {
                a + 1
            };
            assert(pre.entries@[a2].key@ == k2);
            assert(pre.entries@[a2].key@ != pre.entries@[i].key@);
        }
        assert forall|k2: Seq<char>| pre.has_key(k2) && k2 != k implies self.has_key(
            k2,
        ) by {
            let t = choose|t: int|
                0 <= t < pre.entries@.len() && (#[trigger] pre.entries@[t]).key@ == k2;
            assert(t != i);
            let a = if t < i {
                t
            } else {
                t - 1
            };
            assert(self.entries@[a].key@ == k2);
        }
        assert forall|k2: Seq<char>| self.has_key(k2) implies self.value_of(k2)
            == pre.value_of(k2) by {
            let a = self.index_of(k2);
            assert(0 <= a < self.entries@.len() && self.entries@[a].key@ == k2);
            let a2 = if a < i {
                a
            } else {
                a + 1
            };
            pre.lemma_index_of_unique(k2, a2);
            let e2 = pre.entries@[a2];
            assert(ranges_disjoint(e2.start as int, e2.end as int, os, oe));
            assert(self.buf@.subrange(e2.start as int, e2.end as int) =~= pre.buf@.subrange(
                e2.start as int,
                e2.end as int,
            ));
        }
        assert(self@ =~= pre@.remove(k));
    }

    /// After a reserved range `[ns, ne)` has been filled with the
    /// value bytes and pushed as a fresh entry for an absent key, the
    /// store is well-formed and holds the old contents plus the new
    /// binding.
    #[verifier::rlimit(50)]
    proof fn lemma_store_new(self, a: ArenaStore, ns: int, ne: int, k: Seq<char>, v: Seq<u8>)
        requires
            a.wf(),
            !a.has_key(k),
            0 <= ns <= ne <= a.buf@.len(),
            ns == ne ==> ns == 0,
            ne - ns == v.len(),
            forall|j: int|
                0 <= j < a.holes@.len() ==> ranges_disjoint(
                    ns,
                    ne,
                    (#[trigger] a.holes@[j]).start as int,
                    a.holes@[j].end as int,
                ),
            forall|t: int|
                0 <= t < a.entries@.len() ==> ranges_disjoint(
                    (#[trigger] a.entries@[t]).start as int,
                    a.entries@[t].end as int,
                    ns,
                    ne,
                ),
            self.entries@.len() == a.entries@.len() + 1,
            self.entries@.drop_last() == a.entries@,
            self.entries@.last().key@ == k,
            self.entries@.last().start == ns,
            self.entries@.last().end == ne,
            self.holes@ == a.holes@,
            self.buf@.len() == a.buf@.len(),
            forall|p: int|
                0 <= p < a.buf@.len() && !(ns <= p < ne) ==> self.buf@[p] == a.buf@[p],
            self.buf@.subrange(ns, ne) == v,
        ensures
            self.wf(),
            self@ == a@.insert(k, v),
            self.used_bytes() == a.used_bytes() + (ne - ns),
    {
        let w = self.entries@.len() - 1;
        assert forall|t: int|
            0 <= t < w implies (#[trigger] self.entries@[t]) == a.entries@[t] by {
            assert(self.entries@.drop_last()[t] == a.entries@[t]);
        }
        assert(self.entries@[w].key@ == k);
        assert forall|t: int|
            0 <= t < w implies (#[trigger] self.entries@[t]).key@ != k by {
            if self.entries@[t].key@ == k {
                assert(a.entries@[t].key@ == k);
                assert(a.has_key(k));
            }
        }
        assert(self.keys_distinct());
        assert(self.entries_in_bounds());
        assert(self.entries_disjoint());
        assert forall|t: int, j: int|
            #![trigger self.entries@[t], self.holes@[j]]
            0 <= t < self.entries@.len() && 0 <= j < self.holes@.len()
            implies ranges_disjoint(
            self.entries@[t].start as int,
            self.entries@[t].end as int,
            self.holes@[j].start as int,
            self.holes@[j].end as int,
        ) by {
            if t < w {
                assert(ranges_disjoint(
                    a.entries@[t].start as int,
                    a.entries@[t].end as int,
                    a.holes@[j].start as int,
                    a.holes@[j].end as int,
                ));
            } else {
                assert(ranges_disjoint(
                    ns,
                    ne,
                    a.holes@[j].start as int,
                    a.holes@[j].end as int,
                ));
            }
        }
        assert forall|p: int|
            0 <= p < self.buf@.len() && !self.covered(p) implies self.buf@[p] == 0 by {
            assert(!(ns <= p < ne));
            if a.covered(p) {
                let t = choose|t: int|
                    0 <= t < a.entries@.len() && (#[trigger] a.entries@[t]).start <= p
                        < a.entries@[t].end;
                assert(self.entries@[t].start <= p < self.entries@[t].end);
            }
        }
        assert(self.wf());
        lemma_entries_size_push(a.entries@, self.entries@.last());
        assert(self.entries@ =~= a.entries@.push(self.entries@.last()));
        assert forall|k2: Seq<char>| a.has_key(k2) implies self.has_key(k2)
            && k2 != k by {
            let t = choose|t: int|
                0 <= t < a.entries@.len() && (#[trigger] a.entries@[t]).key@ == k2;
            assert(self.entries@[t].key@ == k2);
        }
        assert forall|k2: Seq<char>| self.has_key(k2) implies k2 == k || a.has_key(
            k2,
        ) by {
            let t = choose|t: int|
                0 <= t < self.entries@.len() && (#[trigger] self.entries@[t]).key@ == k2;
            if t < w {
                assert(a.entries@[t].key@ == k2);
            }
        }
        self.lemma_index_of_unique(k, w);
        assert(self.value_of(k) =~= v);
        assert forall|k2: Seq<char>| a.has_key(k2) implies self.value_of(k2)
            == a.value_of(k2) by {
            let t = a.index_of(k2);
            assert(0 <= t < a.entries@.len() && a.entries@[t].key@ == k2);
            assert(self.entries@[t].key@ == k2);
            self.lemma_index_of_unique(k2, t);
            let e2 = a.entries@[t];
            assert(ranges_disjoint(e2.start as int, e2.end as int, ns, ne));
            assert(self.buf@.subrange(e2.start as int, e2.end as int) =~= a.buf@.subrange(
                e2.start as int,
                e2.end as int,
            ));
        }
        assert(self@ =~= a@.insert(k, v));
    }

    /// After a reserved range `[ns, ne)` has been filled with the
    /// value bytes, the entry at `i` re-pointed at it, and the old
    /// range zero-filled, the store is well-formed, holds the old
    /// contents with the binding replaced, and the old range overlaps
    /// neither a hole nor a live range.
    #[verifier::rlimit(50)]
    proof fn lemma_store_update(
        self,
        a: ArenaStore,
        i: int,
        ns: int,
        ne: int,
        k: Seq<char>,
        v: Seq<u8>,
    )
        requires
            a.wf(),
            0 <= i < a.entries@.len(),
            a.entries@[i].key@ == k,
            0 <= ns <= ne <= a.buf@.len(),
            ns == ne ==> ns == 0,
            ne - ns == v.len(),
            forall|j: int|
                0 <= j < a.holes@.len() ==> ranges_disjoint(
                    ns,
                    ne,
                    (#[trigger] a.holes@[j]).start as int,
                    a.holes@[j].end as int,
                ),
            forall|t: int|
                0 <= t < a.entries@.len() ==> ranges_disjoint(
                    (#[trigger] a.entries@[t]).start as int,
                    a.entries@[t].end as int,
                    ns,
                    ne,
                ),
            self.entries@.len() == a.entries@.len(),
            forall|t: int|
                0 <= t < a.entries@.len() && t != i ==> (#[trigger] self.entries@[t])
                    == a.entries@[t],
            self.entries@[i].key@ == k,
            self.entries@[i].start == ns,
            self.entries@[i].end == ne,
            self.holes@ == a.holes@,
            self.buf@.len() == a.buf@.len(),
            forall|p: int|
                0 <= p < a.buf@.len() && !(ns <= p < ne) && !((a.entries@[i].start as int)
                    <= p < (a.entries@[i].end as int)) ==> self.buf@[p] == a.buf@[p],
            forall|p: int|
                (a.entries@[i].start as int) <= p < (a.entries@[i].end as int) && !(ns
                    <= p < ne) ==> self.buf@[p] == 0,
            self.buf@.subrange(ns, ne) == v,
        ensures
            self.wf(),
            self@ == a@.insert(k, v),
            self.used_bytes() == a.used_bytes() + (ne - ns) - (a.entries@[i].end
                - a.entries@[i].start),
            forall|j: int|
                0 <= j < self.holes@.len() ==> ranges_disjoint(
                    a.entries@[i].start as int,
                    a.entries@[i].end as int,
                    (#[trigger] self.holes@[j]).start as int,
                    self.holes@[j].end as int,
                ),
            forall|t: int|
                0 <= t < self.entries@.len() ==> ranges_disjoint(
                    (#[trigger] self.entries@[t]).start as int,
                    self.entries@[t].end as int,
                    a.entries@[i].start as int,
                    a.entries@[i].end as int,
                ),
    {
        let os = a.entries@[i].start as int;
        let oe = a.entries@[i].end as int;
        assert(ranges_disjoint(os, oe, ns, ne));
        assert forall|t: int|
            0 <= t < self.entries@.len() && t != i implies (#[trigger] self.entries@[t])
            == a.entries@[t] by {}
        assert forall|t: int|
            0 <= t < self.entries@.len() && t != i implies (#[trigger] self.entries@[t]).key@
            != k by {
            assert(a.entries@[t].key@ != a.entries@[i].key@);
        }
        assert(self.keys_distinct());
        assert(self.entries_in_bounds());
        assert(self.entries_disjoint());
        assert forall|t: int, j: int|
            #![trigger self.entries@[t], self.holes@[j]]
            0 <= t < self.entries@.len() && 0 <= j < self.holes@.len()
            implies ranges_disjoint(
            self.entries@[t].start as int,
            self.entries@[t].end as int,
            self.holes@[j].start as int,
            self.holes@[j].end as int,
        ) by {
            if t != i {
                assert(ranges_disjoint(
                    a.entries@[t].start as int,
                    a.entries@[t].end as int,
                    a.holes@[j].start as int,
                    a.holes@[j].end as int,
                ));
            } else {
                assert(ranges_disjoint(
                    ns,
                    ne,
                    a.holes@[j].start as int,
                    a.holes@[j].end as int,
                ));
            }
        }
        assert forall|j: int|
            0 <= j < self.holes@.len() implies ranges_disjoint(
            os,
            oe,
            (#[trigger] self.holes@[j]).start as int,
            self.holes@[j].end as int,
        ) by {
            assert(ranges_disjoint(
                a.entries@[i].start as int,
                a.entries@[i].end as int,
                a.holes@[j].start as int,
                a.holes@[j].end as int,
            ));
        }
        assert forall|t: int|
            0 <= t < self.entries@.len() implies ranges_disjoint(
            (#[trigger] self.entries@[t]).start as int,
            self.entries@[t].end as int,
            os,
            oe,
        ) by {
            if t != i {
                assert(ranges_disjoint(
                    a.entries@[t].start as int,
                    a.entries@[t].end as int,
                    os,
                    oe,
                ));
            }
        }
        assert forall|p: int|
            0 <= p < self.buf@.len() && !self.covered(p) implies self.buf@[p] == 0 by {
            assert(!(ns <= p < ne));
            if os <= p < oe {
            } else if a.covered(p) {
                let t = choose|t: int|
                    0 <= t < a.entries@.len() && (#[trigger] a.entries@[t]).start <= p
                        < a.entries@[t].end;
                assert(t != i);
                assert(self.entries@[t].start <= p < self.entries@[t].end);
            }
        }
        assert(self.wf());
        assert(self.entries@ =~= a.entries@.update(i, self.entries@[i]));
        lemma_entries_size_update(a.entries@, i, self.entries@[i]);
        self.lemma_index_of_unique(k, i);
        a.lemma_index_of_unique(k, i);
        assert(self.value_of(k) =~= v);
        assert forall|k2: Seq<char>| a.has_key(k2) implies self.has_key(k2) by {
            let t = choose|t: int|
                0 <= t < a.entries@.len() && (#[trigger] a.entries@[t]).key@ == k2;
            assert(self.entries@[t].key@ == k2);
        }
        assert forall|k2: Seq<char>| self.has_key(k2) implies a.has_key(k2) by {
            let t = choose|t: int|
                0 <= t < self.entries@.len() && (#[trigger] self.entries@[t]).key@ == k2;
            assert(a.entries@[t].key@ == k2);
        }
        assert forall|k2: Seq<char>| a.has_key(k2) && k2 != k implies self.value_of(k2)
            == a.value_of(k2) by {
            let t = a.index_of(k2);
            assert(0 <= t < a.entries@.len() && a.entries@[t].key@ == k2);
            assert(t != i);
            assert(self.entries@[t].key@ == k2);
            self.lemma_index_of_unique(k2, t);
            let e2 = a.entries@[t];
            assert(ranges_disjoint(e2.start as int, e2.end as int, ns, ne));
            assert(ranges_disjoint(e2.start as int, e2.end as int, os, oe));
            assert(self.buf@.subrange(e2.start as int, e2.end as int) =~= a.buf@.subrange(
                e2.start as int,
                e2.end as int,
            ));
        }
        assert(self@ =~= a@.insert(k, v));
    }

    /// Stores a value under a key.  The value is placed first-fit
    /// into the free list; only afterwards is any replaced range
    /// zero-filled and freed, so a failed `set` leaves the store
    /// exactly as it was.  The call fails exactly when the value is
    /// non-empty and no free range can hold it; the error carries the
    /// requested size and the size of the largest free range.
    #[verifier::rlimit(50)]
    pub fn set(&mut self, key: &String, value: &Vec<u8>) -> (r: Result<(), StoreError>)
        requires
            old(self).wf(),
        ensures
            final(self).wf(),
            final(self).capacity_spec() == old(self).capacity_spec(),
            (r is Ok) <==> (value@.len() == 0 || value@.len() <= old(self).largest_free()),
            r is Ok ==> final(self)@ == old(self)@.insert(key@, value@),
            r is Ok ==> final(self).used_bytes() == old(self).used_bytes() + value@.len()
                - old(self).entry_size(key@),
            r is Err ==> *final(self) == *old(self),
            r is Err ==> (r matches Err(e) && e == (StoreError::StorageExhausted {
                requested: value@.len() as usize,
                available: old(self).largest_free() as usize,
            })),
    {
        let need = value.len();
        let opt_idx = self.find_entry(key);
        let mut ns: usize = 0;
        let mut ne: usize = 0;
        if need > 0 {
            match self.find_hole(need) {
                Err(m) => {
                    return Err(StoreError::StorageExhausted { requested: need, available: m });
                },
                Ok(h) => {
                    proof {
                        lemma_holes_max_ge(self.holes@, h as int);
                    }
                    ns = self.carve(h, need);
                    let cap = self.buf.len();
                    assert(ns + need <= cap);
                    ne = ns + need;
                },
            }
        }
        let ghost mid = *self;
        write_range(&mut self.buf, ns, value);
        match opt_idx {
            None => {
                self.entries.push(ArenaEntry { key: key.clone(), start: ns, end: ne });
                proof {
                    assert(self.entries@.drop_last() =~= mid.entries@);
                    if !mid.has_key(key@) {
                    } else {
                        let t = choose|t: int|
                            0 <= t < mid.entries@.len() && (#[trigger] mid.entries@[t]).key@
                                == key@;
                        assert(old(self).entries@[t].key@ == key@);
                    }
                    self.lemma_store_new(mid, ns as int, ne as int, key@, value@);
                }
            },
            Some(i) => {
                let os = self.entries[i].start;
                let oe = self.entries[i].end;
                self.entries.set(i, ArenaEntry { key: key.clone(), start: ns, end: ne });
                zero_range(&mut self.buf, os, oe);
                proof {
                    assert(mid.entries@[i as int].key@ == key@);
                    assert(ranges_disjoint(os as int, oe as int, ns as int, ne as int));
                    assert(self.buf@.subrange(ns as int, ne as int) =~= value@);
                    self.lemma_store_update(
                        mid,
                        i as int,
                        ns as int,
                        ne as int,
                        key@,
                        value@,
                    );
                }
                if os < oe {
                    self.free_range(os, oe);
                }
            },
        }
        Ok(())
    }

    /// The live values of a well-formed arena occupy pairwise
    /// disjoint ranges of the one buffer, so the used-byte accounting
    /// can never exceed the capacity — storage cannot leak without
    /// bound, however often keys are overwritten or deleted.
    pub proof fn lemma_used_bytes_bounded(self)
        requires
            self.wf(),
        ensures
            0 <= self.used_bytes() <= self.capacity_spec(),
    {
        lemma_ranges_union_facts(self.entries@, self.capacity_spec());
        lemma_int_range(0, self.capacity_spec());
        lemma_len_subset(
            ranges_union(self.entries@),
            set_int_range(0, self.capacity_spec()),
        );
    }

    /// The fixed capacity in bytes.
    pub fn capacity(&self) -> (r: usize)
        ensures
            r == self.capacity_spec(),
    {
        self.buf.len()
    }

    /// Tells whether a key is present.
    pub fn contains(&self, key: &String) -> (r: bool)
        requires
            self.wf(),
        ensures
            r == self@.contains_key(key@),
    {
        self.find_entry(key).is_some()
    }
}

} // verus!
