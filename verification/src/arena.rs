//! The search arena: the lower-case names of all entries in one byte buffer,
//! scanned in parallel for a substring.

use vstd::prelude::*;
use std::collections::HashMap;
use rayon::iter::{IntoParallelIterator, ParallelIterator};
use crate::bytes;
use crate::entry::FileEntry;
use crate::entry::Entry;
use crate::entry;

verus! {

broadcast use vstd::std_specs::hash::group_hash_axioms;

// ---------------------------------------------------------------------------
// Model
// ---------------------------------------------------------------------------

/// One place of the arena. A place whose entry was deleted or replaced stays,
/// but is no longer live.
pub struct Slot {
    pub frn: u64,
    /// The UTF-8 form of the name, letters in lower case.
    pub name: Seq<u8>,
    pub is_directory: bool,
    pub live: bool,
}

/// The contents of an arena: its places, and the place of each entry that a
/// deletion can still find.
pub struct Slots {
    pub slots: Seq<Slot>,
    pub slot_of: Map<u64, int>,
}

/// The place of a fresh entry.
pub open spec fn slot_for(e: Entry) -> Slot {
    Slot {
        frn: e.frn,
        name: bytes::lower_bytes(bytes::utf8(e.name)),
        is_directory: e.is_directory(),
        live: true,
    }
}

/// Bytes that the names take, each with its terminator.
pub open spec fn text_len(slots: Seq<Slot>) -> nat
    decreases slots.len(),
{
    if slots.len() == 0 {
        0
    } else {
        text_len(slots.drop_last()) + slots.last().name.len() + 1
    }
}

/// Number of places that are not live.
pub open spec fn dead_count(slots: Seq<Slot>) -> nat
    decreases slots.len(),
{
    if slots.len() == 0 {
        0
    } else {
        dead_count(slots.drop_last()) + if slots.last().live {
            0nat
        } else {
            1nat
        }
    }
}

/// The entries whose live place holds `query` in its name, in arena order.
pub open spec fn hits(slots: Seq<Slot>, query: Seq<u8>) -> Seq<u64>
    decreases slots.len(),
{
    if slots.len() == 0 {
        seq![]
    } else if slots.last().live && bytes::contains(slots.last().name, query) {
        hits(slots.drop_last(), query).push(slots.last().frn)
    } else {
        hits(slots.drop_last(), query)
    }
}

/// The live places, in their order.
pub open spec fn live_slots_of(slots: Seq<Slot>) -> Seq<Slot>
    decreases slots.len(),
{
    if slots.len() == 0 {
        seq![]
    } else if slots.last().live {
        live_slots_of(slots.drop_last()).push(slots.last())
    } else {
        live_slots_of(slots.drop_last())
    }
}

/// At most the first `n` elements of `s`.
pub open spec fn first_n<A>(s: Seq<A>, n: nat) -> Seq<A> {
    if s.len() <= n {
        s
    } else {
        s.take(n as int)
    }
}

impl Slots {
    /// Every entry that can be found has a live place of its own.
    pub open spec fn wf(self) -> bool {
        forall|f: u64| #[trigger]
            self.slot_of.contains_key(f) ==> 0 <= self.slot_of[f] < self.slots.len()
                && self.slots[self.slot_of[f]].frn == f && self.slots[self.slot_of[f]].live
    }

    pub open spec fn empty() -> Slots {
        Slots { slots: seq![], slot_of: Map::empty() }
    }

    /// The arena with a place for `e` at its end. Names past the 32-bit range
    /// of the buffer get none.
    pub open spec fn append(self, e: Entry) -> Slots {
        if text_len(self.slots) > u32::MAX {
            self
        } else {
            Slots {
                slots: self.slots.push(slot_for(e)),
                slot_of: self.slot_of.insert(e.frn, self.slots.len() as int),
            }
        }
    }

    /// The arena in which the place of `frn` is no longer live.
    pub open spec fn delete(self, frn: u64) -> Slots {
        if self.slot_of.contains_key(frn) {
            let at = self.slot_of[frn];
            Slots {
                slots: self.slots.update(at, Slot { live: false, ..self.slots[at] }),
                slot_of: self.slot_of.remove(frn),
            }
        } else {
            self
        }
    }

    /// The arena in which `e` replaces what stood under its reference number.
    pub open spec fn upsert(self, e: Entry) -> Slots {
        self.delete(e.frn).append(e)
    }

    /// The arena of the given entries, in their order.
    pub open spec fn of(entries: Seq<Entry>) -> Slots
        decreases entries.len(),
    {
        if entries.len() == 0 {
            Slots::empty()
        } else {
            Slots::of(entries.drop_last()).append(entries.last())
        }
    }

    /// At least a tenth of a large arena is dead.
    pub open spec fn should_compact(self) -> bool {
        self.slots.len() >= 1024 && dead_count(self.slots) * 10 >= self.slots.len()
    }

    /// The entries whose name holds `query`. No name is found by a query with a
    /// terminator byte.
    pub open spec fn matches_of(self, query: Seq<u8>) -> Seq<u64> {
        if query.contains(0u8) {
            seq![]
        } else {
            hits(self.slots, query)
        }
    }

    /// The first `max` entries whose name holds `query`.
    pub open spec fn candidates(self, query: Seq<u8>, max: nat) -> Seq<u64> {
        first_n(self.matches_of(query), max)
    }
}

// ---------------------------------------------------------------------------
// Laws and lemmas of the model
// ---------------------------------------------------------------------------

/// Hits of a concatenation are the concatenation of the hits.
pub proof fn hits_of_concat(a: Seq<Slot>, b: Seq<Slot>, query: Seq<u8>)
    ensures
        hits(a + b, query) == hits(a, query) + hits(b, query),
    decreases b.len(),
{
    if b.len() == 0 {
        assert(a + b =~= a);
        assert(hits(a, query) + hits(b, query) =~= hits(a, query));
    } else {
        hits_of_concat(a, b.drop_last(), query);
        assert((a + b).drop_last() =~= a + b.drop_last());
        assert((a + b).last() == b.last());
        assert(hits(a + b, query) =~= hits(a, query) + hits(b, query));
    }
}

/// The hits of a range are those of its two parts.
proof fn lemma_step(slots: Seq<Slot>, query: Seq<u8>, a: int, b: int, c: int)
    requires
        0 <= a <= b <= c <= slots.len(),
    ensures
        hits(slots.subrange(a, c), query) == hits(slots.subrange(a, b), query) + hits(
            slots.subrange(b, c),
            query,
        ),
{
    hits_of_concat(slots.subrange(a, b), slots.subrange(b, c), query);
    assert(slots.subrange(a, b) + slots.subrange(b, c) =~= slots.subrange(a, c));
}

proof fn lemma_no_hits(slots: Seq<Slot>, query: Seq<u8>)
    requires
        forall|i: int|
            0 <= i < slots.len() ==> !((#[trigger] slots[i]).live && bytes::contains(
                slots[i].name,
                query,
            )),
    ensures
        hits(slots, query) == Seq::<u64>::empty(),
    decreases slots.len(),
{
    if slots.len() > 0 {
        assert(!(slots[slots.len() - 1].live && bytes::contains(
            slots[slots.len() - 1].name,
            query,
        )));
        lemma_no_hits(slots.drop_last(), query);
    }
}

/// A reference number is a hit exactly where a live place holds the query
/// under it.
pub proof fn hits_are_live_matches(slots: Seq<Slot>, query: Seq<u8>, frn: u64)
    ensures
        hits(slots, query).contains(frn) <==> exists|i: int|
            0 <= i < slots.len() && (#[trigger] slots[i]).live && slots[i].frn == frn
                && bytes::contains(slots[i].name, query),
    decreases slots.len(),
{
    let h = hits(slots, query);
    if slots.len() > 0 {
        let rest = slots.drop_last();
        let last = slots.last();
        hits_are_live_matches(rest, query, frn);
        let g = hits(rest, query);
        if h.contains(frn) {
            let k = choose|k: int| 0 <= k < h.len() && h[k] == frn;
            if k < g.len() {
                assert(g[k] == frn);
                let i = choose|i: int|
                    0 <= i < rest.len() && (#[trigger] rest[i]).live && rest[i].frn == frn
                        && bytes::contains(rest[i].name, query);
                assert(slots[i] == rest[i]);
            } else {
                assert(slots[slots.len() - 1] == last);
            }
        }
        if exists|i: int|
            0 <= i < slots.len() && (#[trigger] slots[i]).live && slots[i].frn == frn
                && bytes::contains(slots[i].name, query) {
            let i = choose|i: int|
                0 <= i < slots.len() && (#[trigger] slots[i]).live && slots[i].frn == frn
                    && bytes::contains(slots[i].name, query);
            if i < rest.len() {
                assert(rest[i] == slots[i]);
                assert(g.contains(frn));
                let k = choose|k: int| 0 <= k < g.len() && g[k] == frn;
                assert(h[k] == frn);
            } else {
                assert(h[g.len() as int] == frn);
            }
        }
    }
}

/// Places that are not live have no part in what is found.
pub proof fn hits_are_in_live_places(slots: Seq<Slot>, query: Seq<u8>)
    ensures
        hits(live_slots_of(slots), query) == hits(slots, query),
    decreases slots.len(),
{
    if slots.len() > 0 {
        let rest = slots.drop_last();
        hits_are_in_live_places(rest, query);
        if slots.last().live {
            assert(live_slots_of(slots).drop_last() =~= live_slots_of(rest));
        }
    }
}

/// No reference number is found twice where no two live places have the same.
pub proof fn hits_are_distinct(slots: Seq<Slot>, query: Seq<u8>)
    requires
        forall|i: int, j: int|
            0 <= i < j < slots.len() && (#[trigger] slots[i]).live && (#[trigger] slots[j]).live
                ==> slots[i].frn != slots[j].frn,
    ensures
        hits(slots, query).no_duplicates(),
    decreases slots.len(),
{
    if slots.len() > 0 {
        let rest = slots.drop_last();
        let before = hits(rest, query);
        let now = hits(slots, query);
        assert forall|i: int, j: int|
            0 <= i < j < rest.len() && (#[trigger] rest[i]).live && (
            #[trigger] rest[j]).live implies rest[i].frn != rest[j].frn by {
            assert(slots[i] == rest[i] && slots[j] == rest[j]);
        }
        hits_are_distinct(rest, query);
        if now.len() > before.len() {
            let f = slots.last().frn;
            hits_are_live_matches(rest, query, f);
            assert(!before.contains(f)) by {
                if before.contains(f) {
                    let i = choose|i: int|
                        0 <= i < rest.len() && (#[trigger] rest[i]).live && rest[i].frn == f
                            && bytes::contains(rest[i].name, query);
                    assert(slots[i] == rest[i] && slots[slots.len() - 1] == slots.last());
                }
            }
            assert forall|a: int, b: int| 0 <= a < now.len() && 0 <= b < now.len() && a
                != b implies now[a] != now[b] by {
                if a < before.len() {
                    assert(before.contains(before[a]));
                }
                if b < before.len() {
                    assert(before.contains(before[b]));
                }
            }
        }
    }
}

proof fn lemma_dead_update(slots: Seq<Slot>, at: int, s: Slot)
    requires
        0 <= at < slots.len(),
        slots[at].live,
        !s.live,
    ensures
        dead_count(slots.update(at, s)) == dead_count(slots) + 1,
    decreases slots.len(),
{
    let u = slots.update(at, s);
    if at == slots.len() - 1 {
        assert(u.drop_last() =~= slots.drop_last());
    } else {
        lemma_dead_update(slots.drop_last(), at, s);
        assert(u.drop_last() =~= slots.drop_last().update(at, s));
        assert(u.last() == slots.last());
    }
}

/// A place takes the same room whether it is live or not.
pub proof fn text_len_ignores_life(slots: Seq<Slot>, at: int)
    requires
        0 <= at < slots.len(),
    ensures
        text_len(slots.update(at, Slot { live: false, ..slots[at] })) == text_len(slots),
{
    lemma_text_update(slots, at, Slot { live: false, ..slots[at] });
}

proof fn lemma_dead_bound(slots: Seq<Slot>)
    ensures
        dead_count(slots) <= slots.len(),
    decreases slots.len(),
{
    if slots.len() > 0 {
        lemma_dead_bound(slots.drop_last());
    }
}

proof fn lemma_text_update(slots: Seq<Slot>, at: int, s: Slot)
    requires
        0 <= at < slots.len(),
        s.name == slots[at].name,
    ensures
        text_len(slots.update(at, s)) == text_len(slots),
    decreases slots.len(),
{
    let u = slots.update(at, s);
    if at == slots.len() - 1 {
        assert(u.drop_last() =~= slots.drop_last());
    } else {
        lemma_text_update(slots.drop_last(), at, s);
        assert(u.drop_last() =~= slots.drop_last().update(at, s));
        assert(u.last() == slots.last());
    }
}

// ---------------------------------------------------------------------------
// Parallel work
// ---------------------------------------------------------------------------

/// `rayon::current_num_threads` gives the number of threads of the pool.
/// Nothing is claimed of it: it depends on the machine.
pub assume_specification[ rayon::current_num_threads ]() -> usize;

/// `into_par_iter`, `map` and `collect` of rayon: the function is called on
/// every item, on the threads of the pool, and the results come back in the
/// order of the items.
#[verifier::external_body]
fn par_map<F: Fn((usize, usize)) -> Vec<u64> + Sync + Send>(
    items: Vec<(usize, usize)>,
    f: F,
) -> (r: Vec<Vec<u64>>)
    requires
        forall|i: int| 0 <= i < items@.len() ==> call_requires(f, (#[trigger] items@[i],)),
    ensures
        r@.len() == items@.len(),
        forall|i: int|
            0 <= i < items@.len() ==> call_ensures(f, (items@[i],), #[trigger] r@[i]),
{
    items.into_par_iter().map(f).collect()
}

/// `ranges` cut `0..len` into consecutive pieces.
spec fn cuts(ranges: Seq<(usize, usize)>, len: nat) -> bool {
    &&& forall|i: int| 0 <= i < ranges.len() ==> (#[trigger] ranges[i]).0 <= ranges[i].1 <= len
    &&& forall|i: int| 0 <= i < ranges.len() ==> ranges[i].0 == #[trigger] covered(ranges, i)
}

/// Where the last of the first `n` pieces ends.
spec fn covered(ranges: Seq<(usize, usize)>, n: int) -> int {
    if n == 0 {
        0
    } else {
        ranges[n - 1].1 as int
    }
}

/// Cuts `0..len` into about twice as many pieces as there are threads.
fn chunk_ranges(len: usize, threads: usize) -> (r: Vec<(usize, usize)>)
    ensures
        cuts(r@, len as nat),
        covered(r@, r@.len() as int) == len,
{
    let threads: usize = if threads == 0 {
        1
    } else {
        threads
    };
    let target: usize = if threads > usize::MAX / 2 {
        usize::MAX
    } else {
        threads * 2
    };
    let whole = len / target;
    let size: usize = if whole == 0 {
        1
    } else if len % target == 0 || whole == usize::MAX {
        whole
    } else {
        whole + 1
    };
    let mut r: Vec<(usize, usize)> = Vec::new();
    let mut start: usize = 0;
    while start < len
        invariant
            size >= 1,
            start <= len,
            cuts(r@, len as nat),
            covered(r@, r@.len() as int) == start,
        decreases len - start,
    {
        let end: usize = if len - start <= size {
            len
        } else {
            start + size
        };
        let ghost before = r@;
        r.push((start, end));
        assert(cuts(r@, len as nat)) by {
            assert forall|i: int| 0 <= i < r@.len() implies r@[i].0 == #[trigger] covered(
                r@,
                i,
            ) by {
                assert(covered(r@, i) == covered(before, i));
            }
        }
        start = end;
    }
    r
}

/// Cutting the parts short first does not change the start of the whole.
proof fn lemma_first_n_concat<A>(a: Seq<A>, b: Seq<A>, n: nat)
    ensures
        first_n(first_n(a, n) + first_n(b, n), n) == first_n(a + b, n),
{
    assert(first_n(first_n(a, n) + first_n(b, n), n) =~= first_n(a + b, n));
}

// ---------------------------------------------------------------------------
// The arena
// ---------------------------------------------------------------------------

/// The names of all entries, ready to be searched.
#[derive(Debug, Clone)]
pub struct SearchArena {
    names: Vec<u8>,
    offsets: Vec<u32>,
    frns: Vec<u64>,
    dirs: Vec<bool>,
    tombstones: Vec<bool>,
    tombstone_count: usize,
    slot_by_frn: HashMap<u64, usize>,
}

/// Where the place `i` ends, its terminator included.
spec fn end_of(offsets: Seq<u32>, names: Seq<u8>, i: int) -> int {
    if i + 1 < offsets.len() {
        offsets[i + 1] as int
    } else {
        names.len() as int
    }
}

/// The places tile the buffer, each ending in a terminator.
spec fn tiled(offsets: Seq<u32>, names: Seq<u8>) -> bool {
    &&& forall|i: int|
        0 <= i < offsets.len() ==> (#[trigger] offsets[i]) < end_of(offsets, names, i)
            && end_of(offsets, names, i) <= names.len() && names[end_of(offsets, names, i) - 1]
            == 0
    &&& forall|i: int, j: int|
        0 <= i < j < offsets.len() ==> end_of(offsets, names, i) <= #[trigger] offsets[j]
            && #[trigger] offsets[i] < offsets[j]
}

/// The first `max` hits among the places `from..to`.
#[verifier::opaque]
spec fn hits_within(slots: Seq<Slot>, query: Seq<u8>, from: int, to: int, max: nat) -> Seq<u64> {
    first_n(hits(slots.subrange(from, to), query), max)
}

proof fn lemma_no_place(slots: Seq<Slot>, query: Seq<u8>, max: nat)
    ensures
        hits_within(slots, query, 0, 0, max) == Seq::<u64>::empty(),
{
    reveal(hits_within);
    assert(slots.subrange(0, 0) =~= seq![]);
}

proof fn lemma_merged(
    slots: Seq<Slot>,
    query: Seq<u8>,
    done: int,
    next: int,
    max: nat,
    merged: Seq<u64>,
)
    requires
        0 <= done <= next <= slots.len(),
        merged == first_n(
            hits_within(slots, query, 0, done, max) + hits_within(slots, query, done, next, max),
            max,
        ),
    ensures
        merged == hits_within(slots, query, 0, next, max),
{
    reveal(hits_within);
    lemma_step(slots, query, 0, done, next);
    lemma_first_n_concat(
        hits(slots.subrange(0, done), query),
        hits(slots.subrange(done, next), query),
        max,
    );
}

/// Adds the elements of `part` while there are fewer than `max`.
fn extend_upto(merged: &mut Vec<u64>, part: &Vec<u64>, max: usize)
    requires
        old(merged)@.len() <= max,
    ensures
        final(merged)@ == first_n(old(merged)@ + part@, max as nat),
        final(merged)@.len() <= max,
{
    let ghost before = merged@;
    let mut k: usize = 0;
    while k < part.len() && merged.len() < max
        invariant
            k <= part@.len(),
            before.len() <= max,
            merged@ == before + part@.take(k as int),
            merged@.len() <= max,
        decreases part@.len() - k,
    {
        merged.push(part[k]);
        k += 1;
        assert(merged@ =~= before + part@.take(k as int));
    }
    assert(merged@ =~= first_n(before + part@, max as nat));
}

/// Joins the hits of consecutive pieces, at most `max` of them.
fn merge_parts(
    parts: &Vec<Vec<u64>>,
    max: usize,
    Ghost(slots): Ghost<Seq<Slot>>,
    Ghost(query): Ghost<Seq<u8>>,
    Ghost(ranges): Ghost<Seq<(usize, usize)>>,
) -> (merged: Vec<u64>)
    requires
        parts@.len() == ranges.len(),
        cuts(ranges, slots.len()),
        forall|k: int|
            0 <= k < ranges.len() ==> (#[trigger] parts@[k])@ == hits_within(
                slots,
                query,
                ranges[k].0 as int,
                ranges[k].1 as int,
                max as nat,
            ),
    ensures
        merged@ == hits_within(
            slots,
            query,
            0,
            covered(ranges, ranges.len() as int),
            max as nat,
        ),
{
    let mut merged: Vec<u64> = Vec::new();
    let mut i: usize = 0;
    proof {
        lemma_no_place(slots, query, max as nat);
    }
    while i < parts.len()
        invariant
            i <= parts@.len(),
            parts@.len() == ranges.len(),
            cuts(ranges, slots.len()),
            forall|k: int|
                0 <= k < ranges.len() ==> (#[trigger] parts@[k])@ == hits_within(
                    slots,
                    query,
                    ranges[k].0 as int,
                    ranges[k].1 as int,
                    max as nat,
                ),
            0 <= covered(ranges, i as int) <= slots.len(),
            merged@ == hits_within(slots, query, 0, covered(ranges, i as int), max as nat),
            merged@.len() <= max,
        decreases parts@.len() - i,
    {
        let ghost range = ranges[i as int];
        extend_upto(&mut merged, &parts[i], max);
        proof {
            assert(parts@[i as int]@ == hits_within(
                slots,
                query,
                range.0 as int,
                range.1 as int,
                max as nat,
            ));
            lemma_merged(
                slots,
                query,
                covered(ranges, i as int),
                range.1 as int,
                max as nat,
                merged@,
            );
        }
        i += 1;
    }
    merged
}

/// An occurrence within a part of a byte string is one of that part.
proof fn lemma_in_part(names: Seq<u8>, base: int, end: int, query: Seq<u8>, p: int)
    requires
        0 <= base <= end <= names.len(),
    ensures
        base <= p && p + query.len() <= end ==> bytes::occurs_at(names, query, p)
            == bytes::occurs_at(names.subrange(base, end), query, p - base),
        bytes::occurs_at(names.subrange(base, end), query, p - base) ==> base <= p && p
            + query.len() <= end,
{
    if base <= p && p + query.len() <= end {
        assert(names.subrange(base, end).subrange(p - base, p - base + query.len())
            =~= names.subrange(p, p + query.len()));
    }
}

impl View for SearchArena {
    type V = Slots;

    closed spec fn view(&self) -> Slots {
        Slots {
            slots: Seq::new(
                self.frns@.len(),
                |i: int|
                    Slot {
                        frn: self.frns@[i],
                        name: self.names@.subrange(
                            self.offsets@[i] as int,
                            end_of(self.offsets@, self.names@, i) - 1,
                        ),
                        is_directory: self.dirs@[i],
                        live: !self.tombstones@[i],
                    },
            ),
            slot_of: Map::new(
                |f: u64| self.slot_by_frn@.contains_key(f),
                |f: u64| self.slot_by_frn@[f] as int,
            ),
        }
    }
}

impl Default for SearchArena {
    fn default() -> (r: SearchArena)
        ensures
            r.wf(),
            r@ == Slots::empty(),
    {
        let r = SearchArena {
            names: Vec::new(),
            offsets: Vec::new(),
            frns: Vec::new(),
            dirs: Vec::new(),
            tombstones: Vec::new(),
            tombstone_count: 0,
            slot_by_frn: HashMap::new(),
        };
        assert(r@.slots =~= Slots::empty().slots);
        assert(r@.slot_of =~= Slots::empty().slot_of);
        r
    }
}

impl SearchArena {
    /// The buffer, the tables and the counters agree.
    pub closed spec fn wf(&self) -> bool {
        &&& self.offsets@.len() == self.frns@.len()
        &&& self.dirs@.len() == self.frns@.len()
        &&& self.tombstones@.len() == self.frns@.len()
        &&& tiled(self.offsets@, self.names@)
        &&& self.names@.len() == text_len(self@.slots)
        &&& self.tombstone_count == dead_count(self@.slots)
        &&& self@.wf()
    }

    /// Adds a place for `entry`.
    pub fn append_entry(&mut self, entry: &FileEntry)
        requires
            old(self).wf(),
        ensures
            final(self).wf(),
            final(self)@ == old(self)@.append(entry@),
    {
        let start = self.names.len();
        if start > u32::MAX as usize {
            return;
        }
        let ghost before = *self;
        self.offsets.push(start as u32);
        bytes::push_lowered(&mut self.names, entry.name.as_str().as_bytes());
        self.names.push(0);
        self.frns.push(entry.frn);
        self.dirs.push(entry.is_directory());
        self.tombstones.push(false);
        let slot: usize = self.frns.len() - 1;
        self.slot_by_frn.insert(entry.frn, slot);
        proof {
            let n = before.frns@.len() as int;
            let e = entry@;
            let want = before@.append(e);
            let text = bytes::lower_bytes(bytes::utf8(e.name));
            assert(self.names@ =~= before.names@ + text + seq![0u8]);
            assert forall|i: int| 0 <= i < n implies #[trigger] end_of(
                self.offsets@,
                self.names@,
                i,
            ) == end_of(before.offsets@, before.names@, i) by {}
            assert(end_of(self.offsets@, self.names@, n) == self.names@.len());
            assert(tiled(self.offsets@, self.names@)) by {
                assert forall|i: int| 0 <= i < self.offsets@.len() implies (
                #[trigger] self.offsets@[i]) < end_of(self.offsets@, self.names@, i) && end_of(
                    self.offsets@,
                    self.names@,
                    i,
                ) <= self.names@.len() && self.names@[end_of(self.offsets@, self.names@, i) - 1]
                    == 0 by {
                    if i < n {
                        assert(before.offsets@[i] == self.offsets@[i]);
                        let z = end_of(before.offsets@, before.names@, i) - 1;
                        assert(before.names@[z] == 0);
                        assert(self.names@[z] == before.names@[z]);
                    }
                }
                assert forall|i: int, j: int| 0 <= i < j < self.offsets@.len() implies end_of(
                    self.offsets@,
                    self.names@,
                    i,
                ) <= #[trigger] self.offsets@[j] && #[trigger] self.offsets@[i]
                    < self.offsets@[j] by {
                    assert(before.offsets@[i] == self.offsets@[i]);
                    if j < n {
                        assert(before.offsets@[j] == self.offsets@[j]);
                    }
                }
            }
            assert(self@.slots =~= want.slots) by {
                assert forall|i: int| 0 <= i < n + 1 implies self@.slots[i]
                    == #[trigger] want.slots[i] by {
                    if i < n {
                        assert(before@.slots[i] == want.slots[i]);
                        let a = before.offsets@[i] as int;
                        let z = end_of(before.offsets@, before.names@, i) - 1;
                        assert(before.offsets@[i] < end_of(before.offsets@, before.names@, i));
                        assert(self.names@.subrange(a, z) =~= before.names@.subrange(a, z));
                    } else {
                        assert(self.names@.subrange(start as int, self.names@.len() - 1) =~= text);
                    }
                }
            }
            assert(self@.slot_of =~= want.slot_of);
            assert(self@.slots.drop_last() =~= before@.slots);
            assert(self@.wf()) by {
                assert forall|f: u64| #[trigger] self@.slot_of.contains_key(f) implies 0
                    <= self@.slot_of[f] < self@.slots.len() && self@.slots[self@.slot_of[f]].frn
                    == f && self@.slots[self@.slot_of[f]].live by {
                    if f != e.frn {
                        assert(before@.slot_of.contains_key(f));
                    }
                }
            }
        }
    }

    /// Marks the place of `frn` as no longer live.
    pub fn delete_frn(&mut self, frn: u64)
        requires
            old(self).wf(),
        ensures
            final(self).wf(),
            final(self)@ == old(self)@.delete(frn),
    {
        let ghost before = *self;
        let found = self.slot_by_frn.remove(&frn);
        match found {
            None => {
                assert(self@.slots =~= before@.slots);
                assert(self@.slot_of =~= before@.slot_of);
            },
            Some(slot) => {
                assert(before@.slot_of.contains_key(frn));
                assert(before@.slot_of[frn] == slot);
                assert(before@.slots[slot as int].live);
                proof {
                    lemma_dead_bound(before@.slots);
                    lemma_dead_update(
                        before@.slots,
                        slot as int,
                        Slot { live: false, ..before@.slots[slot as int] },
                    );
                    lemma_dead_bound(
                        before@.slots.update(
                            slot as int,
                            Slot { live: false, ..before@.slots[slot as int] },
                        ),
                    );
                    lemma_text_update(
                        before@.slots,
                        slot as int,
                        Slot { live: false, ..before@.slots[slot as int] },
                    );
                }
                assert(self.frns.len() == before@.slots.len());
                self.tombstones.set(slot, true);
                self.tombstone_count = self.tombstone_count + 1;
                proof {
                    let want = before@.delete(frn);
                    assert(self@.slots =~= want.slots);
                    assert(self@.slot_of =~= want.slot_of);
                    assert(self@.wf()) by {
                        assert forall|f: u64| #[trigger] self@.slot_of.contains_key(f) implies 0
                            <= self@.slot_of[f] < self@.slots.len()
                            && self@.slots[self@.slot_of[f]].frn == f
                            && self@.slots[self@.slot_of[f]].live by {
                            assert(before@.slot_of.contains_key(f));
                        }
                    }
                }
            },
        }
    }

    /// Replaces what stood under the reference number of `entry`.
    pub fn upsert_entry(&mut self, entry: &FileEntry)
        requires
            old(self).wf(),
        ensures
            final(self).wf(),
            final(self)@ == old(self)@.upsert(entry@),
    {
        self.delete_frn(entry.frn);
        self.append_entry(entry);
    }

    /// The arena of `entries`, in their order.
    pub fn from_entries(entries: &Vec<&FileEntry>) -> (r: SearchArena)
        ensures
            r.wf(),
            r@ == Slots::of(entry::entry_seq(entries@)),
    {
        let mut arena = SearchArena::default();
        let ghost all = entry::entry_seq(entries@);
        let mut i: usize = 0;
        assert(all.take(0) =~= seq![]);
        while i < entries.len()
            invariant
                i <= entries@.len(),
                all == entry::entry_seq(entries@),
                arena.wf(),
                arena@ == Slots::of(all.take(i as int)),
            decreases entries@.len() - i,
        {
            arena.append_entry(entries[i]);
            i += 1;
            assert(all.take(i as int).drop_last() =~= all.take(i - 1));
            assert(all.take(i as int).last() == entries@[i - 1]@);
        }
        assert(all.take(i as int) =~= all);
        arena
    }

    /// Whether enough places are dead to rebuild the arena.
    pub fn should_compact(&self) -> (r: bool)
        requires
            self.wf(),
        ensures
            r == self@.should_compact(),
    {
        proof {
            lemma_dead_bound(self@.slots);
        }
        let len = self.frns.len();
        if len < 1024 {
            return false;
        }
        let tenth: usize = if len % 10 == 0 {
            len / 10
        } else {
            len / 10 + 1
        };
        self.tombstone_count >= tenth
    }

    /// Number of live places.
    pub fn live_slots(&self) -> (r: usize)
        requires
            self.wf(),
        ensures
            r == self@.slots.len() - dead_count(self@.slots),
    {
        proof {
            lemma_dead_bound(self@.slots);
        }
        self.frns.len() - self.tombstone_count
    }

    /// The name of place `i` holds `query` exactly where `query` stands in the
    /// part of the buffer before its terminator.
    proof fn lemma_place(self, i: int, query: Seq<u8>)
        requires
            self.wf(),
            0 <= i < self@.slots.len(),
        ensures
            bytes::contains(self@.slots[i].name, query) <==> exists|p: int|
                self.offsets@[i] <= p && p + query.len() <= end_of(self.offsets@, self.names@, i)
                    - 1 && #[trigger] bytes::occurs_at(self.names@, query, p),
    {
        let a = self.offsets@[i] as int;
        let z = end_of(self.offsets@, self.names@, i) - 1;
        let name = self@.slots[i].name;
        assert(self.offsets@[i] < end_of(self.offsets@, self.names@, i));
        assert(name == self.names@.subrange(a, z));
        if bytes::contains(name, query) {
            let k = choose|k: int| bytes::occurs_at(name, query, k);
            assert(self.names@.subrange(a + k, a + k + query.len()) =~= name.subrange(
                k,
                k + query.len(),
            ));
            assert(bytes::occurs_at(self.names@, query, a + k));
        }
        if exists|p: int|
            a <= p && p + query.len() <= z && #[trigger] bytes::occurs_at(
                self.names@,
                query,
                p,
            ) {
            let p = choose|p: int|
                a <= p && p + query.len() <= z && #[trigger] bytes::occurs_at(
                    self.names@,
                    query,
                    p,
                );
            assert(name.subrange(p - a, p - a + query.len()) =~= self.names@.subrange(
                p,
                p + query.len(),
            ));
            assert(bytes::occurs_at(name, query, p - a));
        }
    }

    /// The hits among the places `start..end`, at most `max` of them.
    fn scan_chunk(&self, query: &[u8], start: usize, end: usize, max: usize) -> (r: Vec<u64>)
        requires
            self.wf(),
            !query@.contains(0u8),
            start <= end <= self@.slots.len(),
        ensures
            r@ == hits_within(self@.slots, query@, start as int, end as int, max as nat),
    {
        let mut found: Vec<u64> = Vec::new();
        let mut slot = start;
        let end_byte: usize = if end < self.offsets.len() {
            self.offsets[end] as usize
        } else {
            self.names.len()
        };
        let ghost slots = self@.slots;
        proof {
            reveal(hits_within);
            assert(slots.subrange(start as int, start as int) =~= seq![]);
        }
        while slot < end && found.len() < max
            invariant
                self.wf(),
                slots == self@.slots,
                !query@.contains(0u8),
                start <= slot <= end <= slots.len(),
                end_byte == if end < self.offsets@.len() {
                    self.offsets@[end as int] as int
                } else {
                    self.names@.len() as int
                },
                found@ == hits(slots.subrange(start as int, slot as int), query@),
                found@.len() <= max,
            decreases end - slot,
        {
            let base = self.offsets[slot] as usize;
            proof {
                self.lemma_part(slot as int, end as int);
            }
            let part = vstd::slice::slice_subrange(self.names.as_slice(), base, end_byte);
            let hit = memchr::memmem::find(part, query);
            match hit {
                None => {
                    proof {
                        self.lemma_none(query@, part@, slot as int, end as int);
                        reveal(hits_within);
                        lemma_step(slots, query@, start as int, slot as int, end as int);
                        assert(found@ + Seq::<u64>::empty() =~= found@);
                    }
                    return found;
                },
                Some(relative) => {
                    let global: usize = base + relative;
                    let ghost from = slot;
                    while slot + 1 < end && global >= self.offsets[slot + 1] as usize
                        invariant
                            self.wf(),
                            from <= slot < end <= self.offsets@.len(),
                            self.offsets@[slot as int] <= global,
                        decreases end - slot,
                    {
                        slot += 1;
                    }
                    proof {
                        self.lemma_found(
                            query@,
                            part@,
                            from as int,
                            slot as int,
                            end as int,
                            relative as int,
                        );
                        lemma_step(slots, query@, start as int, from as int, slot + 1);
                        assert(found@ + Seq::<u64>::empty() =~= found@);
                    }
                    if !self.tombstones[slot] {
                        let ghost before = found@;
                        found.push(self.frns[slot]);
                        assert(found@ =~= before + seq![slots[slot as int].frn]);
                    }
                    slot += 1;
                },
            }
        }
        proof {
            let rest = slots.subrange(slot as int, end as int);
            lemma_step(slots, query@, start as int, slot as int, end as int);
            if slot == end {
                assert(rest =~= seq![]);
                assert(found@ + hits(rest, query@) =~= found@);
            } else {
                assert(first_n(found@ + hits(rest, query@), max as nat) =~= found@);
            }
        }
        found
    }

    /// Places between two others lie between them in the buffer.
    proof fn lemma_places_ordered(self, a: int, i: int, b: int)
        requires
            self.wf(),
            0 <= a <= i < b <= self.offsets@.len(),
        ensures
            self.offsets@[a] <= self.offsets@[i],
            b < self.offsets@.len() ==> end_of(self.offsets@, self.names@, i) <= self.offsets@[b],
            end_of(self.offsets@, self.names@, i) <= self.names@.len(),
    {
        assert(self.offsets@[i] < end_of(self.offsets@, self.names@, i));
        if a < i {
            assert(self.offsets@[a] < self.offsets@[i]);
        }
        if b < self.offsets@.len() {
            assert(self.offsets@[i] < self.offsets@[b]);
        }
    }

    /// The first occurrence behind the start of place `from` lies in the place
    /// whose part of the buffer it starts in; the places before hold none.
    proof fn lemma_found(
        self,
        query: Seq<u8>,
        part: Seq<u8>,
        from: int,
        slot: int,
        end: int,
        relative: int,
    )
        requires
            self.wf(),
            !query.contains(0u8),
            0 <= from <= slot < end <= self.offsets@.len(),
            ({
                let base = self.offsets@[from] as int;
                let end_byte = if end < self.offsets@.len() {
                    self.offsets@[end] as int
                } else {
                    self.names@.len() as int
                };
                let global = base + relative;
                &&& base <= end_byte <= self.names@.len()
                &&& part == self.names@.subrange(base, end_byte)
                &&& bytes::occurs_at(part, query, relative)
                &&& forall|j: int| 0 <= j < relative ==> !bytes::occurs_at(part, query, j)
                &&& self.offsets@[slot] <= global
                &&& slot + 1 < end ==> global < self.offsets@[slot + 1]
            }),
        ensures
            hits(self@.slots.subrange(from, slot + 1), query) == if self@.slots[slot].live {
                seq![self@.slots[slot].frn]
            } else {
                Seq::<u64>::empty()
            },
    {
        let base = self.offsets@[from] as int;
        let end_byte = if end < self.offsets@.len() {
            self.offsets@[end] as int
        } else {
            self.names@.len() as int
        };
        let global = base + relative;
        let stop = end_of(self.offsets@, self.names@, slot);
        assert(self.offsets@[slot] < stop && self.names@[stop - 1] == 0);
        lemma_in_part(self.names@, base, end_byte, query, global);
        assert(global + query.len() <= stop - 1) by {
            if global < stop {
                if stop - 1 < global + query.len() {
                    let at = stop - 1 - global;
                    assert(self.names@.subrange(global, global + query.len())[at]
                        == self.names@[stop - 1]);
                    assert(query[at] == 0);
                }
            } else {
                assert(query.len() == 0 && global == end_byte);
                assert(false) by {
                    if slot > from {
                        assert(stop == end_byte);
                        self.lemma_place(slot, query);
                        assert(bytes::occurs_at(part, query, 0)) by {
                            assert(part.subrange(0, 0) =~= query);
                        }
                    } else {
                        assert(part.subrange(0, 0) =~= query);
                        assert(bytes::occurs_at(part, query, 0));
                    }
                }
            }
        }
        self.lemma_place(slot, query);
        assert(bytes::occurs_at(self.names@, query, global));
        assert forall|k: int| 0 <= k < slot - from implies !((
        #[trigger] self@.slots.subrange(from, slot)[k]).live && bytes::contains(
            self@.slots.subrange(from, slot)[k].name,
            query,
        )) by {
            let i = from + k;
            self.lemma_place(i, query);
            self.lemma_places_ordered(from, i, slot);
            if bytes::contains(self@.slots[i].name, query) {
                let p = choose|p: int|
                    self.offsets@[i] <= p && p + query.len() <= end_of(
                        self.offsets@,
                        self.names@,
                        i,
                    ) - 1 && #[trigger] bytes::occurs_at(self.names@, query, p);
                lemma_in_part(self.names@, base, end_byte, query, p);
                assert(bytes::occurs_at(part, query, p - base));
                assert(p - base < relative);
            }
        }
        let skipped = self@.slots.subrange(from, slot);
        let one = self@.slots.subrange(slot, slot + 1);
        lemma_no_hits(skipped, query);
        lemma_step(self@.slots, query, from, slot, slot + 1);
        assert(one.drop_last() =~= seq![]);
        assert(one.last() == self@.slots[slot]);
        assert(hits(one.drop_last(), query) =~= seq![]);
        assert(hits(self@.slots.subrange(from, slot + 1), query) =~= hits(one, query));
        if self@.slots[slot].live {
            assert(hits(one, query) =~= seq![self@.slots[slot].frn]);
        }
    }

    /// The part of the buffer that belongs to the places `slot..end`.
    proof fn lemma_part(self, slot: int, end: int)
        requires
            self.wf(),
            0 <= slot < end <= self.offsets@.len(),
        ensures
            self.offsets@[slot] < self.names@.len(),
            end < self.offsets@.len() ==> self.offsets@[slot] < self.offsets@[end]
                <= self.names@.len(),
    {
        assert(self.offsets@[slot] < end_of(self.offsets@, self.names@, slot));
        if end < self.offsets@.len() {
            assert(self.offsets@[slot] < self.offsets@[end]);
            assert(self.offsets@[end] < end_of(self.offsets@, self.names@, end));
        }
    }

    /// Where `query` stands nowhere in the part of the places `slot..end`,
    /// none of them is a hit.
    proof fn lemma_none(self, query: Seq<u8>, part: Seq<u8>, slot: int, end: int)
        requires
            self.wf(),
            0 <= slot < end <= self.offsets@.len(),
            part == self.names@.subrange(
                self.offsets@[slot] as int,
                if end < self.offsets@.len() {
                    self.offsets@[end] as int
                } else {
                    self.names@.len() as int
                },
            ),
            forall|j: int| !bytes::occurs_at(part, query, j),
        ensures
            hits(self@.slots.subrange(slot, end), query) == Seq::<u64>::empty(),
    {
        let base = self.offsets@[slot] as int;
        let end_byte = if end < self.offsets@.len() {
            self.offsets@[end] as int
        } else {
            self.names@.len() as int
        };
        self.lemma_part(slot, end);
        let rest = self@.slots.subrange(slot, end);
        assert forall|k: int| 0 <= k < rest.len() implies !((#[trigger] rest[k]).live
            && bytes::contains(rest[k].name, query)) by {
            let i = slot + k;
            self.lemma_place(i, query);
            self.lemma_places_ordered(slot, i, end);
            if bytes::contains(self@.slots[i].name, query) {
                let p = choose|p: int|
                    self.offsets@[i] <= p && p + query.len() <= end_of(
                        self.offsets@,
                        self.names@,
                        i,
                    ) - 1 && #[trigger] bytes::occurs_at(self.names@, query, p);
                lemma_in_part(self.names@, base, end_byte, query, p);
                assert(bytes::occurs_at(part, query, p - base));
            }
        }
        lemma_no_hits(rest, query);
    }

    /// The entries whose name holds `query_lower`, in arena order and at most
    /// `max_candidates` of them. The names are searched on all threads.
    pub fn candidate_frns(&self, query_lower: &str, max_candidates: usize) -> (r: Vec<u64>)
        requires
            self.wf(),
        ensures
            r@ == self@.candidates(bytes::utf8(query_lower@), max_candidates as nat),
    {
        let query = query_lower.as_bytes();
        let ghost slots = self@.slots;
        let len = self.frns.len();
        if bytes::has_byte(query, 0) {
            return Vec::new();
        }
        if max_candidates == 0 || len == 0 {
            proof {
                assert(len == 0 ==> slots =~= seq![]);
                assert(first_n(hits(slots, query@), max_candidates as nat) =~= seq![]);
            }
            return Vec::new();
        }
        if query.len() == 0 {
            proof {
                reveal(hits_within);
                assert(slots.subrange(0, len as int) =~= slots);
            }
            return self.scan_chunk(query, 0, len, max_candidates);
        }
        let chunks = chunk_ranges(len, rayon::current_num_threads());
        let ghost ranges = chunks@;
        let scan = |chunk: (usize, usize)| -> (found: Vec<u64>)
            requires
                self.wf(),
                !query@.contains(0u8),
                chunk.0 <= chunk.1 <= self@.slots.len(),
            ensures
                found@ == hits_within(
                    self@.slots,
                    query@,
                    chunk.0 as int,
                    chunk.1 as int,
                    max_candidates as nat,
                ),
            { self.scan_chunk(query, chunk.0, chunk.1, max_candidates) };
        let parts = par_map(chunks, scan);
        proof {
            reveal(hits_within);
            assert(slots.subrange(0, slots.len() as int) =~= slots);
        }
        merge_parts(&parts, max_candidates, Ghost(slots), Ghost(query@), Ghost(ranges))
    }
}

/// An arena is built anew only where it has a thousand and twenty-four slots or
/// more and a tenth of them are dead.
pub proof fn compaction_pays(slots: Slots)
    ensures
        slots.should_compact() <==> slots.slots.len() >= 1024 && 10 * dead_count(slots.slots)
            >= slots.slots.len(),
        (forall|i: int| 0 <= i < slots.slots.len() ==> (#[trigger] slots.slots[i]).live)
            ==> !slots.should_compact(),
{
    if forall|i: int| 0 <= i < slots.slots.len() ==> (#[trigger] slots.slots[i]).live {
        lemma_none_dead(slots.slots);
    }
}

proof fn lemma_none_dead(slots: Seq<Slot>)
    requires
        forall|i: int| 0 <= i < slots.len() ==> (#[trigger] slots[i]).live,
    ensures
        dead_count(slots) == 0,
    decreases slots.len(),
{
    if slots.len() > 0 {
        let rest = slots.drop_last();
        assert(slots[slots.len() - 1].live);
        assert forall|i: int| 0 <= i < rest.len() implies (#[trigger] rest[i]).live by {
            assert(rest[i] == slots[i]);
        }
        lemma_none_dead(rest);
    }
}

/// The first items of a list are its start, as long as asked for, or all of it.
pub proof fn first_items_are_the_start<A>(s: Seq<A>, n: nat)
    ensures
        first_n(s, n).len() == if s.len() < n {
            s.len()
        } else {
            n
        },
        forall|i: int| 0 <= i < first_n(s, n).len() ==> #[trigger] first_n(s, n)[i] == s[i],
{
}

} // verus!
