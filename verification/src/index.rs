//! The index of a volume: its entries, their paths, and the search for names.

use vstd::prelude::*;
use std::collections::HashMap;
use std::collections::HashSet;
use crate::arena;
use crate::arena::SearchArena;
use crate::arena::Slot;
use crate::arena::Slots;
use crate::bytes;
use crate::entry;
use crate::entry::Change;
use crate::entry::Entry;
use crate::entry::FileEntry;
use crate::entry::JournalBatch;
use crate::entry::JournalChange;
use crate::entry::MftSnapshot;
use crate::ntfs;
use crate::ntfs::VolumeError;
use crate::text;
use crate::trigram;
use crate::trigram::TrigramIndex;

verus! {

broadcast use vstd::std_specs::hash::group_hash_axioms;

// ---------------------------------------------------------------------------
// Paths of entries
// ---------------------------------------------------------------------------

/// The part of a file reference number that tells records apart.
pub const NTFS_FILE_REFERENCE_INDEX_MASK: u64 = 0x0000_FFFF_FFFF_FFFF;

/// The record of the root directory.
pub const NTFS_ROOT_DIRECTORY_INDEX: u64 = 5;

/// Length in bytes from which a query may use the trigram index.
pub const TRIGRAM_MIN_QUERY_LEN: usize = 8;

/// The reference number names the root directory.
pub open spec fn root_reference(frn: u64) -> bool {
    (frn & NTFS_FILE_REFERENCE_INDEX_MASK) == NTFS_ROOT_DIRECTORY_INDEX
}

/// Whether the reference number names the root directory.
pub fn is_ntfs_root_reference(frn: u64) -> (r: bool)
    ensures
        r == root_reference(frn),
{
    (frn & NTFS_FILE_REFERENCE_INDEX_MASK) == NTFS_ROOT_DIRECTORY_INDEX
}

/// The names from `current` up towards the root: up to the root directory, a
/// missing record, an entry without a parent, or one that was `seen` before.
pub open spec fn chain(entries: Map<u64, Entry>, current: u64, seen: Set<u64>) -> Seq<Seq<char>>
    decreases entries.dom().difference(seen).len(),
    when entries.dom().finite()
{
    if root_reference(current) || !entries.contains_key(current) {
        seq![]
    } else {
        let e = entries[current];
        if e.parent_frn == 0 || e.parent_frn == current || seen.contains(current) {
            seq![e.name]
        } else {
            proof {
                let left = entries.dom().difference(seen);
                assert(left.contains(current));
                assert(entries.dom().difference(seen.insert(current)) =~= left.remove(current));
            }
            seq![e.name] + chain(entries, e.parent_frn, seen.insert(current))
        }
    }
}

/// The segments without those at the front that name no directory.
pub open spec fn named(segments: Seq<Seq<char>>) -> Seq<Seq<char>>
    decreases segments.len(),
{
    if segments.len() == 0 {
        segments
    } else if segments[0] == seq!['\\'] || segments[0].len() == 0 {
        named(segments.drop_first())
    } else {
        segments
    }
}

/// The segments, each behind a separator.
pub open spec fn descend(segments: Seq<Seq<char>>) -> Seq<char>
    decreases segments.len(),
{
    if segments.len() == 0 {
        seq![]
    } else {
        descend(segments.drop_last()).push('\\') + segments.last()
    }
}

/// The path that leads from the root of `drive` through `segments`.
pub open spec fn path_through(drive: Seq<char>, segments: Seq<Seq<char>>) -> Seq<char> {
    let below = named(segments);
    if below.len() == 0 {
        drive.push('\\')
    } else {
        drive + descend(below)
    }
}

/// The path of an entry.
pub open spec fn path_of(drive: Seq<char>, entries: Map<u64, Entry>, frn: u64) -> Seq<char> {
    path_through(drive, chain(entries, frn, Set::empty()).reverse())
}

proof fn lemma_named_push(p: Seq<Seq<char>>, x: Seq<char>)
    ensures
        named(p).len() > 0 ==> named(p.push(x)) == named(p).push(x),
        named(p).len() == 0 ==> named(p.push(x)) == if x == seq!['\\'] || x.len() == 0 {
            Seq::<Seq<char>>::empty()
        } else {
            seq![x]
        },
    decreases p.len(),
{
    if p.len() == 0 {
        let none = p.push(x).drop_first();
        assert(none =~= seq![]);
        assert(named(none) == none);
        assert(p.push(x) =~= seq![x]);
    } else {
        assert(p.push(x).drop_first() =~= p.drop_first().push(x));
        lemma_named_push(p.drop_first(), x);
    }
}

/// The path through the names of a chain, which lead upwards.
fn path_from(drive: &str, names: &Vec<String>) -> (r: String)
    ensures
        r@ == path_through(drive@, text::texts(names@).reverse()),
{
    let ghost down = text::texts(names@).reverse();
    let mut path = text::copy_text(drive);
    let mut any = false;
    let mut left: usize = names.len();
    assert(down.take(0) =~= seq![]);
    while left > 0
        invariant
            left <= names@.len(),
            down == text::texts(names@).reverse(),
            any == (named(down.take(names@.len() - left)).len() > 0),
            path@ == if any {
                drive@ + descend(named(down.take(names@.len() - left)))
            } else {
                drive@
            },
        decreases left,
    {
        let segment = names[left - 1].as_str();
        let ghost before = down.take(names@.len() - left);
        let ghost after = down.take(names@.len() - left + 1);
        proof {
            assert(down[names@.len() - left] == segment@);
            assert(after =~= before.push(segment@));
            lemma_named_push(before, segment@);
            reveal_strlit("\\");
            assert("\\"@ =~= seq!['\\']);
        }
        left -= 1;
        if !any && (text::same_text(segment, "\\") || text::len_in_bytes(segment) == 0) {
            proof {
                text::byte_len_zero(segment@);
            }
        } else {
            proof {
                text::byte_len_zero(segment@);
                let n = named(after);
                assert(n.last() == segment@);
                if any {
                    assert(n.drop_last() =~= named(before));
                } else {
                    assert(n.drop_last() =~= seq![]);
                    assert(descend(n.drop_last()) =~= seq![]);
                }
            }
            path.push('\\');
            text::push_text(&mut path, segment);
            any = true;
            assert(path@ =~= drive@ + descend(named(after)));
        }
    }
    assert(down.take(names@.len() as int) =~= down);
    if !any {
        path.push('\\');
    }
    path
}

/// The values of a map are what its keys list.
proof fn lemma_listed_values(keys: Seq<u64>, m: Map<u64, Entry>)
    requires
        entry::lists_keys(keys, m),
    ensures
        entry::entries_at(keys, m).to_set() == m.values(),
{
    let s = entry::entries_at(keys, m);
    assert forall|e: Entry| s.to_set().contains(e) <==> m.values().contains(e) by {
        if s.contains(e) {
            let i = choose|i: int| 0 <= i < s.len() && s[i] == e;
            assert(keys.contains(keys[i]));
            assert(m.contains_key(keys[i]) && m[keys[i]] == e);
        }
        if m.values().contains(e) {
            let k = choose|k: u64| m.contains_key(k) && m[k] == e;
            assert(keys.contains(k));
            let i = choose|i: int| 0 <= i < keys.len() && keys[i] == k;
            assert(s[i] == e);
        }
    }
    assert(s.to_set() =~= m.values());
}

// ---------------------------------------------------------------------------
// The index
// ---------------------------------------------------------------------------

/// The files and directories of one volume, ready to be searched.
#[derive(Debug, Clone)]
pub struct FileIndex {
    pub drive: String,
    pub entries: HashMap<u64, FileEntry>,
    pub journal_id: u64,
    pub next_usn: i64,
    pub indexed_at_epoch_secs: u64,
    pub search_arena: SearchArena,
    pub trigram_index: Option<TrigramIndex>,
}

/// The value of a [`FileIndex`].
pub struct Index {
    pub drive: Seq<char>,
    pub entries: Map<u64, Entry>,
    pub journal_id: u64,
    pub next_usn: i64,
    pub indexed_at_epoch_secs: u64,
    pub slots: Slots,
    pub lists: Option<Map<u32, Seq<u64>>>,
}

impl View for FileIndex {
    type V = Index;

    open spec fn view(&self) -> Index {
        Index {
            drive: self.drive@,
            entries: entry::entry_map(self.entries@),
            journal_id: self.journal_id,
            next_usn: self.next_usn,
            indexed_at_epoch_secs: self.indexed_at_epoch_secs,
            slots: self.search_arena@,
            lists: match self.trigram_index {
                Some(t) => Some(t@),
                None => None,
            },
        }
    }
}

/// The arena holds the given entries, in some order.
pub open spec fn arena_of(slots: Slots, entries: Map<u64, Entry>) -> bool {
    exists|keys: Seq<u64>| #[trigger]
        entry::lists_keys(keys, entries) && slots == Slots::of(entry::entries_at(keys, entries))
}

/// The entries after a change.
pub open spec fn changed_entries(entries: Map<u64, Entry>, change: Change) -> Map<u64, Entry> {
    match change {
        Change::Upsert(e) => entries.insert(e.frn, e),
        Change::Delete(frn) => entries.remove(frn),
    }
}

/// The arena after a change.
pub open spec fn changed_slots(slots: Slots, change: Change) -> Slots {
    match change {
        Change::Upsert(e) => slots.upsert(e),
        Change::Delete(frn) => slots.delete(frn),
    }
}

/// The entries after all of the changes, in their order.
pub open spec fn entries_after(entries: Map<u64, Entry>, changes: Seq<Change>) -> Map<u64, Entry>
    decreases changes.len(),
{
    if changes.len() == 0 {
        entries
    } else {
        changed_entries(entries_after(entries, changes.drop_last()), changes.last())
    }
}

/// The arena after all of the changes, in their order.
pub open spec fn slots_after(slots: Slots, changes: Seq<Change>) -> Slots
    decreases changes.len(),
{
    if changes.len() == 0 {
        slots
    } else {
        changed_slots(slots_after(slots, changes.drop_last()), changes.last())
    }
}

impl Index {
    /// What a change of the journal makes of the index: the entries and the
    /// arena follow the changes, the arena is built anew where too much of it
    /// is dead, and the trigram index where there is one.
    pub open spec fn follows(self, before: Index, changes: Seq<Change>, id: u64, usn: i64) -> bool {
        let slots = slots_after(before.slots, changes);
        &&& self.drive == before.drive
        &&& self.entries == entries_after(before.entries, changes)
        &&& self.journal_id == id
        &&& self.next_usn == usn
        &&& self.indexed_at_epoch_secs == before.indexed_at_epoch_secs
        &&& if slots.should_compact() {
            arena_of(self.slots, self.entries)
        } else {
            self.slots == slots
        }
        &&& (self.lists is Some) == (before.lists is Some)
        &&& (changes.len() == 0 ==> self.lists == before.lists)
        &&& (changes.len() > 0 && self.lists is Some ==> trigram::indexes(
            self.lists->0,
            self.entries.values(),
        ))
    }

    /// Everything but the arena is the same.
    pub open spec fn same_but_arena(self, before: Index) -> bool {
        self == Index { slots: self.slots, ..before }
    }

    /// Everything but the trigram index is the same.
    pub open spec fn same_but_lists(self, before: Index) -> bool {
        self == Index { lists: self.lists, ..before }
    }
}

impl FileIndex {
    /// The arena and the trigram index are well-formed.
    pub open spec fn wf(&self) -> bool {
        &&& self.search_arena.wf()
        &&& self.trigram_index matches Some(t) ==> t.wf()
    }

    /// Builds the arena from the entries.
    pub fn rebuild_search_arena(&mut self)
        requires
            old(self).trigram_index matches Some(t) ==> t.wf(),
        ensures
            final(self).wf(),
            final(self)@.same_but_arena(old(self)@),
            arena_of(final(self)@.slots, final(self)@.entries),
    {
        let list = entry::walk_entries(&self.entries);
        self.search_arena = SearchArena::from_entries(&list);
    }

    /// Builds the trigram index from the entries.
    pub fn rebuild_trigram_index(&mut self)
        requires
            old(self).search_arena.wf(),
        ensures
            final(self).wf(),
            final(self)@.same_but_lists(old(self)@),
            final(self)@.lists matches Some(l) && trigram::indexes(l, final(self)@.entries.values()),
    {
        let list = entry::walk_entries(&self.entries);
        proof {
            let m = entry::entry_map(self.entries@);
            let keys = choose|keys: Seq<u64>| #[trigger]
                entry::lists_keys(keys, m) && entry::entry_seq(list@) == entry::entries_at(keys, m);
            lemma_listed_values(keys, m);
        }
        self.trigram_index = Some(TrigramIndex::from_entries(&list));
    }

    /// Switches the trigram index on, built from the entries, or off.
    pub fn set_trigram_enabled(&mut self, enabled: bool)
        requires
            old(self).search_arena.wf(),
        ensures
            final(self).wf(),
            final(self)@.same_but_lists(old(self)@),
            final(self)@.lists is Some == enabled,
            final(self)@.lists matches Some(l) ==> trigram::indexes(
                l,
                final(self)@.entries.values(),
            ),
    {
        if enabled {
            self.rebuild_trigram_index();
        } else {
            self.trigram_index = None;
        }
    }

    /// Whether there is a trigram index.
    pub fn trigram_enabled(&self) -> (r: bool)
        ensures
            r == self@.lists is Some,
    {
        self.trigram_index.is_some()
    }

    /// The index of a drive, from what a scan of its volume gave.
    pub fn build(
        drive: &str,
        snapshot: Result<MftSnapshot, VolumeError>,
        now_epoch_secs: u64,
    ) -> (r: Result<FileIndex, VolumeError>)
        ensures
            match ntfs::drive_of(drive@) {
                None => r matches Err(VolumeError::InvalidDrive(raw)) && raw@ == drive@,
                Some(name) => match snapshot {
                    Err(e) => r == Err::<FileIndex, VolumeError>(e),
                    Ok(s) => r matches Ok(index) && index.wf() && index@.drive == name
                        && index@.entries == entry::entry_map(s.entries@) && index@.journal_id
                        == s.journal_id && index@.next_usn == s.next_usn
                        && index@.indexed_at_epoch_secs == now_epoch_secs && arena_of(
                        index@.slots,
                        index@.entries,
                    ) && index@.lists is None,
                },
            },
    {
        FileIndex::build_with_progress(drive, snapshot, now_epoch_secs, None)
    }

    /// As [`FileIndex::build`]; where a counter is given, it is set to the
    /// number of entries that the scan found.
    pub fn build_with_progress(
        drive: &str,
        snapshot: Result<MftSnapshot, VolumeError>,
        now_epoch_secs: u64,
        progress_counter: Option<&mut usize>,
    ) -> (r: Result<FileIndex, VolumeError>)
        ensures
            match ntfs::drive_of(drive@) {
                None => r matches Err(VolumeError::InvalidDrive(raw)) && raw@ == drive@,
                Some(name) => match snapshot {
                    Err(e) => r == Err::<FileIndex, VolumeError>(e),
                    Ok(s) => r matches Ok(index) && index.wf() && index@.drive == name
                        && index@.entries == entry::entry_map(s.entries@) && index@.journal_id
                        == s.journal_id && index@.next_usn == s.next_usn
                        && index@.indexed_at_epoch_secs == now_epoch_secs && arena_of(
                        index@.slots,
                        index@.entries,
                    ) && index@.lists is None,
                },
            },
            progress_counter matches Some(p) ==> *final(p) == match (
                ntfs::drive_of(drive@),
                snapshot,
            ) {
                (Some(_), Ok(s)) => s.entries@.len() as int,
                _ => *p as int,
            },
    {
        let drive = match ntfs::normalize_drive(drive) {
            Ok(drive) => drive,
            Err(e) => {
                return Err(e);
            },
        };
        let snapshot = match snapshot {
            Ok(snapshot) => snapshot,
            Err(e) => {
                return Err(e);
            },
        };
        if let Some(counter) = progress_counter {
            *counter = snapshot.entries.len();
        }
        let mut index = FileIndex {
            drive,
            entries: snapshot.entries,
            journal_id: snapshot.journal_id,
            next_usn: snapshot.next_usn,
            indexed_at_epoch_secs: now_epoch_secs,
            search_arena: SearchArena::default(),
            trigram_index: None,
        };
        index.rebuild_search_arena();
        Ok(index)
    }

    /// Applies what was read from the journal and gives the number of changes;
    /// where it could not be read, the index stays as it is.
    pub fn apply_journal_changes(&mut self, batch: Result<JournalBatch, VolumeError>) -> (r: Result<
        usize,
        VolumeError,
    >)
        requires
            old(self).wf(),
        ensures
            final(self).wf(),
            match batch {
                Err(e) => r == Err::<usize, VolumeError>(e) && *final(self) == *old(self),
                Ok(b) => r == Ok::<usize, VolumeError>(b.events@.len() as usize)
                    && final(self)@.follows(
                    old(self)@,
                    entry::change_seq(b.events@),
                    b.journal_id,
                    b.next_usn,
                ),
            },
    {
        let batch = match batch {
            Ok(batch) => batch,
            Err(e) => {
                return Err(e);
            },
        };
        let ghost before = *self;
        let ghost all = entry::change_seq(batch.events@);
        let count = batch.events.len();
        let mut i: usize = 0;
        assert(all.take(0) =~= seq![]);
        while i < batch.events.len()
            invariant
                i <= batch.events@.len() == all.len(),
                all == entry::change_seq(batch.events@),
                self.wf(),
                self.drive == before.drive,
                self.journal_id == before.journal_id,
                self.next_usn == before.next_usn,
                self.indexed_at_epoch_secs == before.indexed_at_epoch_secs,
                self.trigram_index == before.trigram_index,
                self@.entries == entries_after(before@.entries, all.take(i as int)),
                self@.slots == slots_after(before@.slots, all.take(i as int)),
            decreases batch.events@.len() - i,
        {
            let ghost had = self@.entries;
            match &batch.events[i] {
                JournalChange::Upsert(e) => {
                    self.entries.insert(e.frn, e.copy());
                    self.search_arena.upsert_entry(e);
                    assert(self@.entries =~= had.insert(e@.frn, e@));
                },
                JournalChange::Delete(frn) => {
                    self.entries.remove(frn);
                    self.search_arena.delete_frn(*frn);
                    assert(self@.entries =~= had.remove(*frn));
                },
            }
            i += 1;
            assert(all.take(i as int).drop_last() =~= all.take(i - 1));
            assert(all.take(i as int).last() == all[i - 1]);
        }
        assert(all.take(i as int) =~= all);
        self.next_usn = batch.next_usn;
        self.journal_id = batch.journal_id;
        if self.search_arena.should_compact() {
            self.rebuild_search_arena();
        }
        if count != 0 && self.trigram_index.is_some() {
            self.rebuild_trigram_index();
        }
        Ok(count)
    }

    /// The path of an entry, through the names of its parents.
    pub fn resolve_path(&self, frn: u64) -> (r: Option<String>)
        ensures
            text::text_of(r) == if self@.entries.contains_key(frn) {
                Some(path_of(self@.drive, self@.entries, frn))
            } else {
                None
            },
    {
        if !self.entries.contains_key(&frn) {
            return None;
        }
        let mut current = frn;
        let mut segments: Vec<String> = Vec::new();
        let mut seen: HashSet<u64> = HashSet::new();
        let ghost all = self@.entries;
        let ghost whole = chain(all, frn, Set::empty());
        let mut done = false;
        assert(all.dom() =~= self.entries@.dom());
        assert(text::texts(segments@) + whole =~= whole);
        assert(seen@ =~= Set::<u64>::empty());
        while !done && !is_ntfs_root_reference(current)
            invariant
                all == self@.entries,
                all.dom() == self.entries@.dom(),
                all.dom().finite(),
                !done ==> whole == text::texts(segments@) + chain(all, current, seen@),
                done ==> whole == text::texts(segments@),
            ensures
                whole == text::texts(segments@),
            decreases
                all.dom().difference(seen@).len(),
                if done {
                    0int
                } else {
                    1int
                },
        {
            match self.entries.get(&current) {
                None => {
                    assert(chain(all, current, seen@) =~= seq![]);
                    assert(text::texts(segments@) + chain(all, current, seen@) =~= text::texts(
                        segments@,
                    ));
                    done = true;
                },
                Some(e) => {
                    let ghost had = text::texts(segments@);
                    let ghost been = seen@;
                    segments.push(text::copy_text(e.name.as_str()));
                    assert(text::texts(segments@) =~= had.push(e.name@));
                    assert(all[current] == e@);
                    let stop = e.parent_frn == 0 || e.parent_frn == current;
                    if stop || !seen.insert(current) {
                        assert(chain(all, current, been) == seq![e.name@]);
                        assert(had + seq![e.name@] =~= had.push(e.name@));
                        done = true;
                        assert(all.dom().difference(seen@) =~= all.dom().difference(been));
                    } else {
                        proof {
                            let left = all.dom().difference(been);
                            assert(left.contains(current));
                            assert(all.dom().difference(seen@) =~= left.remove(current));
                            assert(seen@ =~= been.insert(current));
                            let rest = chain(all, e.parent_frn, seen@);
                            assert(had + (seq![e.name@] + rest) =~= had.push(e.name@) + rest);
                        }
                        current = e.parent_frn;
                    }
                },
            }
            proof {
                if !done && root_reference(current) {
                    assert(chain(all, current, seen@) =~= seq![]);
                    assert(text::texts(segments@) + chain(all, current, seen@) =~= text::texts(
                        segments@,
                    ));
                }
            }
        }
        Some(path_from(self.drive.as_str(), &segments))
    }
}

// ---------------------------------------------------------------------------
// Laws: the arena follows the entries
// ---------------------------------------------------------------------------

/// Every entry stands under its own reference number.
pub open spec fn keyed(entries: Map<u64, Entry>) -> bool {
    forall|k: u64| #[trigger] entries.contains_key(k) ==> entries[k].frn == k
}

/// The live places of the arena are those of the entries, one for each. Only
/// an arena whose buffer is full may lack one.
pub open spec fn synced(slots: Slots, entries: Map<u64, Entry>) -> bool {
    &&& slots.wf()
    &&& keyed(entries)
    &&& forall|i: int|
        0 <= i < slots.slots.len() && (#[trigger] slots.slots[i]).live ==> {
            let frn = slots.slots[i].frn;
            &&& entries.contains_key(frn)
            &&& slots.slots[i] == arena::slot_for(entries[frn])
            &&& slots.slot_of.contains_key(frn)
            &&& slots.slot_of[frn] == i
        }
    &&& forall|k: u64| #[trigger]
        entries.contains_key(k) ==> slots.slot_of.contains_key(k) || arena::text_len(slots.slots)
            > u32::MAX
}

/// Deleting an entry keeps the arena in step.
proof fn lemma_delete_synced(slots: Slots, entries: Map<u64, Entry>, frn: u64)
    requires
        synced(slots, entries),
    ensures
        synced(slots.delete(frn), entries.remove(frn)),
{
    let after = slots.delete(frn);
    let left = entries.remove(frn);
    if slots.slot_of.contains_key(frn) {
        let at = slots.slot_of[frn];
        arena::text_len_ignores_life(slots.slots, at);
        assert forall|i: int| 0 <= i < after.slots.len() && (#[trigger] after.slots[i]).live implies {
            let f = after.slots[i].frn;
            &&& left.contains_key(f)
            &&& after.slots[i] == arena::slot_for(left[f])
            &&& after.slot_of.contains_key(f)
            &&& after.slot_of[f] == i
        } by {
            assert(i != at);
            assert(slots.slots[i] == after.slots[i]);
        }
        assert forall|f: u64| #[trigger] after.slot_of.contains_key(f) implies 0
            <= after.slot_of[f] < after.slots.len() && after.slots[after.slot_of[f]].frn == f
            && after.slots[after.slot_of[f]].live by {
            assert(slots.slot_of.contains_key(f));
        }
        assert forall|k: u64| #[trigger] left.contains_key(k) implies after.slot_of.contains_key(k)
            || arena::text_len(after.slots) > u32::MAX by {
            assert(entries.contains_key(k));
        }
    } else {
        assert forall|i: int| 0 <= i < after.slots.len() && (#[trigger] after.slots[i]).live implies {
            let f = after.slots[i].frn;
            &&& left.contains_key(f)
            &&& after.slots[i] == arena::slot_for(left[f])
            &&& after.slot_of.contains_key(f)
            &&& after.slot_of[f] == i
        } by {
            assert(slots.slots[i].live);
        }
        assert forall|k: u64| #[trigger] left.contains_key(k) implies after.slot_of.contains_key(k)
            || arena::text_len(after.slots) > u32::MAX by {
            assert(entries.contains_key(k));
        }
    }
    assert forall|k: u64| #[trigger] left.contains_key(k) implies left[k].frn == k by {
        assert(entries.contains_key(k));
    }
}

/// Appending an entry that is not yet there keeps the arena in step.
proof fn lemma_append_synced(slots: Slots, entries: Map<u64, Entry>, e: Entry)
    requires
        synced(slots, entries),
        !entries.contains_key(e.frn),
    ensures
        synced(slots.append(e), entries.insert(e.frn, e)),
{
    let after = slots.append(e);
    let more = entries.insert(e.frn, e);
    assert forall|k: u64| #[trigger] more.contains_key(k) implies more[k].frn == k by {
        if k != e.frn {
            assert(entries.contains_key(k));
        }
    }
    if arena::text_len(slots.slots) <= u32::MAX {
        assert(after.slots.drop_last() =~= slots.slots);
    }
    assert forall|i: int| 0 <= i < after.slots.len() && (#[trigger] after.slots[i]).live implies {
        let f = after.slots[i].frn;
        &&& more.contains_key(f)
        &&& after.slots[i] == arena::slot_for(more[f])
        &&& after.slot_of.contains_key(f)
        &&& after.slot_of[f] == i
    } by {
        if i < slots.slots.len() {
            assert(slots.slots[i] == after.slots[i]);
            assert(slots.slots[i].live);
        }
    }
    assert forall|f: u64| #[trigger] after.slot_of.contains_key(f) implies 0 <= after.slot_of[f]
        < after.slots.len() && after.slots[after.slot_of[f]].frn == f
        && after.slots[after.slot_of[f]].live by {
        if f != e.frn {
            assert(slots.slot_of.contains_key(f));
        } else if arena::text_len(slots.slots) > u32::MAX {
            assert(slots.slot_of.contains_key(f));
        }
    }
    assert forall|k: u64| #[trigger] more.contains_key(k) implies after.slot_of.contains_key(k)
        || arena::text_len(after.slots) > u32::MAX by {
        if k != e.frn {
            assert(entries.contains_key(k));
        }
    }
}

/// A change keeps the arena in step with the entries.
pub proof fn change_keeps_sync(slots: Slots, entries: Map<u64, Entry>, change: Change)
    requires
        synced(slots, entries),
    ensures
        synced(changed_slots(slots, change), changed_entries(entries, change)),
{
    match change {
        Change::Upsert(e) => {
            lemma_delete_synced(slots, entries, e.frn);
            lemma_append_synced(slots.delete(e.frn), entries.remove(e.frn), e);
            assert(entries.remove(e.frn).insert(e.frn, e) =~= entries.insert(e.frn, e));
        },
        Change::Delete(frn) => {
            lemma_delete_synced(slots, entries, frn);
        },
    }
}

proof fn lemma_changes_keep_sync(slots: Slots, entries: Map<u64, Entry>, changes: Seq<Change>)
    requires
        synced(slots, entries),
    ensures
        synced(slots_after(slots, changes), entries_after(entries, changes)),
    decreases changes.len(),
{
    if changes.len() > 0 {
        lemma_changes_keep_sync(slots, entries, changes.drop_last());
        change_keeps_sync(
            slots_after(slots, changes.drop_last()),
            entries_after(entries, changes.drop_last()),
            changes.last(),
        );
    }
}

/// The entries under the first `n` keys.
spec fn under_keys(keys: Seq<u64>, m: Map<u64, Entry>, n: int) -> Map<u64, Entry> {
    m.restrict(keys.take(n).to_set())
}

proof fn lemma_built_synced(keys: Seq<u64>, m: Map<u64, Entry>, n: int)
    requires
        entry::lists_keys(keys, m),
        keyed(m),
        0 <= n <= keys.len(),
    ensures
        synced(Slots::of(entry::entries_at(keys, m).take(n)), under_keys(keys, m, n)),
    decreases n,
{
    let all = entry::entries_at(keys, m);
    if n == 0 {
        assert(all.take(0) =~= seq![]);
        assert(under_keys(keys, m, 0) =~= Map::<u64, Entry>::empty());
    } else {
        lemma_built_synced(keys, m, n - 1);
        let k = keys[n - 1];
        let e = m[k];
        let had = under_keys(keys, m, n - 1);
        let has = under_keys(keys, m, n);
        assert(keys.contains(k));
        assert(all.take(n).drop_last() =~= all.take(n - 1));
        assert(all.take(n).last() == e);
        assert(!had.contains_key(k)) by {
            if keys.take(n - 1).contains(k) {
                let a = keys.take(n - 1);
                let i = choose|i: int| 0 <= i < a.len() && a[i] == k;
                assert(keys[i] == keys[n - 1]);
            }
        }
        assert(keys.take(n) =~= keys.take(n - 1).push(k));
        assert(has =~= had.insert(k, e)) by {
            assert forall|x: u64| has.contains_key(x) <==> had.insert(k, e).contains_key(x) by {
                let a = keys.take(n - 1);
                let b = keys.take(n);
                assert(b.contains(x) <==> a.contains(x) || x == k) by {
                    assert(b[n - 1] == k);
                    if a.contains(x) {
                        let i = choose|i: int| 0 <= i < a.len() && a[i] == x;
                        assert(b[i] == x);
                    }
                    if b.contains(x) && x != k {
                        let i = choose|i: int| 0 <= i < b.len() && b[i] == x;
                        assert(a[i] == x);
                    }
                }
            }
        }
        lemma_append_synced(Slots::of(all.take(n - 1)), had, e);
    }
}

/// An arena that was built from the entries is in step with them.
pub proof fn built_arena_is_synced(slots: Slots, entries: Map<u64, Entry>)
    requires
        keyed(entries),
        arena_of(slots, entries),
    ensures
        synced(slots, entries),
{
    let keys = choose|keys: Seq<u64>| #[trigger]
        entry::lists_keys(keys, entries) && slots == Slots::of(entry::entries_at(keys, entries));
    let n = keys.len() as int;
    lemma_built_synced(keys, entries, n);
    let all = entry::entries_at(keys, entries);
    assert(all.take(n) =~= all);
    assert(keys.take(n) =~= keys);
    assert(under_keys(keys, entries, n) =~= entries) by {
        assert forall|x: u64| entries.contains_key(x) implies #[trigger] under_keys(
            keys,
            entries,
            n,
        ).contains_key(x) by {
            assert(keys.contains(x));
        }
    }
}

/// An index whose arena is in step with its entries stays so whatever the
/// journal reports.
pub proof fn journal_keeps_sync(
    before: Index,
    after: Index,
    changes: Seq<Change>,
    id: u64,
    usn: i64,
)
    requires
        synced(before.slots, before.entries),
        after.follows(before, changes, id, usn),
    ensures
        synced(after.slots, after.entries),
{
    lemma_changes_keep_sync(before.slots, before.entries, changes);
    if slots_after(before.slots, changes).should_compact() {
        built_arena_is_synced(after.slots, after.entries);
    }
}

/// What the search of an arena that is in step gives are reference numbers of
/// entries whose name holds the query.
pub proof fn synced_hits_are_matches(
    slots: Slots,
    entries: Map<u64, Entry>,
    query: Seq<u8>,
    frn: u64,
)
    requires
        synced(slots, entries),
        arena::hits(slots.slots, query).contains(frn),
    ensures
        entries.contains_key(frn),
        bytes::contains(trigram::indexed_name(entries[frn]), query),
{
    arena::hits_are_live_matches(slots.slots, query, frn);
    let i = choose|i: int|
        0 <= i < slots.slots.len() && (#[trigger] slots.slots[i]).live && slots.slots[i].frn == frn
            && bytes::contains(slots.slots[i].name, query);
    assert(slots.slots[i] == arena::slot_for(entries[frn]));
}

/// The search of an arena that is in step, and whose buffer is not full,
/// finds every entry whose name holds the query.
pub proof fn synced_matches_are_hits(
    slots: Slots,
    entries: Map<u64, Entry>,
    query: Seq<u8>,
    frn: u64,
)
    requires
        synced(slots, entries),
        arena::text_len(slots.slots) <= u32::MAX,
        entries.contains_key(frn),
        bytes::contains(trigram::indexed_name(entries[frn]), query),
    ensures
        arena::hits(slots.slots, query).contains(frn),
{
    assert(slots.slot_of.contains_key(frn));
    let i = slots.slot_of[frn];
    assert(slots.slots[i].live && slots.slots[i].frn == frn);
    assert(slots.slots[i] == arena::slot_for(entries[frn]));
    arena::hits_are_live_matches(slots.slots, query, frn);
}

/// The search of an arena that is in step gives no reference number twice.
pub proof fn synced_hits_are_distinct(slots: Slots, entries: Map<u64, Entry>, query: Seq<u8>)
    requires
        synced(slots, entries),
    ensures
        arena::hits(slots.slots, query).no_duplicates(),
{
    assert forall|i: int, j: int|
        0 <= i < j < slots.slots.len() && (#[trigger] slots.slots[i]).live && (
        #[trigger] slots.slots[j]).live implies slots.slots[i].frn != slots.slots[j].frn by {
        assert(slots.slot_of[slots.slots[i].frn] == i);
        assert(slots.slot_of[slots.slots[j].frn] == j);
    }
    arena::hits_are_distinct(slots.slots, query);
}

/// The entries of a list but those under a reference number.
pub open spec fn without(list: Seq<Entry>, frn: u64) -> Seq<Entry>
    decreases list.len(),
{
    if list.len() == 0 {
        seq![]
    } else if list.last().frn == frn {
        without(list.drop_last(), frn)
    } else {
        without(list.drop_last(), frn).push(list.last())
    }
}

/// The entries that changes create and leave, in the order in which each was
/// last created or renamed.
pub open spec fn latest(changes: Seq<Change>) -> Seq<Entry>
    decreases changes.len(),
{
    if changes.len() == 0 {
        seq![]
    } else {
        let before = latest(changes.drop_last());
        match changes.last() {
            Change::Upsert(e) => without(before, e.frn).push(e),
            Change::Delete(frn) => without(before, frn),
        }
    }
}

/// The reference numbers of the entries whose name holds the query.
pub open spec fn named_with(list: Seq<Entry>, query: Seq<u8>) -> Seq<u64>
    decreases list.len(),
{
    if list.len() == 0 {
        seq![]
    } else if bytes::contains(trigram::indexed_name(list.last()), query) {
        named_with(list.drop_last(), query).push(list.last().frn)
    } else {
        named_with(list.drop_last(), query)
    }
}

/// The places of entries.
spec fn slots_for(list: Seq<Entry>) -> Seq<Slot> {
    Seq::new(list.len(), |i: int| arena::slot_for(list[i]))
}

proof fn lemma_live_without(slots: Seq<Slot>, after: Seq<Slot>, list: Seq<Entry>, frn: u64)
    requires
        arena::live_slots_of(slots) == slots_for(list),
        after.len() == slots.len(),
        forall|i: int|
            0 <= i < slots.len() ==> #[trigger] after[i] == if slots[i].live && slots[i].frn
                == frn {
                Slot { live: false, ..slots[i] }
            } else {
                slots[i]
            },
    ensures
        arena::live_slots_of(after) == slots_for(without(list, frn)),
    decreases slots.len(),
{
    if slots.len() == 0 {
        assert(slots_for(list).len() == 0);
        assert(slots_for(without(list, frn)) =~= seq![]);
    } else {
        let rest = slots.drop_last();
        let gone = after.drop_last();
        assert(after[slots.len() - 1] == after.last());
        assert forall|i: int| 0 <= i < rest.len() implies #[trigger] gone[i] == if rest[i].live
            && rest[i].frn == frn {
            Slot { live: false, ..rest[i] }
        } else {
            rest[i]
        } by {
            assert(after[i] == gone[i]);
        }
        if slots.last().live {
            let live = arena::live_slots_of(rest);
            let all = slots_for(list);
            assert(all.len() == live.len() + 1);
            assert(slots_for(list.drop_last()) =~= all.drop_last());
            assert(all.drop_last() =~= live);
            assert(all.last() == slots.last());
            lemma_live_without(rest, gone, list.drop_last(), frn);
            let left = without(list.drop_last(), frn);
            assert(slots_for(left.push(list.last())) =~= slots_for(left).push(slots.last()));
        } else {
            lemma_live_without(rest, gone, list, frn);
        }
    }
}

proof fn lemma_latest_live(changes: Seq<Change>)
    requires
        arena::text_len(slots_after(Slots::empty(), changes).slots) <= u32::MAX,
    ensures
        arena::live_slots_of(slots_after(Slots::empty(), changes).slots) == slots_for(
            latest(changes),
        ),
    decreases changes.len(),
{
    if changes.len() == 0 {
        assert(slots_for(latest(changes)) =~= seq![]);
    } else {
        let none = Map::<u64, Entry>::empty();
        let before = slots_after(Slots::empty(), changes.drop_last());
        lemma_changes_keep_sync(Slots::empty(), none, changes.drop_last());
        let frn = match changes.last() {
            Change::Upsert(e) => e.frn,
            Change::Delete(frn) => frn,
        };
        let cut = before.delete(frn);
        let list = latest(changes.drop_last());
        if before.slot_of.contains_key(frn) {
            arena::text_len_ignores_life(before.slots, before.slot_of[frn]);
        }
        if let Change::Upsert(e) = changes.last() {
            if arena::text_len(cut.slots) <= u32::MAX {
                assert(cut.slots.push(arena::slot_for(e)).drop_last() =~= cut.slots);
            }
        }
        lemma_latest_live(changes.drop_last());
        assert forall|i: int| 0 <= i < before.slots.len() implies #[trigger] cut.slots[i]
            == if before.slots[i].live && before.slots[i].frn == frn {
            Slot { live: false, ..before.slots[i] }
        } else {
            before.slots[i]
        } by {
            if before.slots[i].live {
                assert(before.slot_of.contains_key(before.slots[i].frn));
            }
        }
        lemma_live_without(before.slots, cut.slots, list, frn);
        if let Change::Upsert(e) = changes.last() {
            let left = without(list, frn);
            assert(slots_for(left.push(e)) =~= slots_for(left).push(arena::slot_for(e)));
        }
    }
}

proof fn lemma_hits_of_entries(list: Seq<Entry>, query: Seq<u8>)
    ensures
        arena::hits(slots_for(list), query) == named_with(list, query),
    decreases list.len(),
{
    if list.len() > 0 {
        lemma_hits_of_entries(list.drop_last(), query);
        assert(slots_for(list).drop_last() =~= slots_for(list.drop_last()));
        assert(slots_for(list).last() == arena::slot_for(list.last()));
    }
}

/// An arena that started empty finds, after any creations and deletions, the
/// first of the entries that are left whose latest name holds the query, in the
/// order in which each was last created or renamed; none of them twice. It does
/// so as long as the names fit into its buffer and the query holds no
/// terminator.
pub proof fn arena_finds_the_latest(changes: Seq<Change>, query: Seq<u8>, max: nat)
    requires
        arena::text_len(slots_after(Slots::empty(), changes).slots) <= u32::MAX,
        !query.contains(0u8),
    ensures
        slots_after(Slots::empty(), changes).candidates(query, max) == arena::first_n(
            named_with(latest(changes), query),
            max,
        ),
        slots_after(Slots::empty(), changes).candidates(query, max).no_duplicates(),
        slots_after(Slots::empty(), changes).candidates(query, max).len() < max ==> slots_after(
            Slots::empty(),
            changes,
        ).candidates(query, max) == named_with(latest(changes), query),
{
    let slots = slots_after(Slots::empty(), changes);
    lemma_latest_live(changes);
    arena::hits_are_in_live_places(slots.slots, query);
    lemma_hits_of_entries(latest(changes), query);
    lemma_changes_keep_sync(Slots::empty(), Map::empty(), changes);
    synced_hits_are_distinct(
        slots,
        entries_after(Map::empty(), changes),
        query,
    );
}

/// Bytes that the names of entries take, each with its terminator.
spec fn names_len(list: Seq<Entry>) -> nat
    decreases list.len(),
{
    if list.len() == 0 {
        0
    } else {
        names_len(list.drop_last()) + trigram::indexed_name(list.last()).len() + 1
    }
}

/// No two entries of the list have the same reference number.
spec fn own_numbers(list: Seq<Entry>) -> bool {
    forall|i: int, j: int|
        0 <= i < j < list.len() ==> (#[trigger] list[i]).frn != (#[trigger] list[j]).frn
}

proof fn lemma_built_len(list: Seq<Entry>)
    ensures
        arena::text_len(Slots::of(list).slots) <= names_len(list),
    decreases list.len(),
{
    if list.len() > 0 {
        let before = Slots::of(list.drop_last());
        lemma_built_len(list.drop_last());
        assert(before.slots.push(arena::slot_for(list.last())).drop_last() =~= before.slots);
    }
}

proof fn lemma_without(list: Seq<Entry>, frn: u64)
    requires
        own_numbers(list),
    ensures
        own_numbers(without(list, frn)),
        forall|e: Entry| #[trigger]
            without(list, frn).contains(e) <==> list.contains(e) && e.frn != frn,
        forall|e: Entry| #[trigger]
            list.contains(e) && e.frn == frn ==> names_len(list) == names_len(without(list, frn))
                + trigram::indexed_name(e).len() + 1,
        !(exists|e: Entry| #[trigger] list.contains(e) && e.frn == frn) ==> without(list, frn)
            == list,
    decreases list.len(),
{
    if list.len() > 0 {
        let rest = list.drop_last();
        let last = list.last();
        assert forall|i: int, j: int| 0 <= i < j < rest.len() implies (#[trigger] rest[i]).frn != (
        #[trigger] rest[j]).frn by {
            assert(list[i].frn != list[j].frn);
        }
        lemma_without(rest, frn);
        let left = without(rest, frn);
        let now = without(list, frn);
        assert forall|e: Entry| #[trigger] list.contains(e) <==> rest.contains(e) || e == last by {
            if rest.contains(e) {
                let k = choose|k: int| 0 <= k < rest.len() && rest[k] == e;
                assert(list[k] == e);
            }
            if list.contains(e) {
                let k = choose|k: int| 0 <= k < list.len() && list[k] == e;
                if k < rest.len() {
                    assert(rest[k] == e);
                }
            }
            assert(list[list.len() - 1] == last);
        }
        assert forall|e: Entry| #[trigger] rest.contains(e) implies e.frn != last.frn by {
            let k = choose|k: int| 0 <= k < rest.len() && rest[k] == e;
            assert(list[k].frn != list[list.len() - 1].frn);
        }
        if last.frn == frn {
            assert(list.contains(last));
            assert(left == rest) by {
                if exists|e: Entry| #[trigger] rest.contains(e) && e.frn == frn {
                    let e = choose|e: Entry| #[trigger] rest.contains(e) && e.frn == frn;
                    assert(e.frn != last.frn);
                }
            }
        } else {
            assert(now.drop_last() =~= left);
            assert forall|e: Entry| #[trigger] now.contains(e) <==> left.contains(e) || e
                == last by {
                if left.contains(e) {
                    let k = choose|k: int| 0 <= k < left.len() && left[k] == e;
                    assert(now[k] == e);
                }
                if now.contains(e) {
                    let k = choose|k: int| 0 <= k < now.len() && now[k] == e;
                    if k < left.len() {
                        assert(left[k] == e);
                    }
                }
                assert(now[left.len() as int] == last);
            }
            assert forall|i: int, j: int| 0 <= i < j < now.len() implies (
            #[trigger] now[i]).frn != (#[trigger] now[j]).frn by {
                assert(left.contains(left[i]));
                if j == left.len() {
                    assert(rest.contains(left[i]));
                }
            }
            assert(list =~= rest.push(last));
            if !(exists|e: Entry| #[trigger] list.contains(e) && e.frn == frn) {
                if exists|e: Entry| #[trigger] rest.contains(e) && e.frn == frn {
                    let e = choose|e: Entry| #[trigger] rest.contains(e) && e.frn == frn;
                    assert(list.contains(e));
                }
                assert(now =~= list);
            }
        }
    } else {
        assert(without(list, frn) =~= list);
    }
}

/// Entries that each have a place of their own take no more room than the
/// places.
proof fn lemma_fits(slots: Seq<Slot>, list: Seq<Entry>)
    requires
        own_numbers(list),
        forall|e: Entry| #[trigger]
            list.contains(e) ==> exists|i: int|
                0 <= i < slots.len() && #[trigger] slots[i] == arena::slot_for(e),
    ensures
        names_len(list) <= arena::text_len(slots),
    decreases slots.len(),
{
    if slots.len() == 0 {
        if list.len() > 0 {
            assert(list.contains(list[0]));
        }
    } else {
        let rest = slots.drop_last();
        let frn = slots.last().frn;
        let left = if exists|e: Entry| #[trigger] list.contains(e) && arena::slot_for(e)
            == slots.last() {
            without(list, frn)
        } else {
            list
        };
        lemma_without(list, frn);
        assert forall|e: Entry| #[trigger] left.contains(e) implies exists|i: int|
            0 <= i < rest.len() && #[trigger] rest[i] == arena::slot_for(e) by {
            assert(list.contains(e));
            let i = choose|i: int|
                0 <= i < slots.len() && #[trigger] slots[i] == arena::slot_for(e);
            if i == slots.len() - 1 {
                assert(arena::slot_for(e) == slots.last());
                assert(e.frn == frn);
            }
            assert(rest[i] == arena::slot_for(e));
        }
        lemma_fits(rest, left);
        if exists|e: Entry| #[trigger] list.contains(e) && arena::slot_for(e) == slots.last() {
            let e = choose|e: Entry| #[trigger]
                list.contains(e) && arena::slot_for(e) == slots.last();
            assert(e.frn == frn);
        }
    }
}

/// An arena that is built anew takes no more room than one that is in step with
/// the same entries.
pub proof fn rebuilding_takes_no_more_room(
    slots: Slots,
    rebuilt: Slots,
    entries: Map<u64, Entry>,
)
    requires
        synced(slots, entries),
        arena::text_len(slots.slots) <= u32::MAX,
        arena_of(rebuilt, entries),
    ensures
        arena::text_len(rebuilt.slots) <= arena::text_len(slots.slots),
{
    let keys = choose|keys: Seq<u64>| #[trigger]
        entry::lists_keys(keys, entries) && rebuilt == Slots::of(entry::entries_at(keys, entries));
    let list = entry::entries_at(keys, entries);
    lemma_built_len(list);
    assert forall|i: int| 0 <= i < keys.len() implies entries.contains_key(#[trigger] keys[i])
        && list[i] == entries[keys[i]] && list[i].frn == keys[i] by {
        assert(keys.contains(keys[i]));
    }
    assert forall|i: int, j: int| 0 <= i < j < list.len() implies (#[trigger] list[i]).frn != (
    #[trigger] list[j]).frn by {
        assert(list[i].frn == keys[i] && list[j].frn == keys[j]);
    }
    assert forall|e: Entry| #[trigger] list.contains(e) implies exists|i: int|
        0 <= i < slots.slots.len() && #[trigger] slots.slots[i] == arena::slot_for(e) by {
        let k = choose|k: int| 0 <= k < list.len() && list[k] == e;
        let frn = keys[k];
        assert(entries.contains_key(frn) && slots.slot_of.contains_key(frn));
        let i = slots.slot_of[frn];
        assert(slots.slots[i].live && slots.slots[i].frn == frn);
        assert(slots.slots[i] == arena::slot_for(entries[frn]));
    }
    lemma_fits(slots.slots, list);
}

/// An entry that was deleted last is no longer there; one that was created or
/// renamed last is there as it is now.
pub proof fn last_change_decides(entries: Map<u64, Entry>, changes: Seq<Change>)
    requires
        changes.len() > 0,
    ensures
        changes.last() matches Change::Delete(frn) ==> !entries_after(
            entries,
            changes,
        ).contains_key(frn),
        changes.last() matches Change::Upsert(e) ==> entries_after(entries, changes).contains_key(
            e.frn,
        ) && entries_after(entries, changes)[e.frn] == e,
{
}

// ---------------------------------------------------------------------------
// Laws: paths
// ---------------------------------------------------------------------------

/// From `current`, `n` steps lead to where the names end: the root directory,
/// a missing record, or an entry without a parent.
pub open spec fn ends_after(entries: Map<u64, Entry>, current: u64, n: nat) -> bool
    decreases n,
{
    if root_reference(current) || !entries.contains_key(current) {
        n == 0
    } else {
        let up = entries[current].parent_frn;
        if up == 0 || up == current {
            n == 0
        } else {
            n > 0 && ends_after(entries, up, (n - 1) as nat)
        }
    }
}

proof fn lemma_one_height(entries: Map<u64, Entry>, current: u64, n: nat, m: nat)
    requires
        ends_after(entries, current, n),
        ends_after(entries, current, m),
    ensures
        n == m,
    decreases n,
{
    if n > 0 && m > 0 {
        lemma_one_height(entries, entries[current].parent_frn, (n - 1) as nat, (m - 1) as nat);
    }
}

/// Entries that lie no higher than `n` do not change the names from there.
proof fn lemma_chain_unseen(
    entries: Map<u64, Entry>,
    current: u64,
    n: nat,
    seen: Set<u64>,
    other: Set<u64>,
)
    requires
        entries.dom().finite(),
        ends_after(entries, current, n),
        forall|f: u64, m: nat|
            (seen.contains(f) || other.contains(f)) && m <= n ==> !#[trigger] ends_after(
                entries,
                f,
                m,
            ),
    ensures
        chain(entries, current, seen) == chain(entries, current, other),
    decreases n,
{
    assert(!seen.contains(current) && !other.contains(current));
    if !root_reference(current) && entries.contains_key(current) {
        let up = entries[current].parent_frn;
        if up != 0 && up != current {
            let a = seen.insert(current);
            let b = other.insert(current);
            assert forall|f: u64, m: nat|
                (a.contains(f) || b.contains(f)) && m <= n - 1 implies !#[trigger] ends_after(
                entries,
                f,
                m,
            ) by {
                if f == current && ends_after(entries, f, m) {
                    lemma_one_height(entries, current, n, m);
                }
            }
            lemma_chain_unseen(entries, up, (n - 1) as nat, a, b);
        }
    }
}

/// The path of an entry is the path of its parent and its name, wherever the
/// names of the parent lead to the root. A parent that is the root of the drive
/// has a path that ends in a separator; an entry in it whose name is blank or a
/// separator has the path of the root itself.
pub proof fn path_is_below_parent(drive: Seq<char>, entries: Map<u64, Entry>, frn: u64, n: nat)
    requires
        entries.dom().finite(),
        entries.contains_key(frn),
        !root_reference(frn),
        entries[frn].parent_frn != 0,
        entries[frn].parent_frn != frn,
        ends_after(entries, entries[frn].parent_frn, n),
    ensures
        ({
            let up = path_of(drive, entries, entries[frn].parent_frn);
            let name = entries[frn].name;
            if named(chain(entries, entries[frn].parent_frn, Set::empty()).reverse()).len() > 0 {
                path_of(drive, entries, frn) == up.push('\\') + name
            } else if name.len() > 0 && name != seq!['\\'] {
                up == drive.push('\\') && path_of(drive, entries, frn) == up + name
            } else {
                up == drive.push('\\') && path_of(drive, entries, frn) == up
            }
        }),
{
    let up = entries[frn].parent_frn;
    let name = entries[frn].name;
    let none = Set::<u64>::empty();
    assert forall|f: u64, m: nat|
        (none.insert(frn).contains(f) || none.contains(f)) && m <= n implies !#[trigger] ends_after(
        entries,
        f,
        m,
    ) by {
        if ends_after(entries, frn, m) {
            assert(m > 0);
            lemma_one_height(entries, up, n, (m - 1) as nat);
        }
    }
    lemma_chain_unseen(entries, up, n, none.insert(frn), none);
    let above = chain(entries, up, none);
    assert(chain(entries, frn, none) == seq![name] + above);
    assert((seq![name] + above).reverse() =~= above.reverse().push(name));
    lemma_named_push(above.reverse(), name);
    let below = named(above.reverse());
    if below.len() > 0 {
        assert(below.push(name).drop_last() =~= below);
        assert(drive + (descend(below).push('\\') + name) =~= (drive + descend(below)).push('\\')
            + name);
    } else {
        let one = seq![name];
        assert(one.drop_last() =~= seq![]);
        assert(descend(one.drop_last()) =~= seq![]);
        assert(drive + descend(one) =~= drive.push('\\') + name);
    }
}

/// The path of an entry whose parent is the root is its name in the root of
/// the drive.
pub proof fn path_in_root(drive: Seq<char>, entries: Map<u64, Entry>, frn: u64)
    requires
        entries.dom().finite(),
        entries.contains_key(frn),
        !root_reference(frn),
        root_reference(entries[frn].parent_frn),
        entries[frn].name.len() > 0,
        entries[frn].name != seq!['\\'],
    ensures
        path_of(drive, entries, frn) == drive.push('\\') + entries[frn].name,
{
    let up = entries[frn].parent_frn;
    let name = entries[frn].name;
    assert(root_reference(up) ==> up != 0) by {
        assert((0u64 & 0x0000_FFFF_FFFF_FFFFu64) == 0) by (bit_vector);
    }
    assert(chain(entries, up, Set::empty().insert(frn)) =~= seq![]);
    let c = chain(entries, frn, Set::empty());
    assert(c =~= seq![name]);
    assert(c.reverse() =~= seq![name]);
    assert(named(c.reverse()) =~= seq![name]);
    assert(seq![name].drop_last() =~= seq![]);
    assert(descend(seq![name].drop_last()) =~= seq![]);
    assert(drive + descend(seq![name]) =~= drive.push('\\') + name);
}

// ---------------------------------------------------------------------------
// Laws of references and of paths
// ---------------------------------------------------------------------------

/// A reference means the root exactly where the record that its lower 48 bits
/// count is the fifth, whatever the sequence number above them is.
pub proof fn roots_go_by_the_record(frn: u64)
    ensures
        root_reference(frn) <==> frn % 0x1_0000_0000_0000 == 5,
{
    assert((frn & 0x0000_FFFF_FFFF_FFFF) == frn % 0x1_0000_0000_0000) by (bit_vector);
}

/// The root, and a number under which there is no entry, have the path of the
/// drive; an entry whose directory is unknown, or is itself, lies in the root.
pub proof fn paths_without_a_directory(drive: Seq<char>, entries: Map<u64, Entry>, frn: u64)
    requires
        entries.dom().finite(),
    ensures
        root_reference(frn) || !entries.contains_key(frn) ==> path_of(drive, entries, frn)
            == drive + seq!['\\'],
        !root_reference(frn) && entries.contains_key(frn) && entries[frn].name.len() > 0
            && entries[frn].name != seq!['\\'] && (entries[frn].parent_frn == 0
            || entries[frn].parent_frn == frn || !entries.contains_key(entries[frn].parent_frn)
            || root_reference(entries[frn].parent_frn)) ==> path_of(drive, entries, frn) == drive
            + seq!['\\'] + entries[frn].name,
{
    let none = Seq::<Seq<char>>::empty();
    if root_reference(frn) || !entries.contains_key(frn) {
        assert(chain(entries, frn, Set::empty()).reverse() =~= none);
        assert(drive.push('\\') =~= drive + seq!['\\']);
    } else if entries[frn].name.len() > 0 && entries[frn].name != seq!['\\'] {
        let e = entries[frn];
        if e.parent_frn == 0 || e.parent_frn == frn || !entries.contains_key(e.parent_frn)
            || root_reference(e.parent_frn) {
            let one = seq![e.name];
            assert(chain(entries, e.parent_frn, Set::<u64>::empty().insert(frn)) == none
                || e.parent_frn == 0 || e.parent_frn == frn);
            assert(chain(entries, frn, Set::empty()) =~= one);
            assert(one.reverse() =~= one);
            assert(named(one) == one);
            assert(one.drop_last() =~= none);
            reveal_with_fuel(descend, 2);
            assert(descend(one) =~= seq!['\\'] + e.name);
            assert(drive + descend(one) =~= drive + seq!['\\'] + e.name);
        }
    }
}

/// The path of every entry starts with the drive and a separator.
pub proof fn paths_start_with_the_drive(drive: Seq<char>, entries: Map<u64, Entry>, frn: u64)
    ensures
        path_of(drive, entries, frn).len() > drive.len(),
        path_of(drive, entries, frn).take(drive.len() as int) == drive,
        path_of(drive, entries, frn)[drive.len() as int] == '\\',
{
    let below = named(chain(entries, frn, Set::empty()).reverse());
    let path = path_of(drive, entries, frn);
    if below.len() > 0 {
        lemma_descend_starts(below);
    }
    assert(path.take(drive.len() as int) =~= drive);
}

proof fn lemma_descend_starts(segments: Seq<Seq<char>>)
    requires
        segments.len() > 0,
    ensures
        descend(segments).len() > 0,
        descend(segments)[0] == '\\',
    decreases segments.len(),
{
    if segments.len() > 1 {
        lemma_descend_starts(segments.drop_last());
    } else {
        assert(descend(segments.drop_last()).len() == 0);
    }
}

/// A change touches the entry of its own number and no other.
pub proof fn changes_touch_one_entry(entries: Map<u64, Entry>, change: Change, frn: u64)
    requires
        change matches Change::Upsert(e) ==> e.frn != frn,
        change matches Change::Delete(gone) ==> gone != frn,
    ensures
        changed_entries(entries, change).contains_key(frn) == entries.contains_key(frn),
        entries.contains_key(frn) ==> changed_entries(entries, change)[frn] == entries[frn],
{
}

/// Changes are followed one after the other: those of two replies have the effect
/// of both.
pub proof fn changes_add_up(entries: Map<u64, Entry>, a: Seq<Change>, b: Seq<Change>)
    ensures
        entries_after(entries, a + b) == entries_after(entries_after(entries, a), b),
        entries_after(entries, Seq::<Change>::empty()) == entries,
    decreases b.len(),
{
    if b.len() == 0 {
        assert(a + b =~= a);
    } else {
        changes_add_up(entries, a, b.drop_last());
        assert((a + b).drop_last() =~= a + b.drop_last());
        assert((a + b).last() == b.last());
    }
}

/// An index that follows the journal reads on where the reply says, in the same
/// journal, and keeps its drive, its time and whether it has trigrams.
pub proof fn following_moves_on(
    before: Index,
    after: Index,
    changes: Seq<Change>,
    id: u64,
    usn: i64,
)
    requires
        after.follows(before, changes, id, usn),
    ensures
        after.next_usn == usn,
        after.journal_id == id,
        after.drive == before.drive,
        after.indexed_at_epoch_secs == before.indexed_at_epoch_secs,
        after.lists is Some <==> before.lists is Some,
        changes.len() > 0 ==> (changes.last() matches Change::Delete(frn)
            ==> !after.entries.contains_key(frn)),
        changes.len() > 0 ==> (changes.last() matches Change::Upsert(e)
            ==> after.entries.contains_key(e.frn) && after.entries[e.frn] == e),
        changes.len() == 0 ==> after.entries == before.entries,
{
}

/// The path of every entry ends in a separator and its name, wherever its
/// directories lead, be it round in a circle.
pub proof fn paths_end_in_the_name(drive: Seq<char>, entries: Map<u64, Entry>, frn: u64)
    requires
        entries.dom().finite(),
        entries.contains_key(frn),
        !root_reference(frn),
        entries[frn].name.len() > 0,
        entries[frn].name != seq!['\\'],
    ensures
        ({
            let path = path_of(drive, entries, frn);
            let name = entries[frn].name;
            &&& path.len() > name.len()
            &&& path.skip(path.len() - name.len()) == name
            &&& path[path.len() - name.len() - 1] == '\\'
        }),
{
    let e = entries[frn];
    let up = chain(entries, frn, Set::empty());
    assert(up.len() > 0 && up[0] == e.name);
    let all = up.reverse();
    let before = all.drop_last();
    assert(all.last() == e.name);
    assert(all =~= before.push(e.name));
    lemma_named_push(before, e.name);
    let below = named(all);
    assert(below.len() > 0 && below.last() == e.name);
    let path = path_of(drive, entries, frn);
    assert(path == drive + (descend(below.drop_last()).push('\\') + e.name));
    assert(path.skip(path.len() - e.name.len()) =~= e.name);
}

} // verus!
