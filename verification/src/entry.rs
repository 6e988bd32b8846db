//! The records of a volume: file entries and the changes of its journal.

use vstd::prelude::*;
use std::collections::HashMap;
use crate::text;

verus! {

broadcast use vstd::std_specs::hash::group_hash_axioms;

/// Bit of the file attributes that marks a directory.
pub const DIRECTORY_ATTRIBUTE: u32 = 0x10;

/// One file or directory of a volume, by its file reference number.
#[derive(Debug, Clone)]
pub struct FileEntry {
    pub frn: u64,
    pub parent_frn: u64,
    pub name: String,
    pub attributes: u32,
}

/// The value of a [`FileEntry`].
pub struct Entry {
    pub frn: u64,
    pub parent_frn: u64,
    pub name: Seq<char>,
    pub attributes: u32,
}

impl Entry {
    pub open spec fn is_directory(self) -> bool {
        (self.attributes & DIRECTORY_ATTRIBUTE) != 0
    }
}

impl View for FileEntry {
    type V = Entry;

    open spec fn view(&self) -> Entry {
        Entry {
            frn: self.frn,
            parent_frn: self.parent_frn,
            name: self.name@,
            attributes: self.attributes,
        }
    }
}

impl FileEntry {
    /// Whether the entry is a directory.
    pub fn is_directory(&self) -> (r: bool)
        ensures
            r == self@.is_directory(),
    {
        (self.attributes & DIRECTORY_ATTRIBUTE) != 0
    }

    /// An entry with the same contents.
    pub fn copy(&self) -> (r: FileEntry)
        ensures
            r@ == self@,
    {
        FileEntry {
            frn: self.frn,
            parent_frn: self.parent_frn,
            name: text::copy_text(self.name.as_str()),
            attributes: self.attributes,
        }
    }
}

/// The entries of a map, by their keys.
pub open spec fn entry_map(m: Map<u64, FileEntry>) -> Map<u64, Entry> {
    Map::new(|k: u64| m.contains_key(k), |k: u64| m[k]@)
}

/// The values of a list of entries.
pub open spec fn entry_seq(v: Seq<&FileEntry>) -> Seq<Entry> {
    Seq::new(v.len(), |i: int| v[i]@)
}

/// `keys` lists every key of `m` once.
pub open spec fn lists_keys(keys: Seq<u64>, m: Map<u64, Entry>) -> bool {
    &&& keys.no_duplicates()
    &&& forall|k: u64| #[trigger] keys.contains(k) <==> m.contains_key(k)
}

/// The entries of `m` under `keys`.
pub open spec fn entries_at(keys: Seq<u64>, m: Map<u64, Entry>) -> Seq<Entry> {
    Seq::new(keys.len(), |i: int| m[keys[i]])
}

/// The entries of a map, in the order in which the map is walked: every entry
/// once, in an order that the map alone decides.
pub fn walk_entries<'a>(m: &'a HashMap<u64, FileEntry>) -> (r: Vec<&'a FileEntry>)
    ensures
        exists|keys: Seq<u64>| #[trigger]
            lists_keys(keys, entry_map(m@)) && entry_seq(r@) == entries_at(keys, entry_map(m@)),
{
    let mut r: Vec<&'a FileEntry> = Vec::with_capacity(m.len());
    let ghost mut keys: Seq<u64> = seq![];
    let iter = m.iter();
    let ghost all = vstd::std_specs::iter::IteratorSpec::remaining(&iter);
    for pair in it: iter
        invariant
            it.seq() == all,
            all.no_duplicates(),
            forall|i: int|
                0 <= i < all.len() ==> m@.contains_key(*(#[trigger] all[i]).0) && m@[*all[i].0]
                    == *all[i].1,
            keys.len() == it.index(),
            r@.len() == it.index(),
            forall|i: int| 0 <= i < it.index() ==> keys[i] == *(#[trigger] all[i]).0,
            forall|i: int| 0 <= i < it.index() ==> *(#[trigger] r@[i]) == m@[keys[i]],
    {
        r.push(pair.1);
        proof {
            keys = keys.push(*pair.0);
        }
    }
    proof {
        assert(keys.len() == all.len());
        let em = entry_map(m@);
        assert forall|i: int, j: int| 0 <= i < keys.len() && 0 <= j < keys.len() && i
            != j implies keys[i] != keys[j] by {
            assert(all[i] != all[j]);
        }
        assert forall|k: u64| #[trigger] keys.contains(k) <==> em.contains_key(k) by {
            if m@.contains_key(k) {
                assert(all.contains((&k, &m@[k])));
                let i = choose|i: int| 0 <= i < all.len() && all[i] == (&k, &m@[k]);
                assert(keys[i] == k);
            }
            if keys.contains(k) {
                let i = choose|i: int| 0 <= i < keys.len() && keys[i] == k;
                assert(*all[i].0 == k);
            }
        }
        assert(lists_keys(keys, em));
        assert(entry_seq(r@) =~= entries_at(keys, em)) by {
            assert forall|i: int| 0 <= i < keys.len() implies entry_seq(r@)[i] == #[trigger]
                entries_at(keys, em)[i] by {
                assert(*r@[i] == m@[keys[i]]);
                assert(*all[i].0 == keys[i]);
            }
        }
    }
    r
}

/// One change that a volume's journal reports.
#[derive(Debug, Clone)]
pub enum JournalChange {
    /// The entry was created, or renamed to the name it has here.
    Upsert(FileEntry),
    /// The entry with this reference number is gone.
    Delete(u64),
}

/// The value of a [`JournalChange`].
pub enum Change {
    Upsert(Entry),
    Delete(u64),
}

impl View for JournalChange {
    type V = Change;

    open spec fn view(&self) -> Change {
        match self {
            JournalChange::Upsert(entry) => Change::Upsert(entry@),
            JournalChange::Delete(frn) => Change::Delete(*frn),
        }
    }
}

/// The values of a list of changes.
pub open spec fn change_seq(v: Seq<JournalChange>) -> Seq<Change> {
    Seq::new(v.len(), |i: int| v[i]@)
}

/// Changes read from a journal, and where to read on.
#[derive(Debug)]
pub struct JournalBatch {
    pub events: Vec<JournalChange>,
    pub next_usn: i64,
    pub journal_id: u64,
}

/// All entries of a volume, and the journal position they belong to.
#[derive(Debug)]
pub struct MftSnapshot {
    pub entries: HashMap<u64, FileEntry>,
    pub next_usn: i64,
    pub journal_id: u64,
}

} // verus!
