//! The records of a volume's file table and of its journal, as the system
//! hands them out: a header of eight bytes, then records one behind the other.

use vstd::prelude::*;
use std::collections::HashMap;
use crate::entry;
use crate::entry::Change;
use crate::entry::Entry;
use crate::entry::FileEntry;
use crate::entry::JournalBatch;
use crate::entry::JournalChange;
use crate::entry::MftSnapshot;
use crate::ntfs;
use crate::ntfs::VolumeError;
use crate::text;

verus! {

broadcast use vstd::std_specs::hash::group_hash_axioms;

/// Length of a record without its name.
pub const RECORD_SIZE: usize = 64;

/// Length of the header of a reply.
pub const HEADER_SIZE: usize = 8;

/// The file was deleted.
pub const REASON_FILE_DELETE: u32 = 0x200;

/// The file was created.
pub const REASON_FILE_CREATE: u32 = 0x100;

/// The file was renamed; the record holds the new name.
pub const REASON_RENAME_NEW_NAME: u32 = 0x2000;

// ---------------------------------------------------------------------------
// Numbers
// ---------------------------------------------------------------------------

/// The number that `n` bytes stand for, the lowest first.
pub open spec fn number(b: Seq<u8>, at: int, n: nat) -> nat
    decreases n,
{
    if n == 0 {
        0
    } else {
        b[at] as nat + 256 * number(b, at + 1, (n - 1) as nat)
    }
}

/// A number of 64 bits as a signed one.
pub open spec fn signed(n: nat) -> int {
    if n < 0x8000_0000_0000_0000 {
        n as int
    } else {
        n - 0x1_0000_0000_0000_0000
    }
}

fn read_u16(b: &[u8], at: usize) -> (r: u16)
    requires
        at + 2 <= b@.len(),
    ensures
        r == number(b@, at as int, 2),
{
    let size = b.len();
    proof {
        assert(at + 2 <= size);
        reveal_with_fuel(number, 3);
    }
    b[at] as u16 + 256 * (b[at + 1] as u16)
}

fn read_u32(b: &[u8], at: usize) -> (r: u32)
    requires
        at + 4 <= b@.len(),
    ensures
        r == number(b@, at as int, 4),
{
    let size = b.len();
    proof {
        assert(at + 4 <= size);
        reveal_with_fuel(number, 5);
    }
    read_u16(b, at) as u32 + 0x1_0000 * (read_u16(b, at + 2) as u32)
}

fn read_u64(b: &[u8], at: usize) -> (r: u64)
    requires
        at + 8 <= b@.len(),
    ensures
        r == number(b@, at as int, 8),
{
    let size = b.len();
    proof {
        assert(at + 8 <= size);
        reveal_with_fuel(number, 9);
    }
    read_u32(b, at) as u64 + 0x1_0000_0000 * (read_u32(b, at + 4) as u64)
}

fn to_signed(n: u64) -> (r: i64)
    ensures
        r == signed(n as nat),
{
    if n < 0x8000_0000_0000_0000 {
        n as i64
    } else {
        -((0xFFFF_FFFF_FFFF_FFFF - n) as i64) - 1
    }
}

// ---------------------------------------------------------------------------
// Records
// ---------------------------------------------------------------------------

/// The length of the record at `at`, its name included.
pub open spec fn record_len(b: Seq<u8>, at: int) -> nat {
    number(b, at, 4)
}

pub open spec fn record_frn(b: Seq<u8>, at: int) -> u64 {
    number(b, at + 8, 8) as u64
}

pub open spec fn record_parent(b: Seq<u8>, at: int) -> u64 {
    number(b, at + 16, 8) as u64
}

pub open spec fn record_reason(b: Seq<u8>, at: int) -> u32 {
    number(b, at + 40, 4) as u32
}

pub open spec fn record_attributes(b: Seq<u8>, at: int) -> u32 {
    number(b, at + 52, 4) as u32
}

/// The code units of the name of the record; none where they do not lie in the
/// buffer.
pub open spec fn record_units(b: Seq<u8>, at: int) -> Option<Seq<u16>> {
    let n = number(b, at + 56, 2) / 2;
    let from = at + number(b, at + 58, 2);
    if from + 2 * n > b.len() {
        None
    } else {
        Some(Seq::new(n, |i: int| number(b, from + 2 * i, 2) as u16))
    }
}

/// The name of the record.
pub open spec fn record_name(b: Seq<u8>, at: int) -> Option<Seq<char>> {
    match record_units(b, at) {
        Some(units) => ntfs::from_utf16(units),
        None => None,
    }
}

/// The entry that the record describes.
pub open spec fn record_entry(b: Seq<u8>, at: int) -> Option<Entry> {
    match record_name(b, at) {
        Some(name) => Some(
            Entry {
                frn: record_frn(b, at),
                parent_frn: record_parent(b, at),
                name,
                attributes: record_attributes(b, at),
            },
        ),
        None => None,
    }
}

/// A record stands at `at`, within the first `end` bytes.
pub open spec fn record_there(b: Seq<u8>, end: int, at: int) -> bool {
    at + RECORD_SIZE <= end && record_len(b, at) > 0
}

/// The entries of the records from `at` on; none where a name is invalid.
pub open spec fn entries_from(b: Seq<u8>, end: int, at: int) -> Option<Seq<Entry>>
    decreases
        if at <= end {
            end - at
        } else {
            0
        },
{
    if !record_there(b, end, at) {
        Some(seq![])
    } else {
        match record_entry(b, at) {
            None => None,
            Some(e) => match entries_from(b, end, at + record_len(b, at)) {
                None => None,
                Some(rest) => Some(seq![e] + rest),
            },
        }
    }
}

/// What the record of a journal says: a deletion, a new name, or nothing that
/// an index needs. None where a name that is needed is invalid.
pub open spec fn record_change(b: Seq<u8>, at: int) -> Option<Option<Change>> {
    let reason = record_reason(b, at);
    if (reason & REASON_FILE_DELETE) != 0 {
        Some(Some(Change::Delete(record_frn(b, at))))
    } else if (reason & REASON_FILE_CREATE) != 0 || (reason & REASON_RENAME_NEW_NAME) != 0 {
        match record_entry(b, at) {
            Some(e) => Some(Some(Change::Upsert(e))),
            None => None,
        }
    } else {
        Some(None)
    }
}

/// The changes of the records from `at` on; none where a name is invalid.
pub open spec fn changes_from(b: Seq<u8>, end: int, at: int) -> Option<Seq<Change>>
    decreases
        if at <= end {
            end - at
        } else {
            0
        },
{
    if !record_there(b, end, at) {
        Some(seq![])
    } else {
        match (record_change(b, at), changes_from(b, end, at + record_len(b, at))) {
            (Some(Some(c)), Some(rest)) => Some(seq![c] + rest),
            (Some(None), Some(rest)) => Some(rest),
            _ => None,
        }
    }
}

/// The name of the record at `offset`.
fn decode_usn_name(b: &[u8], offset: usize) -> (r: Option<String>)
    requires
        offset + RECORD_SIZE <= b@.len(),
    ensures
        text::text_of(r) == record_name(b@, offset as int),
{
    let size = b.len();
    let n: usize = (read_u16(b, offset + 56) / 2) as usize;
    let from: usize = read_u16(b, offset + 58) as usize;
    if from > size - offset || 2 * n > size - offset - from {
        return None;
    }
    let start: usize = offset + from;
    let mut units: Vec<u16> = Vec::with_capacity(n);
    let mut i: usize = 0;
    while i < n
        invariant
            i <= n,
            n <= 0x7FFF,
            size == b@.len(),
            start + 2 * n <= size,
            units@.len() == i,
            forall|k: int| 0 <= k < i ==> #[trigger] units@[k] == number(b@, start + 2 * k, 2) as u16,
        decreases n - i,
    {
        units.push(read_u16(b, start + 2 * i));
        i += 1;
    }
    assert(record_units(b@, offset as int)->0 =~= units@);
    ntfs::decode_utf16(&units)
}

/// The entry that the record at `offset` describes.
fn decode_entry(b: &[u8], offset: usize) -> (r: Option<FileEntry>)
    requires
        offset + RECORD_SIZE <= b@.len(),
    ensures
        match r {
            Some(e) => record_entry(b@, offset as int) == Some(e@),
            None => record_entry(b@, offset as int) is None,
        },
{
    let size = b.len();
    assert(offset + RECORD_SIZE <= size);
    match decode_usn_name(b, offset) {
        Some(name) => Some(
            FileEntry {
                frn: read_u64(b, offset + 8),
                parent_frn: read_u64(b, offset + 16),
                name,
                attributes: read_u32(b, offset + 52),
            },
        ),
        None => None,
    }
}

/// The position behind the record at `offset`, or past every position.
fn next_record(b: &[u8], offset: usize) -> (r: usize)
    requires
        offset + RECORD_SIZE <= b@.len(),
    ensures
        r == if offset + record_len(b@, offset as int) > usize::MAX {
            usize::MAX as int
        } else {
            offset + record_len(b@, offset as int)
        },
{
    let len = read_u32(b, offset) as usize;
    if len > usize::MAX - offset {
        usize::MAX
    } else {
        offset + len
    }
}

proof fn lemma_past_end(b: Seq<u8>, end: int, at: int, far: int)
    requires
        at + RECORD_SIZE > end,
        far + RECORD_SIZE > end,
    ensures
        entries_from(b, end, at) == entries_from(b, end, far),
        changes_from(b, end, at) == changes_from(b, end, far),
{
}

// ---------------------------------------------------------------------------
// The scan of the file table
// ---------------------------------------------------------------------------

/// A scan of the file table, page by page.
#[derive(Debug)]
pub struct MftScan {
    /// The entries that were found.
    pub entries: HashMap<u64, FileEntry>,
    /// The reference number at which the next page starts.
    pub next_start: u64,
    /// Whether the last page was read.
    pub finished: bool,
}

/// `entries` with those of a list, each under its reference number.
pub open spec fn with_all(entries: Map<u64, Entry>, list: Seq<Entry>) -> Map<u64, Entry>
    decreases list.len(),
{
    if list.len() == 0 {
        entries
    } else {
        with_all(entries, list.drop_last()).insert(list.last().frn, list.last())
    }
}

proof fn lemma_with_all_concat(entries: Map<u64, Entry>, a: Seq<Entry>, b: Seq<Entry>)
    ensures
        with_all(with_all(entries, a), b) == with_all(entries, a + b),
    decreases b.len(),
{
    if b.len() == 0 {
        assert(a + b =~= a);
    } else {
        lemma_with_all_concat(entries, a, b.drop_last());
        assert((a + b).drop_last() =~= a + b.drop_last());
        assert((a + b).last() == b.last());
    }
}

impl MftScan {
    /// A scan that has not begun.
    pub fn start() -> (r: MftScan)
        ensures
            entry::entry_map(r.entries@) == Map::<u64, Entry>::empty(),
            r.next_start == 0,
            !r.finished,
    {
        let r = MftScan { entries: HashMap::new(), next_start: 0, finished: false };
        assert(entry::entry_map(r.entries@) =~= Map::<u64, Entry>::empty());
        r
    }

    /// Takes in a page: the buffer that the system filled, and how many bytes
    /// of it. A page without records ends the scan. An invalid name is an
    /// error, and the scan is of no further use.
    pub fn accept_page(&mut self, buffer: &[u8], bytes_returned: usize) -> (r: Result<
        (),
        VolumeError,
    >)
        requires
            bytes_returned <= buffer@.len(),
        ensures
            bytes_returned <= HEADER_SIZE ==> r is Ok && final(self).finished
                && final(self).entries == old(self).entries && final(self).next_start
                == old(self).next_start,
            bytes_returned > HEADER_SIZE ==> match entries_from(
                buffer@,
                bytes_returned as int,
                HEADER_SIZE as int,
            ) {
                Some(list) => r is Ok && entry::entry_map(final(self).entries@) == with_all(
                    entry::entry_map(old(self).entries@),
                    list,
                ) && final(self).next_start == number(buffer@, 0, 8) && final(self).finished
                    == old(self).finished,
                None => r == Err::<(), VolumeError>(VolumeError::InvalidName),
            },
    {
        if bytes_returned <= HEADER_SIZE {
            self.finished = true;
            return Ok(());
        }
        self.next_start = read_u64(buffer, 0);
        let ghost before = entry::entry_map(self.entries@);
        let ghost whole = entries_from(buffer@, bytes_returned as int, HEADER_SIZE as int);
        let ghost mut read: Seq<Entry> = seq![];
        let mut offset: usize = HEADER_SIZE;
        assert(whole is Some ==> read + whole->0 =~= whole->0);
        while offset <= bytes_returned && bytes_returned - offset >= RECORD_SIZE && read_u32(
            buffer,
            offset,
        ) != 0
            invariant
                HEADER_SIZE < bytes_returned <= buffer@.len(),
                whole == entries_from(buffer@, bytes_returned as int, HEADER_SIZE as int),
                self.next_start == number(buffer@, 0, 8),
                self.finished == old(self).finished,
                entry::entry_map(self.entries@) == with_all(before, read),
                whole is Some == entries_from(
                    buffer@,
                    bytes_returned as int,
                    offset as int,
                ) is Some,
                whole is Some ==> whole->0 == read + entries_from(
                    buffer@,
                    bytes_returned as int,
                    offset as int,
                )->0,
            decreases usize::MAX - offset,
        {
            let ghost at = offset as int;
            match decode_entry(buffer, offset) {
                Some(e) => {
                    let ghost had = entry::entry_map(self.entries@);
                    let ghost one = e@;
                    let frn = e.frn;
                    self.entries.insert(frn, e);
                    proof {
                        assert(entry::entry_map(self.entries@) =~= had.insert(one.frn, one));
                        let more = read.push(one);
                        assert(more.drop_last() =~= read);
                        if whole is Some {
                            let rest = entries_from(
                                buffer@,
                                bytes_returned as int,
                                at + record_len(buffer@, at),
                            )->0;
                            assert(read + (seq![one] + rest) =~= more + rest);
                        }
                        read = more;
                    }
                },
                None => {
                    return Err(VolumeError::InvalidName);
                },
            }
            offset = next_record(buffer, offset);
            proof {
                if at + record_len(buffer@, at) > usize::MAX {
                    lemma_past_end(
                        buffer@,
                        bytes_returned as int,
                        at + record_len(buffer@, at),
                        offset as int,
                    );
                }
            }
        }
        assert(whole is Some ==> read + Seq::<Entry>::empty() =~= read);
        Ok(())
    }

    /// What the scan found, with the position of the journal that it belongs
    /// to.
    pub fn finish(self, next_usn: i64, journal_id: u64) -> (r: MftSnapshot)
        ensures
            r.entries == self.entries,
            r.next_usn == next_usn,
            r.journal_id == journal_id,
    {
        MftSnapshot { entries: self.entries, next_usn, journal_id }
    }
}

/// Two pages read one after the other give the entries of both, those of the
/// second standing where a reference number is in both.
pub proof fn pages_add_up(entries: Map<u64, Entry>, first: Seq<Entry>, second: Seq<Entry>)
    ensures
        with_all(with_all(entries, first), second) == with_all(entries, first + second),
{
    lemma_with_all_concat(entries, first, second);
}

/// A scan files every entry under its own reference number.
pub proof fn scan_is_keyed(entries: Map<u64, Entry>, list: Seq<Entry>)
    requires
        crate::index::keyed(entries),
    ensures
        crate::index::keyed(with_all(entries, list)),
    decreases list.len(),
{
    if list.len() > 0 {
        scan_is_keyed(entries, list.drop_last());
        let before = with_all(entries, list.drop_last());
        let after = with_all(entries, list);
        assert forall|k: u64| #[trigger] after.contains_key(k) implies after[k].frn == k by {
            if k != list.last().frn {
                assert(before.contains_key(k));
            }
        }
    }
}

// ---------------------------------------------------------------------------
// The journal
// ---------------------------------------------------------------------------

/// Whether the journal is still the one that an index was made from.
pub fn check_journal(journal_id: u64, current_id: u64) -> (r: Result<(), VolumeError>)
    ensures
        r is Ok <==> journal_id == current_id,
        r is Err ==> r == Err::<(), VolumeError>(VolumeError::JournalChanged(journal_id, current_id)),
{
    if journal_id != current_id {
        Err(VolumeError::JournalChanged(journal_id, current_id))
    } else {
        Ok(())
    }
}

/// The changes of a reply of the journal that was read from `start_usn` on:
/// the buffer that the system filled, and how many bytes of it.
pub fn decode_changes(buffer: &[u8], bytes_returned: usize, start_usn: i64, journal_id: u64) -> (r:
    Result<JournalBatch, VolumeError>)
    requires
        bytes_returned <= buffer@.len(),
    ensures
        bytes_returned < HEADER_SIZE ==> (r matches Ok(b) && b.events@.len() == 0 && b.next_usn
            == start_usn && b.journal_id == journal_id),
        bytes_returned >= HEADER_SIZE ==> match changes_from(
            buffer@,
            bytes_returned as int,
            HEADER_SIZE as int,
        ) {
            Some(list) => r matches Ok(b) && entry::change_seq(b.events@) == list && b.next_usn
                == signed(number(buffer@, 0, 8)) && b.journal_id == journal_id,
            None => r == Err::<JournalBatch, VolumeError>(VolumeError::InvalidName),
        },
{
    let mut events: Vec<JournalChange> = Vec::new();
    if bytes_returned < HEADER_SIZE {
        return Ok(JournalBatch { events, next_usn: start_usn, journal_id });
    }
    let next_usn = to_signed(read_u64(buffer, 0));
    let ghost whole = changes_from(buffer@, bytes_returned as int, HEADER_SIZE as int);
    let mut offset: usize = HEADER_SIZE;
    assert(entry::change_seq(events@) =~= seq![]);
    assert(whole is Some ==> entry::change_seq(events@) + whole->0 =~= whole->0);
    while offset <= bytes_returned && bytes_returned - offset >= RECORD_SIZE && read_u32(
        buffer,
        offset,
    ) != 0
        invariant
            HEADER_SIZE <= bytes_returned <= buffer@.len(),
            whole == changes_from(buffer@, bytes_returned as int, HEADER_SIZE as int),
            whole is Some == changes_from(buffer@, bytes_returned as int, offset as int) is Some,
            whole is Some ==> whole->0 == entry::change_seq(events@) + changes_from(
                buffer@,
                bytes_returned as int,
                offset as int,
            )->0,
        decreases usize::MAX - offset,
    {
        let ghost at = offset as int;
        let ghost had = entry::change_seq(events@);
        let ghost rest = changes_from(buffer@, bytes_returned as int, at + record_len(buffer@, at));
        let reason = read_u32(buffer, offset + 40);
        if (reason & REASON_FILE_DELETE) != 0 {
            let frn = read_u64(buffer, offset + 8);
            events.push(JournalChange::Delete(frn));
            proof {
                let c = Change::Delete(frn);
                assert(entry::change_seq(events@) =~= had.push(c));
                if rest is Some {
                    assert(had + (seq![c] + rest->0) =~= had.push(c) + rest->0);
                }
            }
        } else if (reason & REASON_FILE_CREATE) != 0 || (reason & REASON_RENAME_NEW_NAME) != 0 {
            match decode_entry(buffer, offset) {
                Some(e) => {
                    let ghost c = Change::Upsert(e@);
                    events.push(JournalChange::Upsert(e));
                    proof {
                        assert(entry::change_seq(events@) =~= had.push(c));
                        if rest is Some {
                            assert(had + (seq![c] + rest->0) =~= had.push(c) + rest->0);
                        }
                    }
                },
                None => {
                    return Err(VolumeError::InvalidName);
                },
            }
        }
        offset = next_record(buffer, offset);
        proof {
            if at + record_len(buffer@, at) > usize::MAX {
                lemma_past_end(
                    buffer@,
                    bytes_returned as int,
                    at + record_len(buffer@, at),
                    offset as int,
                );
            }
        }
    }
    assert(whole is Some ==> entry::change_seq(events@) + Seq::<Change>::empty()
        =~= entry::change_seq(events@));
    Ok(JournalBatch { events, next_usn, journal_id })
}

// ---------------------------------------------------------------------------
// How the system lays records out
// ---------------------------------------------------------------------------

/// The `n` bytes of a number, the lowest first.
pub open spec fn little_endian(value: nat, n: nat) -> Seq<u8>
    decreases n,
{
    if n == 0 {
        seq![]
    } else {
        seq![(value % 256) as u8] + little_endian(value / 256, (n - 1) as nat)
    }
}

/// The bytes of code units, the lower byte of each first.
pub open spec fn unit_bytes(units: Seq<u16>) -> Seq<u8> {
    Seq::new(
        2 * units.len(),
        |i: int|
            if i % 2 == 0 {
                (units[i / 2] % 256) as u8
            } else {
                (units[i / 2] / 256) as u8
            },
    )
}

/// What the system writes into a record (`USN_RECORD_V2`).
pub struct Record {
    pub version: u32,
    pub frn: u64,
    pub parent_frn: u64,
    pub usn: u64,
    pub time: u64,
    pub reason: u32,
    pub source: u32,
    pub security: u32,
    pub attributes: u32,
    pub units: Seq<u16>,
    /// What follows the name up to the next record.
    pub padding: Seq<u8>,
}

impl Record {
    /// The length of the record in bytes.
    pub open spec fn size(self) -> nat {
        60 + 2 * self.units.len() + self.padding.len()
    }

    /// The record can be written: its name and the whole fit their lengths, and
    /// it is no shorter than the system makes it.
    pub open spec fn fits(self) -> bool {
        2 * self.units.len() <= u16::MAX && 64 <= self.size() <= u32::MAX
    }

    /// The bytes of the record: its length, the numbers in their order, the
    /// length and the place of the name, and the name.
    pub open spec fn bytes(self) -> Seq<u8> {
        self.first_bytes() + self.last_bytes() + unit_bytes(self.units) + self.padding
    }

    /// The bytes up to the time.
    pub open spec fn first_bytes(self) -> Seq<u8> {
        little_endian(self.size(), 4) + little_endian(self.version as nat, 4) + little_endian(
            self.frn as nat,
            8,
        ) + little_endian(self.parent_frn as nat, 8) + little_endian(self.usn as nat, 8)
            + little_endian(self.time as nat, 8)
    }

    /// The bytes from the reason to the place of the name.
    pub open spec fn last_bytes(self) -> Seq<u8> {
        little_endian(self.reason as nat, 4) + little_endian(self.source as nat, 4)
            + little_endian(self.security as nat, 4) + little_endian(self.attributes as nat, 4)
            + little_endian(2 * self.units.len(), 2) + little_endian(60, 2)
    }
}

/// The bytes of records, one behind the other.
pub open spec fn records_bytes(list: Seq<Record>) -> Seq<u8>
    decreases list.len(),
{
    if list.len() == 0 {
        seq![]
    } else {
        list[0].bytes() + records_bytes(list.drop_first())
    }
}

/// A reply of the system: the number to go on from, then records.
pub open spec fn reply_bytes(next: u64, list: Seq<Record>) -> Seq<u8> {
    little_endian(next as nat, 8) + records_bytes(list)
}

/// All of the records can be written.
pub open spec fn all_fit(list: Seq<Record>) -> bool {
    forall|i: int| 0 <= i < list.len() ==> (#[trigger] list[i]).fits()
}

/// How many numbers `n` bytes can hold.
pub open spec fn room(n: nat) -> nat
    decreases n,
{
    if n == 0 {
        1
    } else {
        256 * room((n - 1) as nat)
    }
}

proof fn lemma_rooms()
    ensures
        room(2) == 0x1_0000,
        room(4) == 0x1_0000_0000,
        room(8) == 0x1_0000_0000_0000_0000,
{
    reveal_with_fuel(room, 9);
}

proof fn lemma_little_endian(value: nat, n: nat)
    ensures
        little_endian(value, n).len() == n,
    decreases n,
{
    if n > 0 {
        lemma_little_endian(value / 256, (n - 1) as nat);
    }
}

/// A number is read back from its bytes, wherever they stand.
pub proof fn numbers_are_read_back(b: Seq<u8>, at: int, value: nat, n: nat)
    requires
        0 <= at,
        at + n <= b.len(),
        b.subrange(at, at + n) == little_endian(value, n),
        value < room(n),
    ensures
        number(b, at, n) == value,
    decreases n,
{
    if n > 0 {
        let whole = b.subrange(at, at + n);
        let rest = (n - 1) as nat;
        lemma_little_endian(value / 256, rest);
        assert(whole[0] == (value % 256) as u8);
        assert(b[at] == whole[0]);
        assert(b.subrange(at + 1, at + 1 + rest) =~= whole.subrange(1, n as int));
        assert(whole.subrange(1, n as int) =~= little_endian(value / 256, rest));
        assert(value / 256 < room(rest)) by (nonlinear_arith)
            requires
                value < 256 * room(rest),
        ;
        numbers_are_read_back(b, at + 1, value / 256, rest);
    }
}

proof fn lemma_field(b: Seq<u8>, at: int, part: Seq<u8>, place: int, from: int, value: nat, n: nat)
    requires
        0 <= at,
        0 <= place,
        0 <= from,
        from + n <= part.len(),
        at + place + part.len() <= b.len(),
        b.subrange(at + place, at + place + part.len()) == part,
        part.subrange(from, from + n) == little_endian(value, n),
        value < room(n),
    ensures
        number(b, at + place + from, n) == value,
{
    let base = at + place;
    assert(b.subrange(base + from, base + from + n) =~= b.subrange(
        base,
        base + part.len(),
    ).subrange(from, from + n));
    numbers_are_read_back(b, base + from, value, n);
}

proof fn lemma_first_fields(b: Seq<u8>, at: int, r: Record)
    requires
        0 <= at,
        r.fits(),
        at + 40 <= b.len(),
        b.subrange(at, at + 40) == r.first_bytes(),
    ensures
        record_len(b, at) == r.size(),
        number(b, at + 8, 8) == r.frn,
        number(b, at + 16, 8) == r.parent_frn,
{
    let part = r.first_bytes();
    lemma_rooms();
    lemma_little_endian(r.size(), 4);
    lemma_little_endian(r.version as nat, 4);
    lemma_little_endian(r.frn as nat, 8);
    lemma_little_endian(r.parent_frn as nat, 8);
    lemma_little_endian(r.usn as nat, 8);
    lemma_little_endian(r.time as nat, 8);
    assert(part.len() == 40);
    assert(part.subrange(0, 4) =~= little_endian(r.size(), 4));
    assert(part.subrange(8, 16) =~= little_endian(r.frn as nat, 8));
    assert(part.subrange(16, 24) =~= little_endian(r.parent_frn as nat, 8));
    lemma_field(b, at, part, 0, 0, r.size(), 4);
    lemma_field(b, at, part, 0, 8, r.frn as nat, 8);
    lemma_field(b, at, part, 0, 16, r.parent_frn as nat, 8);
}

proof fn lemma_last_fields(b: Seq<u8>, at: int, r: Record)
    requires
        0 <= at,
        r.fits(),
        at + 60 <= b.len(),
        b.subrange(at + 40, at + 60) == r.last_bytes(),
    ensures
        number(b, at + 40, 4) == r.reason,
        number(b, at + 52, 4) == r.attributes,
        number(b, at + 56, 2) == 2 * r.units.len(),
        number(b, at + 58, 2) == 60,
{
    let part = r.last_bytes();
    lemma_rooms();
    lemma_little_endian(r.reason as nat, 4);
    lemma_little_endian(r.source as nat, 4);
    lemma_little_endian(r.security as nat, 4);
    lemma_little_endian(r.attributes as nat, 4);
    lemma_little_endian(2 * r.units.len(), 2);
    lemma_little_endian(60, 2);
    assert(part.len() == 20);
    assert(part.subrange(0, 4) =~= little_endian(r.reason as nat, 4));
    assert(part.subrange(12, 16) =~= little_endian(r.attributes as nat, 4));
    assert(part.subrange(16, 18) =~= little_endian(2 * r.units.len(), 2));
    assert(part.subrange(18, 20) =~= little_endian(60, 2));
    lemma_field(b, at, part, 40, 0, r.reason as nat, 4);
    lemma_field(b, at, part, 40, 12, r.attributes as nat, 4);
    lemma_field(b, at, part, 40, 16, 2 * r.units.len(), 2);
    lemma_field(b, at, part, 40, 18, 60, 2);
}

proof fn lemma_sizes(r: Record)
    ensures
        r.first_bytes().len() == 40,
        r.last_bytes().len() == 20,
        r.bytes().len() == r.size(),
{
    lemma_little_endian(r.size(), 4);
    lemma_little_endian(r.version as nat, 4);
    lemma_little_endian(r.frn as nat, 8);
    lemma_little_endian(r.parent_frn as nat, 8);
    lemma_little_endian(r.usn as nat, 8);
    lemma_little_endian(r.time as nat, 8);
    lemma_little_endian(r.reason as nat, 4);
    lemma_little_endian(r.source as nat, 4);
    lemma_little_endian(r.security as nat, 4);
    lemma_little_endian(r.attributes as nat, 4);
    lemma_little_endian(2 * r.units.len(), 2);
    lemma_little_endian(60, 2);
}

/// A record is read back as it was written: its numbers in all their bits, its
/// reason and attributes, and the code units of its name.
pub proof fn records_are_read_back(b: Seq<u8>, at: int, r: Record)
    requires
        0 <= at,
        r.fits(),
        at + r.size() <= b.len(),
        b.subrange(at, at + r.size()) == r.bytes(),
    ensures
        record_len(b, at) == r.size(),
        record_frn(b, at) == r.frn,
        record_parent(b, at) == r.parent_frn,
        record_reason(b, at) == r.reason,
        record_attributes(b, at) == r.attributes,
        record_units(b, at) == Some(r.units),
{
    let whole = r.bytes();
    lemma_sizes(r);
    assert(whole.subrange(0, 40) =~= r.first_bytes());
    assert(whole.subrange(40, 60) =~= r.last_bytes());
    assert(whole.subrange(60, 60int + 2 * r.units.len()) =~= unit_bytes(r.units));
    assert(b.subrange(at, at + 40) =~= whole.subrange(0, 40));
    assert(b.subrange(at + 40, at + 60) =~= whole.subrange(40, 60));
    lemma_first_fields(b, at, r);
    lemma_last_fields(b, at, r);
    let names = unit_bytes(r.units);
    assert forall|i: int| 0 <= i < r.units.len() implies #[trigger] number(b, at + 60 + 2 * i, 2)
        == r.units[i] by {
        reveal_with_fuel(number, 3);
        assert(b[at + 60 + 2 * i] == whole[60 + 2 * i]) by {
            assert(b.subrange(at, at + r.size())[60 + 2 * i] == whole[60 + 2 * i]);
        }
        assert(b[at + 61 + 2 * i] == whole[61 + 2 * i]) by {
            assert(b.subrange(at, at + r.size())[61 + 2 * i] == whole[61 + 2 * i]);
        }
        assert(whole[60 + 2 * i] == names[2 * i]);
        assert(whole[61 + 2 * i] == names[2 * i + 1]);
    }
    assert(record_units(b, at)->0 =~= r.units);
}

/// A record that was written for an entry is read as that entry, whatever its
/// reference numbers are.
pub proof fn entries_are_read_back(b: Seq<u8>, at: int, r: Record, e: Entry)
    requires
        0 <= at,
        r.fits(),
        at + r.size() <= b.len(),
        b.subrange(at, at + r.size()) == r.bytes(),
        r.frn == e.frn,
        r.parent_frn == e.parent_frn,
        r.attributes == e.attributes,
        r.units == ntfs::utf16(e.name),
    ensures
        record_entry(b, at) == Some(e),
{
    records_are_read_back(b, at, r);
    ntfs::utf16_round_trip(e.name);
}

proof fn lemma_there(b: Seq<u8>, end: int, at: int, r: Record, tail: Seq<Record>)
    requires
        0 <= at <= end <= b.len(),
        r.fits(),
        b.subrange(at, end) == r.bytes() + records_bytes(tail),
    ensures
        record_there(b, end, at),
        at + r.size() <= end,
        b.subrange(at, at + r.size()) == r.bytes(),
        b.subrange(at + r.size(), end) == records_bytes(tail),
        record_len(b, at) == r.size(),
{
    let rest = b.subrange(at, end);
    lemma_sizes(r);
    assert(rest.len() == r.size() + records_bytes(tail).len());
    assert(b.subrange(at, at + r.size()) =~= rest.subrange(0, r.size() as int));
    assert(rest.subrange(0, r.size() as int) =~= r.bytes());
    assert(b.subrange(at + r.size(), end) =~= rest.subrange(
        r.size() as int,
        rest.len() as int,
    ));
    assert(rest.subrange(r.size() as int, rest.len() as int) =~= records_bytes(tail));
    records_are_read_back(b, at, r);
}

proof fn lemma_all_read(b: Seq<u8>, end: int, at: int, list: Seq<Record>, entries: Seq<Entry>)
    requires
        0 <= at <= end <= b.len(),
        all_fit(list),
        b.subrange(at, end) == records_bytes(list),
        entries.len() == list.len(),
        forall|i: int|
            0 <= i < list.len() ==> (#[trigger] list[i]).frn == entries[i].frn
                && list[i].parent_frn == entries[i].parent_frn && list[i].attributes
                == entries[i].attributes && list[i].units == ntfs::utf16(entries[i].name),
    ensures
        entries_from(b, end, at) == Some(entries),
    decreases list.len(),
{
    if list.len() == 0 {
        assert(b.subrange(at, end).len() == 0);
        assert(entries =~= seq![]);
    } else {
        let r = list[0];
        let tail = list.drop_first();
        let others = entries.drop_first();
        assert(r.fits());
        lemma_there(b, end, at, r, tail);
        entries_are_read_back(b, at, r, entries[0]);
        assert forall|i: int| 0 <= i < tail.len() implies (#[trigger] tail[i]).frn == others[i].frn
            && tail[i].parent_frn == others[i].parent_frn && tail[i].attributes
            == others[i].attributes && tail[i].units == ntfs::utf16(others[i].name) by {
            assert(tail[i] == list[i + 1]);
        }
        lemma_all_read(b, end, at + r.size(), tail, others);
        assert(seq![entries[0]] + others =~= entries);
    }
}

/// A page of the file table gives the entries that were written to it, all of
/// them and in their order, and the number to go on from, whatever the buffer
/// holds behind it.
pub proof fn pages_are_read_back(
    next: u64,
    list: Seq<Record>,
    entries: Seq<Entry>,
    spare: Seq<u8>,
)
    requires
        all_fit(list),
        entries.len() == list.len(),
        forall|i: int|
            0 <= i < list.len() ==> (#[trigger] list[i]).frn == entries[i].frn
                && list[i].parent_frn == entries[i].parent_frn && list[i].attributes
                == entries[i].attributes && list[i].units == ntfs::utf16(entries[i].name),
    ensures
        entries_from(
            reply_bytes(next, list) + spare,
            reply_bytes(next, list).len() as int,
            HEADER_SIZE as int,
        ) == Some(entries),
        number(reply_bytes(next, list) + spare, 0, 8) == next,
{
    let end = reply_bytes(next, list).len() as int;
    lemma_reply(next, list, spare);
    lemma_all_read(reply_bytes(next, list) + spare, end, 8, list, entries);
}

proof fn lemma_reply(next: u64, list: Seq<Record>, spare: Seq<u8>)
    ensures
        reply_bytes(next, list).len() >= 8,
        number(reply_bytes(next, list) + spare, 0, 8) == next,
        (reply_bytes(next, list) + spare).subrange(8, reply_bytes(next, list).len() as int)
            == records_bytes(list),
{
    let b = reply_bytes(next, list) + spare;
    lemma_rooms();
    lemma_little_endian(next as nat, 8);
    assert(b.subrange(0, 8) =~= little_endian(next as nat, 8));
    numbers_are_read_back(b, 0, next as nat, 8);
    assert(b.subrange(8, reply_bytes(next, list).len() as int) =~= records_bytes(list));
}

/// What every page that was accepted files: each number leads to the last entry
/// that was listed under it, or to what was there before.
pub proof fn scan_files_the_last(entries: Map<u64, Entry>, list: Seq<Entry>, i: int)
    requires
        0 <= i < list.len(),
        forall|j: int| i < j < list.len() ==> (#[trigger] list[j]).frn != list[i].frn,
    ensures
        with_all(entries, list).contains_key(list[i].frn),
        with_all(entries, list)[list[i].frn] == list[i],
    decreases list.len(),
{
    if i < list.len() - 1 {
        let rest = list.drop_last();
        assert(list[list.len() - 1].frn != list[i].frn);
        assert forall|j: int| i < j < rest.len() implies (#[trigger] rest[j]).frn != rest[i].frn by {
            assert(rest[j] == list[j]);
        }
        scan_files_the_last(entries, rest, i);
    }
}

/// A scan touches nothing but the numbers of the entries that it lists.
pub proof fn scan_leaves_the_rest(entries: Map<u64, Entry>, list: Seq<Entry>, frn: u64)
    requires
        forall|j: int| 0 <= j < list.len() ==> (#[trigger] list[j]).frn != frn,
    ensures
        with_all(entries, list).contains_key(frn) == entries.contains_key(frn),
        entries.contains_key(frn) ==> with_all(entries, list)[frn] == entries[frn],
    decreases list.len(),
{
    if list.len() > 0 {
        let rest = list.drop_last();
        assert(list[list.len() - 1].frn != frn);
        assert forall|j: int| 0 <= j < rest.len() implies (#[trigger] rest[j]).frn != frn by {
            assert(rest[j] == list[j]);
        }
        scan_leaves_the_rest(entries, rest, frn);
    }
}

/// What a reply of the journal tells; the buffer may go on behind it.
pub open spec fn told(next: u64, list: Seq<Record>, spare: Seq<u8>) -> Option<Seq<Change>> {
    changes_from(
        reply_bytes(next, list) + spare,
        reply_bytes(next, list).len() as int,
        HEADER_SIZE as int,
    )
}

proof fn lemma_first_told(next: u64, r: Record, tail: Seq<Record>, spare: Seq<u8>)
    requires
        r.fits(),
    ensures
        ({
            let end = reply_bytes(next, seq![r] + tail).len() as int;
            let b = reply_bytes(next, seq![r] + tail) + spare;
            &&& changes_from(b, end, 8) == match (
                record_change(b, 8),
                changes_from(b, end, 8int + r.size()),
            ) {
                (Some(Some(c)), Some(rest)) => Some(seq![c] + rest),
                (Some(None), Some(rest)) => Some(rest),
                _ => None,
            }
            &&& record_frn(b, 8) == r.frn
            &&& record_parent(b, 8) == r.parent_frn
            &&& record_reason(b, 8) == r.reason
            &&& record_attributes(b, 8) == r.attributes
            &&& record_units(b, 8) == Some(r.units)
            &&& b.subrange(8int + r.size(), end) == records_bytes(tail)
            &&& 8 + r.size() <= end
        }),
{
    let list = seq![r] + tail;
    let end = reply_bytes(next, list).len() as int;
    let b = reply_bytes(next, list) + spare;
    lemma_reply(next, list, spare);
    assert(list.drop_first() =~= tail);
    lemma_there(b, end, 8, r, tail);
    records_are_read_back(b, 8, r);
}

proof fn lemma_told_anywhere(
    b: Seq<u8>,
    end: int,
    at: int,
    next: u64,
    list: Seq<Record>,
    spare: Seq<u8>,
)
    requires
        0 <= at <= end <= b.len(),
        all_fit(list),
        b.subrange(at, end) == records_bytes(list),
    ensures
        changes_from(b, end, at) == told(next, list, spare),
    decreases list.len(),
{
    let size = reply_bytes(next, list).len() as int;
    let own = reply_bytes(next, list) + spare;
    lemma_reply(next, list, spare);
    if list.len() == 0 {
        assert(b.subrange(at, end).len() == 0);
        assert(own.subrange(8, size).len() == 0);
    } else {
        let r = list[0];
        let tail = list.drop_first();
        assert(r.fits());
        assert(seq![r] + tail =~= list);
        lemma_there(b, end, at, r, tail);
        lemma_there(own, size, 8, r, tail);
        records_are_read_back(b, at, r);
        records_are_read_back(own, 8, r);
        assert forall|i: int| 0 <= i < tail.len() implies (#[trigger] tail[i]).fits() by {
            assert(tail[i] == list[i + 1]);
        }
        lemma_told_anywhere(b, end, at + r.size(), next, tail, spare);
        lemma_told_anywhere(own, size, 8int + r.size(), next, tail, spare);
        assert(record_change(b, at) == record_change(own, 8));
    }
}

/// A reply tells what its first record tells alone, and then what the others
/// tell.
pub proof fn records_are_told_in_order(next: u64, r: Record, tail: Seq<Record>, spare: Seq<u8>)
    requires
        r.fits(),
        all_fit(tail),
    ensures
        told(next, seq![r] + tail, spare) == match (
            told(next, seq![r], spare),
            told(next, tail, spare),
        ) {
            (Some(first), Some(rest)) => Some(first + rest),
            _ => None,
        },
        told(next, seq![], spare) == Some(Seq::<Change>::empty()),
{
    let none = Seq::<Record>::empty();
    let end = reply_bytes(next, seq![r] + tail).len() as int;
    let b = reply_bytes(next, seq![r] + tail) + spare;
    let size = reply_bytes(next, seq![r]).len() as int;
    let one = reply_bytes(next, seq![r]) + spare;
    assert(seq![r] + none =~= seq![r]);
    lemma_first_told(next, r, tail, spare);
    lemma_first_told(next, r, none, spare);
    lemma_told_anywhere(b, end, 8int + r.size(), next, tail, spare);
    lemma_reply(next, none, spare);
    lemma_little_endian(next as nat, 8);
    assert(one.subrange(8int + r.size(), size).len() == 0);
    assert(changes_from(one, size, 8int + r.size()) == Some(Seq::<Change>::empty()));
    assert(record_change(b, 8) == record_change(one, 8));
    if let (Some(first), Some(rest)) = (told(next, seq![r], spare), told(next, tail, spare)) {
        if first.len() == 0 {
            assert(first + rest =~= rest);
        } else {
            assert(first =~= seq![first[0]]);
        }
    }
}

/// The record of a deletion tells of the deletion of its file and of nothing
/// else, whatever else happened to the file and whatever its name is. An index
/// that follows it has no such entry any more, and every other one as before.
pub proof fn deletions_are_told(
    next: u64,
    r: Record,
    entries: Map<u64, Entry>,
    spare: Seq<u8>,
)
    requires
        r.fits(),
        r.reason & 0x200 != 0,
    ensures
        told(next, seq![r], spare) == Some(seq![Change::Delete(r.frn)]),
        !crate::index::entries_after(entries, told(next, seq![r], spare)->0).contains_key(r.frn),
        forall|k: u64|
            k != r.frn && entries.contains_key(k) ==> #[trigger] crate::index::entries_after(
                entries,
                told(next, seq![r], spare)->0,
            ).contains_key(k) && crate::index::entries_after(entries, told(next, seq![r], spare)->0)[k]
                == entries[k],
{
    let none = Seq::<Record>::empty();
    let end = reply_bytes(next, seq![r]).len() as int;
    let b = reply_bytes(next, seq![r]) + spare;
    assert(seq![r] + none =~= seq![r]);
    lemma_first_told(next, r, none, spare);
    assert(b.subrange(8int + r.size(), end).len() == 0);
    let changes = seq![Change::Delete(r.frn)];
    assert(changes + Seq::<Change>::empty() =~= changes);
    assert(changes.drop_last() =~= seq![]);
    reveal_with_fuel(crate::index::entries_after, 2);
}

/// The record of a file that was created or got a new name, and was not
/// deleted, tells of the entry. An index that follows it has the entry under
/// its number, and every other one as before.
pub proof fn new_names_are_told(
    next: u64,
    r: Record,
    e: Entry,
    entries: Map<u64, Entry>,
    spare: Seq<u8>,
)
    requires
        r.fits(),
        r.reason & 0x200 == 0,
        r.reason & 0x100 != 0 || r.reason & 0x2000 != 0,
        r.frn == e.frn,
        r.parent_frn == e.parent_frn,
        r.attributes == e.attributes,
        r.units == ntfs::utf16(e.name),
    ensures
        told(next, seq![r], spare) == Some(seq![Change::Upsert(e)]),
        crate::index::entries_after(entries, told(next, seq![r], spare)->0) == entries.insert(e.frn, e),
{
    let none = Seq::<Record>::empty();
    let end = reply_bytes(next, seq![r]).len() as int;
    let b = reply_bytes(next, seq![r]) + spare;
    assert(seq![r] + none =~= seq![r]);
    lemma_first_told(next, r, none, spare);
    ntfs::utf16_round_trip(e.name);
    assert(b.subrange(8int + r.size(), end).len() == 0);
    let changes = seq![Change::Upsert(e)];
    assert(changes + Seq::<Change>::empty() =~= changes);
    assert(changes.drop_last() =~= seq![]);
    reveal_with_fuel(crate::index::entries_after, 2);
}

/// A record of anything else tells nothing that an index needs.
pub proof fn other_reasons_are_passed_over(next: u64, r: Record, spare: Seq<u8>)
    requires
        r.fits(),
        r.reason & 0x200 == 0,
        r.reason & 0x100 == 0,
        r.reason & 0x2000 == 0,
    ensures
        told(next, seq![r], spare) == Some(Seq::<Change>::empty()),
{
    let none = Seq::<Record>::empty();
    let end = reply_bytes(next, seq![r]).len() as int;
    let b = reply_bytes(next, seq![r]) + spare;
    assert(seq![r] + none =~= seq![r]);
    lemma_first_told(next, r, none, spare);
    assert(b.subrange(8int + r.size(), end).len() == 0);
}

/// A name that is needed and is no UTF-16 spoils the reply, and one that is not
/// needed does not.
pub proof fn only_needed_names_are_read(next: u64, r: Record, spare: Seq<u8>)
    requires
        r.fits(),
        ntfs::from_utf16(r.units) is None,
    ensures
        told(next, seq![r], spare) is None <==> r.reason & 0x200 == 0 && (r.reason & 0x100 != 0 || r.reason
            & 0x2000 != 0),
{
    let none = Seq::<Record>::empty();
    let end = reply_bytes(next, seq![r]).len() as int;
    let b = reply_bytes(next, seq![r]) + spare;
    assert(seq![r] + none =~= seq![r]);
    lemma_first_told(next, r, none, spare);
    assert(b.subrange(8int + r.size(), end).len() == 0);
}

/// Where to read on in the journal is the number in front of the reply, as a
/// signed one.
pub proof fn journal_position_is_read_back(
    next: i64,
    word: u64,
    list: Seq<Record>,
    spare: Seq<u8>,
)
    requires
        next >= 0 ==> word == next,
        next < 0 ==> word == next + 0x1_0000_0000_0000_0000,
    ensures
        signed(number(reply_bytes(word, list) + spare, 0, 8)) == next,
{
    lemma_reply(word, list, spare);
}

} // verus!
