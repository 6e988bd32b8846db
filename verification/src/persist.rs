//! The file of an index: a mark, and behind it the compressed form of what the
//! index holds. A file without the mark holds it uncompressed.

use vstd::prelude::*;
use std::collections::HashMap;
use crate::arena::SearchArena;
use crate::bytes;
use crate::entry;
use crate::entry::Entry;
use crate::entry::FileEntry;
use crate::index;
use crate::index::FileIndex;
use crate::index::Index;
use crate::numbers;
use crate::path;
use crate::text;

verus! {

broadcast use vstd::std_specs::hash::group_hash_axioms;

/// The mark of a compressed index: `RAYOZST1`.
pub open spec fn magic() -> Seq<u8> {
    seq![0x52u8, 0x41, 0x59, 0x4F, 0x5A, 0x53, 0x54, 0x31]
}

/// The level at which an index is compressed.
pub const INDEX_COMPRESSION_LEVEL: i32 = 1;

fn magic_bytes() -> (r: Vec<u8>)
    ensures
        r@ == magic(),
{
    let mut v: Vec<u8> = Vec::new();
    v.push(0x52);
    v.push(0x41);
    v.push(0x59);
    v.push(0x4F);
    v.push(0x5A);
    v.push(0x53);
    v.push(0x54);
    v.push(0x31);
    assert(v@ =~= magic());
    v
}

// ---------------------------------------------------------------------------
// Compression
// ---------------------------------------------------------------------------

/// What `zstd::stream::encode_all` makes of the bytes at a level.
pub uninterp spec fn zstd_encoded(data: Seq<u8>, level: int) -> Seq<u8>;

/// What `zstd::stream::decode_all` makes of the bytes; none where they are no
/// compressed data.
pub uninterp spec fn zstd_decoded(data: Seq<u8>) -> Option<Seq<u8>>;

/// `zstd::stream::encode_all` compresses the bytes at the level, and `decode_all`
/// of what it gives are the bytes again. Whether it succeeds is left open: it
/// fails where the machine gives it no memory.
#[verifier::external_body]
fn compress(data: &[u8], level: i32) -> (r: Result<Vec<u8>, String>)
    ensures
        r matches Ok(c) ==> c@ == zstd_encoded(data@, level as int) && zstd_decoded(c@) == Some(
            data@,
        ),
{
    zstd::stream::encode_all(data, level).map_err(|err| err.to_string())
}

/// `zstd::stream::decode_all` gives the bytes that were compressed. An error is
/// left open: it comes where the data are no compressed bytes, and also where
/// the machine gives it no memory.
#[verifier::external_body]
fn decompress(data: &[u8]) -> (r: Result<Vec<u8>, String>)
    ensures
        r matches Ok(d) ==> zstd_decoded(data@) == Some(d@),
{
    zstd::stream::decode_all(data).map_err(|err| err.to_string())
}

// ---------------------------------------------------------------------------
// Frames
// ---------------------------------------------------------------------------

/// What a file holds: compressed bytes behind the mark, or bytes as they are.
pub enum Payload {
    Compressed(Seq<u8>),
    Plain(Seq<u8>),
}

/// The contents of a file.
pub open spec fn payload_of(file: Seq<u8>) -> Payload {
    if file.len() >= 8 && file.subrange(0, 8) == magic() {
        Payload::Compressed(file.subrange(8, file.len() as int))
    } else {
        Payload::Plain(file)
    }
}

/// The file that holds compressed bytes.
pub fn framed(compressed: &[u8]) -> (r: Vec<u8>)
    ensures
        r@ == magic() + compressed@,
        payload_of(r@) == Payload::Compressed(compressed@),
{
    let mut r = magic_bytes();
    let mut i: usize = 0;
    assert(r@ =~= magic() + compressed@.take(0));
    while i < compressed.len()
        invariant
            i <= compressed@.len(),
            r@ == magic() + compressed@.take(i as int),
        decreases compressed@.len() - i,
    {
        r.push(compressed[i]);
        i += 1;
        assert(r@ =~= magic() + compressed@.take(i as int));
    }
    assert(compressed@.take(i as int) =~= compressed@);
    assert(r@.subrange(0, 8) =~= magic());
    assert(r@.subrange(8, r@.len() as int) =~= compressed@);
    r
}

/// Whether a file starts with the mark.
pub fn is_compressed(file: &[u8]) -> (r: bool)
    ensures
        r == (payload_of(file@) is Compressed),
{
    let mark = magic_bytes();
    if file.len() < 8 {
        return false;
    }
    let mut i: usize = 0;
    while i < 8
        invariant
            i <= 8 <= file@.len(),
            mark@ == magic(),
            forall|k: int| 0 <= k < i ==> file@[k] == magic()[k],
        decreases 8 - i,
    {
        if file[i] != mark[i] {
            assert(file@.subrange(0, 8)[i as int] != magic()[i as int]);
            return false;
        }
        i += 1;
    }
    assert(file@.subrange(0, 8) =~= magic());
    true
}

/// The file for an encoded index: the mark and the compressed bytes. Whether the
/// bytes can be compressed rests on the memory that the machine has for it;
/// `file_of` says what comes of either outcome.
pub fn encode_file(encoded: &[u8]) -> (r: Result<Vec<u8>, String>)
    ensures
        r matches Ok(file) ==> file@ == magic() + zstd_encoded(
            encoded@,
            INDEX_COMPRESSION_LEVEL as int,
        ) && payload_of(file@) is Compressed && decoded(file@) == Some(encoded@),
{
    file_of(compress(encoded, INDEX_COMPRESSION_LEVEL))
}

/// The file for what the compression of an encoded index came to: the mark and
/// the compressed bytes, or the error.
pub fn file_of(compressed: Result<Vec<u8>, String>) -> (r: Result<Vec<u8>, String>)
    ensures
        match compressed {
            Ok(c) => r matches Ok(file) && file@ == magic() + c@ && payload_of(file@)
                == Payload::Compressed(c@),
            Err(e) => r == Err::<Vec<u8>, String>(e),
        },
{
    match compressed {
        Ok(c) => Ok(framed(c.as_slice())),
        Err(e) => Err(e),
    }
}

/// The encoded index that a file holds; none where the compressed bytes are
/// damaged.
pub open spec fn decoded(file: Seq<u8>) -> Option<Seq<u8>> {
    match payload_of(file) {
        Payload::Compressed(c) => zstd_decoded(c),
        Payload::Plain(p) => Some(p),
    }
}

/// The encoded index that a file holds. A file without the mark is always read.
/// One with it is an error where the compressed bytes are damaged, and also where
/// the machine has no memory to decompress them.
pub fn decode_file(file: &[u8]) -> (r: Result<Vec<u8>, String>)
    ensures
        match r {
            Ok(encoded) => decoded(file@) == Some(encoded@),
            Err(_) => payload_of(file@) is Compressed,
        },
{
    if is_compressed(file) {
        decompress(vstd::slice::slice_subrange(file, 8, file.len()))
    } else {
        Ok(bytes::copy_bytes(file))
    }
}

/// Reading a file gives back what was written to it.
pub proof fn file_round_trip(encoded: Seq<u8>, compressed: Seq<u8>)
    requires
        zstd_decoded(compressed) == Some(encoded),
    ensures
        decoded(magic() + compressed) == Some(encoded),
{
    let file = magic() + compressed;
    assert(file.subrange(0, 8) =~= magic());
    assert(file.subrange(8, file.len() as int) =~= compressed);
}

/// A file from before compression is read as it is, unless it starts with the
/// mark.
pub proof fn plain_file_is_read(encoded: Seq<u8>)
    requires
        !(encoded.len() >= 8 && encoded.subrange(0, 8) == magic()),
    ensures
        decoded(encoded) == Some(encoded),
{
}

// ---------------------------------------------------------------------------
// What is stored of an index
// ---------------------------------------------------------------------------

/// What an index file holds of an index.
#[verifier::ext_equal]
pub struct Stored {
    pub drive: Seq<char>,
    pub entries: Map<u64, Entry>,
    pub journal_id: u64,
    pub next_usn: i64,
    pub indexed_at_epoch_secs: u64,
}

/// What is stored of an index: all but the arena and the trigram index, which
/// are built from the entries.
pub open spec fn stored(ix: Index) -> Stored {
    Stored {
        drive: ix.drive,
        entries: ix.entries,
        journal_id: ix.journal_id,
        next_usn: ix.next_usn,
        indexed_at_epoch_secs: ix.indexed_at_epoch_secs,
    }
}

/// The fields of an entry, in the order in which they are stored.
pub open spec fn row_of(e: Entry) -> (u64, u64, Seq<char>, u32) {
    (e.frn, e.parent_frn, e.name, e.attributes)
}

/// The entry with the given fields.
pub open spec fn entry_of(row: (u64, u64, Seq<char>, u32)) -> Entry {
    Entry { frn: row.0, parent_frn: row.1, name: row.2, attributes: row.3 }
}

/// The fields of the entries, by their keys.
pub open spec fn rows_of(m: Map<u64, Entry>) -> Map<u64, (u64, u64, Seq<char>, u32)> {
    Map::new(|k: u64| m.contains_key(k), |k: u64| row_of(m[k]))
}

/// The entries with the given fields, by their keys.
pub open spec fn entries_of(m: Map<u64, (u64, u64, Seq<char>, u32)>) -> Map<u64, Entry> {
    Map::new(|k: u64| m.contains_key(k), |k: u64| entry_of(m[k]))
}

/// The values of a map of fields.
pub open spec fn row_values(m: Map<u64, (u64, u64, String, u32)>) -> Map<
    u64,
    (u64, u64, Seq<char>, u32),
> {
    Map::new(|k: u64| m.contains_key(k), |k: u64| (m[k].0, m[k].1, m[k].2@, m[k].3))
}

/// What `bincode::deserialize` reads from the bytes: the drive, the fields of
/// the entries, the journal, where to read on in it, and the time. None where
/// the bytes do not hold that.
pub uninterp spec fn bincode_decoded(data: Seq<u8>) -> Option<
    (Seq<char>, Map<u64, (u64, u64, Seq<char>, u32)>, u64, i64, u64),
>;

/// `bincode::serialize` of the fields gives bytes from which
/// `bincode::deserialize` reads them again. It does not fail on them. The order
/// in which the entries stand in the bytes is left open, as it is that in which
/// the map is walked.
#[verifier::external_body]
fn serialize_fields(
    drive: &str,
    rows: &HashMap<u64, (u64, u64, String, u32)>,
    journal_id: u64,
    next_usn: i64,
    indexed_at_epoch_secs: u64,
) -> (r: Result<Vec<u8>, String>)
    ensures
        r is Ok,
        r matches Ok(bytes) ==> bincode_decoded(bytes@) == Some(
            (drive@, row_values(rows@), journal_id, next_usn, indexed_at_epoch_secs),
        ),
{
    let fields = (drive, rows, journal_id, next_usn, indexed_at_epoch_secs);
    bincode::serialize(&fields).map_err(|err| err.to_string())
}

/// `bincode::deserialize` of the fields; an error where the bytes do not hold
/// them.
#[verifier::external_body]
fn deserialize_fields(data: &[u8]) -> (r: Result<
    (String, HashMap<u64, (u64, u64, String, u32)>, u64, i64, u64),
    String,
>)
    ensures
        match r {
            Ok(f) => bincode_decoded(data@) == Some((f.0@, row_values(f.1@), f.2, f.3, f.4)),
            Err(_) => bincode_decoded(data@) is None,
        },
{
    bincode::deserialize(data).map_err(|err| err.to_string())
}

/// What bytes hold of an index.
pub open spec fn stored_in(data: Seq<u8>) -> Option<Stored> {
    match bincode_decoded(data) {
        Some(f) => Some(
            Stored {
                drive: f.0,
                entries: entries_of(f.1),
                journal_id: f.2,
                next_usn: f.3,
                indexed_at_epoch_secs: f.4,
            },
        ),
        None => None,
    }
}

/// The fields of the entries of a map.
fn fields_of(m: &HashMap<u64, FileEntry>) -> (r: HashMap<u64, (u64, u64, String, u32)>)
    ensures
        row_values(r@) == rows_of(entry::entry_map(m@)),
{
    let mut r: HashMap<u64, (u64, u64, String, u32)> = HashMap::new();
    let iter = m.iter();
    let ghost all = vstd::std_specs::iter::IteratorSpec::remaining(&iter);
    for pair in it: iter
        invariant
            it.seq() == all,
            forall|i: int|
                0 <= i < all.len() ==> m@.contains_key(*(#[trigger] all[i]).0) && m@[*all[i].0]
                    == *all[i].1,
            forall|i: int| 0 <= i < it.index() ==> r@.contains_key(*(#[trigger] all[i]).0),
            forall|k: u64| #[trigger]
                r@.contains_key(k) ==> m@.contains_key(k) && row_values(r@)[k] == row_of(m@[k]@),
    {
        let ghost before = r@;
        let e = pair.1;
        r.insert(
            *pair.0,
            (e.frn, e.parent_frn, text::copy_text(e.name.as_str()), e.attributes),
        );
        assert forall|k: u64| #[trigger] r@.contains_key(k) implies m@.contains_key(k)
            && row_values(r@)[k] == row_of(m@[k]@) by {
            if k != *pair.0 {
                assert(before.contains_key(k));
                assert(row_values(before)[k] == row_values(r@)[k]);
            }
        }
    }
    proof {
        let want = rows_of(entry::entry_map(m@));
        assert forall|k: u64| m@.contains_key(k) implies #[trigger] r@.contains_key(k) by {
            assert(all.contains((&k, &m@[k])));
            let i = choose|i: int| 0 <= i < all.len() && all[i] == (&k, &m@[k]);
            assert(*all[i].0 == k);
        }
        assert(row_values(r@) =~= want);
    }
    r
}

/// The entries with the fields of a map.
fn entries_with(m: &HashMap<u64, (u64, u64, String, u32)>) -> (r: HashMap<u64, FileEntry>)
    ensures
        entry::entry_map(r@) == entries_of(row_values(m@)),
{
    let mut r: HashMap<u64, FileEntry> = HashMap::new();
    let iter = m.iter();
    let ghost all = vstd::std_specs::iter::IteratorSpec::remaining(&iter);
    for pair in it: iter
        invariant
            it.seq() == all,
            forall|i: int|
                0 <= i < all.len() ==> m@.contains_key(*(#[trigger] all[i]).0) && m@[*all[i].0]
                    == *all[i].1,
            forall|i: int| 0 <= i < it.index() ==> r@.contains_key(*(#[trigger] all[i]).0),
            forall|k: u64| #[trigger]
                r@.contains_key(k) ==> m@.contains_key(k) && r@[k]@ == entry_of(
                    row_values(m@)[k],
                ),
    {
        let ghost before = r@;
        let row = pair.1;
        r.insert(
            *pair.0,
            FileEntry {
                frn: row.0,
                parent_frn: row.1,
                name: text::copy_text(row.2.as_str()),
                attributes: row.3,
            },
        );
        assert forall|k: u64| #[trigger] r@.contains_key(k) implies m@.contains_key(k)
            && r@[k]@ == entry_of(row_values(m@)[k]) by {
            if k != *pair.0 {
                assert(before.contains_key(k));
            }
        }
    }
    proof {
        assert forall|k: u64| m@.contains_key(k) implies #[trigger] r@.contains_key(k) by {
            assert(all.contains((&k, &m@[k])));
            let i = choose|i: int| 0 <= i < all.len() && all[i] == (&k, &m@[k]);
            assert(*all[i].0 == k);
        }
        assert(entry::entry_map(r@) =~= entries_of(row_values(m@)));
    }
    r
}

// ---------------------------------------------------------------------------
// Loading and saving
// ---------------------------------------------------------------------------

/// Why an index could not be turned into a file, or a file into an index; with
/// the reason.
#[derive(Debug)]
pub enum PersistError {
    Serialize(String),
    Compress(String),
    Decompress(String),
    Deserialize(String),
}

/// What a file holds of an index; none where it is damaged.
pub open spec fn stored_in_file(file: Seq<u8>) -> Option<Stored> {
    match decoded(file) {
        Some(encoded) => stored_in(encoded),
        None => None,
    }
}

/// The bytes that hold what is stored of an index.
pub fn index_bytes(index: &FileIndex) -> (r: Result<Vec<u8>, PersistError>)
    ensures
        r matches Ok(encoded) && stored_in(encoded@) == Some(stored(index@)),
{
    let rows = fields_of(&index.entries);
    let fields = serialize_fields(
        index.drive.as_str(),
        &rows,
        index.journal_id,
        index.next_usn,
        index.indexed_at_epoch_secs,
    );
    match fields {
        Ok(encoded) => {
            assert(stored_in(encoded@)->0.entries =~= index@.entries) by {
                let m = entry::entry_map(index.entries@);
                assert forall|k: u64| m.contains_key(k) implies #[trigger] entries_of(
                    rows_of(m),
                )[k] == m[k] by {}
            }
            Ok(encoded)
        },
        Err(why) => Err(PersistError::Serialize(why)),
    }
}

/// The file of an index. Whether there is one rests on the memory that the
/// machine has for the compression, and on nothing else; `index_bytes` says what
/// is compressed, and `file_of` what comes of either outcome.
pub fn encode_index(index: &FileIndex) -> (r: Result<Vec<u8>, PersistError>)
    ensures
        match r {
            Ok(file) => payload_of(file@) is Compressed && stored_in_file(file@) == Some(
                stored(index@),
            ),
            Err(e) => e is Compress,
        },
{
    let encoded = match index_bytes(index) {
        Ok(encoded) => encoded,
        Err(why) => {
            return Err(why);
        },
    };
    match encode_file(encoded.as_slice()) {
        Ok(file) => Ok(file),
        Err(why) => Err(PersistError::Compress(why)),
    }
}

/// The index that a file holds, its arena built anew and without a trigram
/// index. A file without the mark is read exactly where it holds an index; of
/// one with it, the decompression may also fail for want of memory;
/// `index_from_decoded` says what comes of either outcome.
pub fn decode_index(file: &[u8]) -> (r: Result<FileIndex, PersistError>)
    ensures
        match r {
            Ok(index) => index.wf() && stored_in_file(file@) == Some(stored(index@))
                && index::arena_of(index@.slots, index@.entries) && index@.lists is None,
            Err(PersistError::Decompress(_)) => payload_of(file@) is Compressed,
            Err(e) => e is Deserialize && decoded(file@) is Some && stored_in_file(file@) is None,
        },
{
    index_from_decoded(decode_file(file))
}

/// The index from what reading its file came to: what the bytes hold, or the
/// error.
pub fn index_from_decoded(decompressed: Result<Vec<u8>, String>) -> (r: Result<
    FileIndex,
    PersistError,
>)
    ensures
        match decompressed {
            Err(why) => r matches Err(PersistError::Decompress(w)) && w == why,
            Ok(encoded) => match stored_in(encoded@) {
                Some(s) => r matches Ok(index) && index.wf() && stored(index@) == s
                    && index::arena_of(index@.slots, index@.entries) && index@.lists is None,
                None => r matches Err(PersistError::Deserialize(_)),
            },
        },
{
    let encoded = match decompressed {
        Ok(encoded) => encoded,
        Err(why) => {
            return Err(PersistError::Decompress(why));
        },
    };
    match deserialize_fields(encoded.as_slice()) {
        Ok((drive, rows, journal_id, next_usn, indexed_at_epoch_secs)) => Ok(
            restore_index(drive, entries_with(&rows), journal_id, next_usn, indexed_at_epoch_secs),
        ),
        Err(why) => Err(PersistError::Deserialize(why)),
    }
}

/// Loading the file of an index gives the index back: its drive, its entries,
/// its place in the journal and its time. It has no trigram index, whatever the
/// one that was saved had, and can be searched at once.
pub proof fn saved_index_is_loaded(saved: Index, file: Seq<u8>, loaded: Index)
    requires
        stored_in_file(file) == Some(stored(saved)),
        stored_in_file(file) == Some(stored(loaded)),
        index::arena_of(loaded.slots, loaded.entries),
        loaded.lists is None,
    ensures
        loaded == (Index { slots: loaded.slots, lists: None, ..saved }),
        index::keyed(saved.entries) ==> index::synced(loaded.slots, saved.entries),
{
    if index::keyed(saved.entries) {
        index::built_arena_is_synced(loaded.slots, loaded.entries);
    }
}

/// The file of an index is sound: it holds bytes, and they hold the index. Loading
/// it can fail at nothing but reading those bytes.
pub proof fn saved_index_can_be_loaded(saved: Index, file: Seq<u8>)
    requires
        stored_in_file(file) == Some(stored(saved)),
    ensures
        decoded(file) matches Some(unpacked) && stored_in(unpacked) == Some(stored(saved)),
{
}

/// The index with the contents that were read, its arena built anew.
pub fn restore_index(
    drive: String,
    entries: HashMap<u64, FileEntry>,
    journal_id: u64,
    next_usn: i64,
    indexed_at_epoch_secs: u64,
) -> (r: FileIndex)
    ensures
        r.wf(),
        r@.drive == drive@,
        r@.entries == entry::entry_map(entries@),
        r@.journal_id == journal_id,
        r@.next_usn == next_usn,
        r@.indexed_at_epoch_secs == indexed_at_epoch_secs,
        index::arena_of(r@.slots, r@.entries),
        r@.lists is None,
{
    let mut index = FileIndex {
        drive,
        entries,
        journal_id,
        next_usn,
        indexed_at_epoch_secs,
        search_arena: SearchArena::default(),
        trigram_index: None,
    };
    index.rebuild_search_arena();
    index
}

/// The path that an index is written to before it takes the place of the old
/// one: in the same directory, with the number of the process and the time.
pub open spec fn temp_path(path: Seq<char>, process: nat, stamp: nat) -> Seq<char> {
    let name = match path::file_name(path) {
        Some(name) => name,
        None => "index.rayo"@,
    };
    path::with_file_name(
        path,
        name + ".tmp-"@ + numbers::decimal(process) + "-"@ + numbers::decimal(stamp),
    )
}

/// The path that an index is written to before it takes the place of the old
/// one.
pub fn build_temp_index_path(path: &str, process: u32, stamp: u128) -> (r: String)
    ensures
        r@ == temp_path(path@, process as nat, stamp as nat),
{
    let mut name = match path::name_of(path) {
        Some(name) => name,
        None => text::copy_text("index.rayo"),
    };
    text::push_text(&mut name, ".tmp-");
    text::push_text(&mut name, numbers::number_text(process as u128).as_str());
    text::push_text(&mut name, "-");
    text::push_text(&mut name, numbers::number_text(stamp).as_str());
    path::renamed(path, name.as_str())
}

/// What is stored of an index is its drive, each of its entries with all that
/// belongs to it, its place in the journal and its time; nothing else counts.
pub proof fn stored_indexes_are_the_same(a: Index, b: Index)
    ensures
        stored(a) == stored(b) <==> a.drive == b.drive && a.entries == b.entries && a.journal_id
            == b.journal_id && a.next_usn == b.next_usn && a.indexed_at_epoch_secs
            == b.indexed_at_epoch_secs,
{
}

/// An entry is read back from its fields, and the fields of different entries
/// differ.
pub proof fn fields_are_those_of_the_entry(e: Entry)
    ensures
        entry_of(row_of(e)) == e,
        row_of(e).0 == e.frn,
        row_of(e).1 == e.parent_frn,
        row_of(e).2 == e.name,
        row_of(e).3 == e.attributes,
{
}

/// A file is compressed exactly where it starts with the eight bytes of the mark;
/// the rest of it is what was compressed.
pub proof fn marked_files_are_compressed(body: Seq<u8>, file: Seq<u8>)
    ensures
        payload_of(
            seq![0x52u8, 0x41u8, 0x59u8, 0x4Fu8, 0x5Au8, 0x53u8, 0x54u8, 0x31u8] + body,
        ) == Payload::Compressed(body),
        file.len() < 8 || file.take(8) != seq![
            0x52u8,
            0x41u8,
            0x59u8,
            0x4Fu8,
            0x5Au8,
            0x53u8,
            0x54u8,
            0x31u8,
        ] ==> payload_of(file) == Payload::Plain(file),
{
    let mark = seq![0x52u8, 0x41u8, 0x59u8, 0x4Fu8, 0x5Au8, 0x53u8, 0x54u8, 0x31u8];
    let whole = mark + body;
    assert(magic() =~= mark);
    assert(whole.subrange(0, 8) =~= mark);
    assert(whole.subrange(8, whole.len() as int) =~= body);
    if file.len() >= 8 {
        assert(file.subrange(0, 8) =~= file.take(8));
    }
}

/// An index is first written beside its place, under its name with the number of
/// the process and the time behind it.
pub proof fn files_are_first_written_beside_their_place(
    dir: Seq<char>,
    name: Seq<char>,
    process: u64,
    stamp: u64,
)
    requires
        dir.len() > 4,
        'a' <= dir[0] <= 'z' || 'A' <= dir[0] <= 'Z',
        dir[1] == ':',
        dir[2] == '\\',
        dir.last() == '\\',
        dir[dir.len() - 2] != '\\' && dir[dir.len() - 2] != '/' && dir[dir.len() - 2] != '.',
        path::plain_name(name),
    ensures
        temp_path(dir + name, process as nat, stamp as nat) == dir + (name + seq![
            '.',
            't',
            'm',
            'p',
            '-',
        ] + numbers::decimal(process as nat) + seq!['-'] + numbers::decimal(stamp as nat)),
{
    let up = dir.drop_last();
    let p = numbers::decimal(process as nat);
    let t = numbers::decimal(stamp as nat);
    let tmp = seq!['.', 't', 'm', 'p', '-'];
    let new = name + tmp + p + seq!['-'] + t;
    reveal_strlit(".tmp-");
    reveal_strlit("-");
    assert(".tmp-"@ =~= tmp);
    assert("-"@ =~= seq!['-']);
    path::names_stand_behind_the_last_separator(dir, name);
    assert(up.push('\\') =~= dir);
    assert(up.last() == dir[dir.len() - 2]);
    assert(up[0] == dir[0] && up[1] == dir[1] && up[2] == dir[2]);
    path::directories_stand_before_the_last_separator(up, name);
    lemma_digits(process as nat);
    lemma_digits(stamp as nat);
    assert(path::plain_name(new)) by {
        assert forall|i: int| 0 <= i < new.len() implies #[trigger] new[i] != '\\' && new[i] != '/'
            && new[i] != ':' by {
            let a = name.len();
            let b = a + 5;
            let c = b + p.len();
            if i < a {
                assert(new[i] == name[i]);
            } else if i < b {
                assert(new[i] == tmp[i - a]);
            } else if i < c {
                assert(new[i] == p[i - b]);
            } else if i == c {
                assert(new[i] == '-');
            } else {
                assert(new[i] == t[i - c - 1]);
            }
        }
        assert(new.len() > 5);
    }
    path::joining_parts_by_one_separator(up, new);
    assert(dir + new =~= up + seq!['\\'] + new);
}

proof fn lemma_digits(n: nat)
    ensures
        numbers::decimal(n).len() > 0,
        forall|i: int|
            0 <= i < numbers::decimal(n).len() ==> '0' <= #[trigger] numbers::decimal(n)[i] <= '9',
    decreases n,
{
    let d = numbers::decimal(n);
    numbers::decimals_are_digits(n);
    if n >= 10 {
        lemma_digits(n / 10);
        assert forall|i: int| 0 <= i < d.len() implies '0' <= #[trigger] d[i] <= '9' by {
            if i < d.len() - 1 {
                assert(d[i] == d.drop_last()[i]);
            } else {
                assert(d[i] == d.last());
            }
        }
    }
}

} // verus!
