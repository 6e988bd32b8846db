//! Lists of drives, and the index file of each drive.

use vstd::prelude::*;
use crate::ntfs;
use crate::ntfs::VolumeError;
use crate::path;
use crate::text;
use crate::text::CharSet;

verus! {

// ---------------------------------------------------------------------------
// Lists
// ---------------------------------------------------------------------------

/// The drives that the parts name, each once, in the order of their first
/// mention; or the first part that names none. Blank parts are skipped.
pub open spec fn named_drives(parts: Seq<Seq<char>>) -> Result<Seq<Seq<char>>, Seq<char>>
    decreases parts.len(),
{
    if parts.len() == 0 {
        Ok(seq![])
    } else {
        match named_drives(parts.drop_last()) {
            Err(part) => Err(part),
            Ok(list) => {
                let part = text::trim(parts.last());
                if part.len() == 0 {
                    Ok(list)
                } else {
                    match ntfs::drive_of(part) {
                        None => Err(part),
                        Some(drive) => if list.contains(drive) {
                            Ok(list)
                        } else {
                            Ok(list.push(drive))
                        },
                    }
                }
            },
        }
    }
}

/// What a list of drives, separated by commas, gives.
pub open spec fn drive_list(raw: Seq<char>) -> Result<Seq<Seq<char>>, Seq<char>> {
    named_drives(text::split(raw, ','))
}

/// Once a part names no drive, the parts behind it do not matter.
proof fn lemma_first_error(parts: Seq<Seq<char>>, n: int)
    requires
        0 <= n <= parts.len(),
        named_drives(parts.take(n)) is Err,
    ensures
        named_drives(parts) == named_drives(parts.take(n)),
    decreases parts.len() - n,
{
    if n == parts.len() {
        assert(parts.take(n) =~= parts);
    } else {
        assert(parts.take(n + 1).drop_last() =~= parts.take(n));
        lemma_first_error(parts, n + 1);
    }
}

/// The drives of a list separated by commas; an error where a part names no
/// drive, or where there is none.
pub fn parse_drive_list(raw: &str) -> (r: Result<Vec<String>, VolumeError>)
    ensures
        match drive_list(raw@) {
            Err(part) => r matches Err(VolumeError::InvalidDrive(given)) && given@ == part,
            Ok(list) => if list.len() == 0 {
                r == Err::<Vec<String>, VolumeError>(VolumeError::NoDrives)
            } else {
                r matches Ok(v) && text::texts(v@) == list
            },
        },
{
    let parts = text::split_text(raw, ',');
    let ghost all = text::texts(parts@);
    let mut drives: Vec<String> = Vec::new();
    let mut i: usize = 0;
    assert(all.take(0) =~= seq![]);
    assert(text::texts(drives@) =~= seq![]);
    while i < parts.len()
        invariant
            i <= parts@.len() == all.len(),
            all == text::texts(parts@),
            drive_list(raw@) == named_drives(all),
            named_drives(all.take(i as int)) == Ok::<Seq<Seq<char>>, Seq<char>>(
                text::texts(drives@),
            ),
        decreases parts@.len() - i,
    {
        let ghost had = text::texts(drives@);
        assert(all.take(i + 1).drop_last() =~= all.take(i as int));
        assert(all.take(i + 1).last() == parts@[i as int]@);
        let part = text::trimmed(parts[i].as_str());
        proof {
            text::byte_len_zero(part@);
        }
        if text::len_in_bytes(part.as_str()) != 0 {
            match ntfs::normalize_drive(part.as_str()) {
                Ok(drive) => {
                    if !text::listed(&drives, drive.as_str()) {
                        let ghost d = drive@;
                        drives.push(drive);
                        assert(text::texts(drives@) =~= had.push(d));
                    }
                },
                Err(e) => {
                    proof {
                        lemma_first_error(all, i + 1);
                    }
                    return Err(e);
                },
            }
        }
        i += 1;
    }
    assert(all.take(i as int) =~= all);
    if drives.len() == 0 {
        assert(text::texts(drives@).len() == 0);
        return Err(VolumeError::NoDrives);
    }
    Ok(drives)
}

proof fn lemma_drive_list(parts: Seq<Seq<char>>)
    requires
        named_drives(parts) is Ok,
    ensures
        named_drives(parts)->Ok_0.no_duplicates(),
        forall|i: int|
            0 <= i < named_drives(parts)->Ok_0.len() ==> ntfs::drive_of(
                #[trigger] named_drives(parts)->Ok_0[i],
            ) == Some(named_drives(parts)->Ok_0[i]),
    decreases parts.len(),
{
    if parts.len() > 0 {
        lemma_drive_list(parts.drop_last());
        let part = text::trim(parts.last());
        if part.len() > 0 {
            ntfs::drive_of_is_idempotent(part);
        }
    }
}

/// A list of drives holds each drive once, by its name.
pub proof fn drive_list_is_clean(raw: Seq<char>)
    requires
        drive_list(raw) is Ok,
    ensures
        drive_list(raw)->Ok_0.no_duplicates(),
        forall|i: int|
            0 <= i < drive_list(raw)->Ok_0.len() ==> ntfs::drive_of(
                #[trigger] drive_list(raw)->Ok_0[i],
            ) == Some(drive_list(raw)->Ok_0[i]),
{
    lemma_drive_list(text::split(raw, ','));
}

/// The word that asks for all drives, in any case.
pub open spec fn is_auto(raw: Seq<char>) -> bool {
    text::lower(raw) == text::lower("auto"@)
}

/// Whether a text asks for all drives.
pub fn asks_for_all(raw: &str) -> (r: bool)
    ensures
        r == is_auto(raw@),
{
    text::same_ignoring_case(raw, "auto")
}

/// The drives that the argument of an installation means: the word for all
/// drives, or the drives of the list, separated by commas.
pub fn service_install_drives_arg(raw: &str) -> (r: Result<String, VolumeError>)
    ensures
        is_auto(text::trim(raw@)) ==> (r matches Ok(s) && s@ == "auto"@),
        !is_auto(text::trim(raw@)) ==> match drive_list(text::trim(raw@)) {
            Err(part) => r matches Err(VolumeError::InvalidDrive(given)) && given@ == part,
            Ok(list) => if list.len() == 0 {
                r == Err::<String, VolumeError>(VolumeError::NoDrives)
            } else {
                r matches Ok(s) && s@ == text::join(list, ","@)
            },
        },
{
    let trimmed = text::trimmed(raw);
    if asks_for_all(trimmed.as_str()) {
        return Ok(text::copy_text("auto"));
    }
    match parse_drive_list(trimmed.as_str()) {
        Ok(drives) => Ok(text::joined(&drives, ",")),
        Err(e) => Err(e),
    }
}

/// The drives of the service: those that were detected where all are asked
/// for, else those of the list. The list stands in for the single drive.
pub fn parse_drives(
    default_drive: &str,
    drives_arg: Option<&str>,
    detected: Result<Vec<String>, VolumeError>,
) -> (r: Result<Vec<String>, VolumeError>)
    ensures
        ({
            let raw = match drives_arg {
                Some(list) => list@,
                None => default_drive@,
            };
            if is_auto(raw) {
                match detected {
                    Err(e) => r == Err::<Vec<String>, VolumeError>(e),
                    Ok(list) => if list@.len() == 0 {
                        r == Err::<Vec<String>, VolumeError>(VolumeError::NoNtfsDrives)
                    } else {
                        r == Ok::<Vec<String>, VolumeError>(list)
                    },
                }
            } else {
                match drive_list(raw) {
                    Err(part) => r matches Err(VolumeError::InvalidDrive(given)) && given@ == part,
                    Ok(list) => if list.len() == 0 {
                        r == Err::<Vec<String>, VolumeError>(VolumeError::NoDrives)
                    } else {
                        r matches Ok(v) && text::texts(v@) == list
                    },
                }
            }
        }),
{
    let raw = match drives_arg {
        Some(list) => list,
        None => default_drive,
    };
    if asks_for_all(raw) {
        return match detected {
            Ok(list) => {
                if list.len() == 0 {
                    Err(VolumeError::NoNtfsDrives)
                } else {
                    Ok(list)
                }
            },
            Err(e) => Err(e),
        };
    }
    parse_drive_list(raw)
}

/// The prefixes of a list separated by commas, with backslashes; blank ones
/// are skipped.
pub open spec fn prefixes(parts: Seq<Seq<char>>) -> Seq<Seq<char>>
    decreases parts.len(),
{
    if parts.len() == 0 {
        seq![]
    } else {
        let p = text::replace(text::trim(parts.last()), '/', "\\"@);
        if p.len() == 0 {
            prefixes(parts.drop_last())
        } else {
            prefixes(parts.drop_last()).push(p)
        }
    }
}

/// The prefixes of paths that are left out of an index.
pub fn parse_exclude_list(raw: Option<&str>) -> (r: Vec<String>)
    ensures
        text::texts(r@) == match raw {
            Some(list) => prefixes(text::split(list@, ',')),
            None => Seq::<Seq<char>>::empty(),
        },
{
    let mut list: Vec<String> = Vec::new();
    assert(text::texts(list@) =~= seq![]);
    let raw = match raw {
        Some(raw) => raw,
        None => {
            return list;
        },
    };
    let parts = text::split_text(raw, ',');
    let ghost all = text::texts(parts@);
    let mut i: usize = 0;
    assert(all.take(0) =~= seq![]);
    while i < parts.len()
        invariant
            i <= parts@.len() == all.len(),
            all == text::texts(parts@),
            text::texts(list@) == prefixes(all.take(i as int)),
        decreases parts@.len() - i,
    {
        let ghost had = text::texts(list@);
        assert(all.take(i + 1).drop_last() =~= all.take(i as int));
        assert(all.take(i + 1).last() == parts@[i as int]@);
        let p = text::replaced(text::trimmed(parts[i].as_str()).as_str(), '/', "\\");
        proof {
            text::byte_len_zero(p@);
        }
        if text::len_in_bytes(p.as_str()) != 0 {
            let ghost one = p@;
            list.push(p);
            assert(text::texts(list@) =~= had.push(one));
        }
        i += 1;
    }
    assert(all.take(i as int) =~= all);
    list
}

// ---------------------------------------------------------------------------
// Index files
// ---------------------------------------------------------------------------

/// The letter of a drive as it stands in file names.
pub open spec fn drive_letter(drive: Seq<char>) -> Seq<char> {
    text::lower(text::strip_end(drive, CharSet::One(':')))
}

/// The extension of an index file, with its dot.
pub open spec fn index_suffix(base: Seq<char>) -> Seq<char> {
    match path::extension(base) {
        Some(x) => if x.len() == 0 {
            x
        } else {
            seq!['.'] + x
        },
        None => seq![],
    }
}

/// What stands before the letter in the name of the index file of a drive:
/// nothing where the base is a letter itself.
pub open spec fn index_prefix(base: Seq<char>) -> Seq<char> {
    let stem = match path::file_stem(base) {
        Some(stem) => stem,
        None => "index"@,
    };
    if stem.len() == 1 && text::is_ascii_letter(stem[0]) {
        seq![]
    } else {
        stem.push('-')
    }
}

/// The name of the index file of a drive.
pub open spec fn index_name(base: Seq<char>, drive: Seq<char>) -> Seq<char> {
    index_prefix(base) + drive_letter(drive) + index_suffix(base)
}

/// The path of the index file of a drive, from the path that was given for
/// all of them.
pub open spec fn index_path(base: Seq<char>, drive: Seq<char>, multi_drive: bool) -> Seq<char> {
    if multi_drive {
        path::with_file_name(base, index_name(base, drive))
    } else {
        base
    }
}

/// The path of the index file of a drive.
pub fn drive_index_path(base: &str, drive: &str, multi_drive: bool) -> (r: String)
    ensures
        r@ == index_path(base@, drive@, multi_drive),
{
    if !multi_drive {
        return text::copy_text(base);
    }
    let letter = text::to_lower(text::without_end(drive, CharSet::One(':')).as_str());
    let stem = match path::stem_of(base) {
        Some(stem) => stem,
        None => text::copy_text("index"),
    };
    let letters = text::chars_of(stem.as_str());
    let mut name = String::new();
    if !(letters.len() == 1 && ((letters[0] >= 'a' && letters[0] <= 'z') || (letters[0] >= 'A'
        && letters[0] <= 'Z'))) {
        name = stem;
        name.push('-');
    }
    assert(name@ =~= index_prefix(base@));
    text::push_text(&mut name, letter.as_str());
    let ghost before = name@;
    if let Some(x) = path::extension_of(base) {
        proof {
            text::byte_len_zero(x@);
        }
        if text::len_in_bytes(x.as_str()) != 0 {
            name.push('.');
            text::push_text(&mut name, x.as_str());
            assert(name@ =~= before + (seq!['.'] + x@));
        } else {
            assert(name@ =~= before + x@);
        }
    } else {
        assert(name@ =~= before + Seq::<char>::empty());
    }
    path::renamed(base, name.as_str())
}

/// The path of the index file of a drive in the directory of the program's
/// data.
pub fn background_index_path(data_dir: &str, drive: &str) -> (r: String)
    ensures
        r@ == path::join(data_dir@, drive_letter(drive@) + ".rayo"@),
{
    let mut name = text::to_lower(text::without_end(drive, CharSet::One(':')).as_str());
    text::push_text(&mut name, ".rayo");
    path::joined(data_dir, name.as_str())
}

/// Drives with different letters have index files with different names.
pub proof fn drives_have_own_files(base: Seq<char>, a: Seq<char>, b: Seq<char>)
    requires
        ntfs::drive_of(a) == Some(a),
        ntfs::drive_of(b) == Some(b),
        a != b,
    ensures
        index_name(base, a) != index_name(base, b),
{
    lemma_letter(a);
    lemma_letter(b);
    let p = index_prefix(base);
    let x = p + drive_letter(a) + index_suffix(base);
    let y = p + drive_letter(b) + index_suffix(base);
    assert(x[p.len() as int] == text::lower_char(a[0]));
    assert(y[p.len() as int] == text::lower_char(b[0]));
    assert(a[0] != b[0]) by {
        if a[0] == b[0] {
            assert(a =~= b);
        }
    }
}

/// The last dot of a text that ends in a dot and a text without one.
proof fn lemma_dot_before(front: Seq<char>, back: Seq<char>)
    requires
        front.len() > 0,
        forall|i: int| 0 <= i < back.len() ==> #[trigger] back[i] != '.',
    ensures
        path::dot_of(front + (seq!['.'] + back)) == Some(front.len() as int),
{
    let s = front + (seq!['.'] + back);
    let n = front.len() + 1;
    assert forall|i: int| n <= i < s.len() implies !CharSet::One('.').has(#[trigger] s[i]) by {
        assert(s[i] == back[i - n]);
    }
    assert(s[n - 1] == '.');
    text::after_last_at(s, CharSet::One('.'), n as int);
}

/// A text without a dot that parts an extension off has none either with more
/// behind it that holds no dot.
proof fn lemma_no_dot(front: Seq<char>, back: Seq<char>)
    requires
        path::dot_of(front) is None,
        forall|i: int| 0 <= i < back.len() ==> #[trigger] back[i] != '.',
    ensures
        path::dot_of(front + back) is None,
    decreases back.len(),
{
    let dot = CharSet::One('.');
    if back.len() == 0 {
        assert(front + back =~= front);
    } else {
        let rest = back.drop_last();
        assert forall|i: int| 0 <= i < rest.len() implies #[trigger] rest[i] != '.' by {
            assert(back[i] == rest[i]);
        }
        lemma_no_dot(front, rest);
        let s = front + back;
        assert(s.drop_last() =~= front + rest);
        assert(s.last() == back[back.len() - 1]);
        assert(text::after_last(s, dot) == text::after_last(s.drop_last(), dot).push(s.last()));
    }
}

/// What stands behind the last dot of a name holds none.
proof fn lemma_behind_dot(name: Seq<char>, at: int)
    requires
        path::dot_of(name) == Some(at),
    ensures
        0 < at < name.len(),
        forall|i: int| at < i < name.len() ==> #[trigger] name[i] != '.',
    decreases name.len(),
{
    let dot = CharSet::One('.');
    if name.len() > 0 && !dot.has(name.last()) {
        let rest = name.drop_last();
        assert(text::after_last(name, dot) == text::after_last(rest, dot).push(name.last()));
        lemma_behind_dot(rest, at);
        assert forall|i: int| at < i < name.len() implies #[trigger] name[i] != '.' by {
            if i < rest.len() {
                assert(rest[i] == name[i]);
            }
        }
    }
}

/// The index file of each of several drives lies in the directory of the path
/// that was given for all of them and has its extension; its name is that of
/// the path, a dash and the letter of the drive, or the letter alone where the
/// path names a letter. For one drive, the file is the one at the path. A dot
/// that the name ends in is lost. Left out are files on a server without a share,
/// file names that read as a drive, and verbatim paths with a slash or whose start
/// another name changes.
pub proof fn drive_files_lie_beside_the_base(base: Seq<char>, drive: Seq<char>)
    requires
        ntfs::drive_of(drive) == Some(drive),
        path::file_name(base) is Some,
        path::no_lost_slash(base),
        path::verbatim(base) ==> path::floor(index_path(base, drive, true)) == path::floor(base),
        !path::lone_server(base),
        path::drive_len(index_prefix(base)) == 0,
    ensures
        index_path(base, drive, false) == base,
        path::parent(index_path(base, drive, true)) == path::parent(base),
        path::file_name(index_path(base, drive, true)) == Some(index_name(base, drive)),
        path::extension(base) != Some(Seq::<char>::empty()) ==> path::extension(
            index_path(base, drive, true),
        ) == path::extension(base) && path::file_stem(index_path(base, drive, true)) == Some(
            index_prefix(base) + drive_letter(drive),
        ),
{
    let name = path::file_name(base)->0;
    let stem = path::file_stem(base)->0;
    let front = index_prefix(base) + drive_letter(drive);
    let new = index_name(base, drive);
    lemma_letter(drive);
    path::file_names_have_no_separator(base);
    let letter = text::lower_char(drive[0]);
    assert(drive_letter(drive)[0] == letter);
    assert(front[index_prefix(base).len() as int] == letter);
    assert(new[index_prefix(base).len() as int] == letter);
    if let Some(at) = path::dot_of(name) {
        lemma_behind_dot(name, at);
    }
    assert forall|i: int| 0 <= i < new.len() implies !path::is_separator(#[trigger] new[i]) by {
        let p = index_prefix(base).len();
        if i < p {
            if i < stem.len() {
                assert(stem[i] == name[i]);
            }
        } else if i > p {
            let x = index_suffix(base);
            assert(new[i] == x[i - p - 1]);
            if i > p + 1 {
                let at = path::dot_of(name)->0;
                assert(x[i - p - 1] == name[at + 1 + (i - p - 2)]);
            }
        }
    }
    assert(!path::starts_double(new)) by {
        assert(!path::is_separator(new[0]));
    }
    assert(!path::verbatim(new));
    assert(path::drive_len(new) == 0) by {
        let p = index_prefix(base);
        if p.len() >= 2 {
            assert(new[0] == p[0] && new[1] == p[1]);
        } else {
            assert(p.len() == 0);
            if new.len() >= 2 {
                assert(new[1] == index_suffix(base)[0]);
            }
        }
    }
    assert(path::is_name(new));
    if !path::verbatim(base) {
        path::renaming_keeps_the_start(base, new);
    }
    path::renaming_stays_in_the_directory(base, new);
    match path::extension(base) {
        Some(x) => if x.len() == 0 {
            assert(x =~= Seq::<char>::empty());
        } else {
            let at = path::dot_of(name)->0;
            assert forall|i: int| 0 <= i < x.len() implies #[trigger] x[i] != '.' by {
                assert(x[i] == name[at + 1 + i]);
            }
            assert(new =~= front + (seq!['.'] + x));
            lemma_dot_before(front, x);
            assert(new.subrange(front.len() as int + 1, new.len() as int) =~= x);
            assert(new.subrange(0, front.len() as int) =~= front);
        },
        None => {
            assert(new =~= front);
            assert(path::dot_of(name) is None);
            if index_prefix(base).len() == 0 {
                let none = Seq::<char>::empty();
                assert(path::dot_of(none) is None);
                lemma_no_dot(none, new);
                assert(none + new =~= new);
            } else {
                let back = seq!['-', letter];
                assert(new =~= name + back);
                lemma_no_dot(name, back);
            }
        },
    }
}

/// Different drives have different index files.
pub proof fn drives_have_own_paths(base: Seq<char>, a: Seq<char>, b: Seq<char>)
    requires
        ntfs::drive_of(a) == Some(a),
        ntfs::drive_of(b) == Some(b),
        a != b,
    ensures
        index_path(base, a, true) != index_path(base, b, true),
{
    drives_have_own_files(base, a, b);
    lemma_letter(a);
    lemma_letter(b);
    path::renamed_path_ends_in_the_name(base, index_name(base, a));
    path::renamed_path_ends_in_the_name(base, index_name(base, b));
}

proof fn lemma_letter(drive: Seq<char>)
    requires
        ntfs::drive_of(drive) == Some(drive),
    ensures
        drive.len() == 2,
        drive[1] == ':',
        'A' <= drive[0] <= 'Z',
        drive_letter(drive) == seq![text::lower_char(drive[0])],
{
    let d = text::strip_end(
        text::strip_end(text::trim(drive), CharSet::One('\\')),
        CharSet::One(':'),
    );
    assert(drive == seq![text::upper_char(d[0]), ':']);
    assert(drive.len() == 2);
    assert(drive.last() == ':');
    assert(drive.drop_last() =~= seq![drive[0]]);
    assert(text::strip_end(drive.drop_last(), CharSet::One(':')) == drive.drop_last());
    assert(drive_letter(drive) =~= seq![text::lower_char(drive[0])]);
}

// ---------------------------------------------------------------------------
// Detection
// ---------------------------------------------------------------------------

/// What the system says of a drive.
#[derive(Debug, Clone)]
pub struct DriveReport {
    /// The letter of the drive, from 0 for `A` on.
    pub letter: u8,
    /// Whether the drive is fixed.
    pub fixed: bool,
    /// The buffer with the name of the file system, where the volume answers.
    pub file_system: Option<Vec<u16>>,
}

/// The letters whose bit is set among the first `n`, from 0 for `A` on.
pub open spec fn letters_upto(mask: u32, n: nat) -> Seq<u8>
    decreases n,
{
    if n == 0 {
        seq![]
    } else if (mask & (1u32 << ((n - 1) as u32))) != 0 {
        letters_upto(mask, (n - 1) as nat).push((n - 1) as u8)
    } else {
        letters_upto(mask, (n - 1) as nat)
    }
}

/// The letters of the drives that there are; an error where there is none.
pub fn present_letters(mask: u32) -> (r: Result<Vec<u8>, VolumeError>)
    ensures
        mask == 0 ==> r == Err::<Vec<u8>, VolumeError>(VolumeError::NoLogicalDrives),
        mask != 0 ==> (r matches Ok(v) && v@ == letters_upto(mask, 26)),
{
    if mask == 0 {
        return Err(VolumeError::NoLogicalDrives);
    }
    let mut letters: Vec<u8> = Vec::new();
    let mut i: u8 = 0;
    while i < 26
        invariant
            i <= 26,
            letters@ == letters_upto(mask, i as nat),
        decreases 26 - i,
    {
        if (mask & (1u32 << (i as u32))) != 0 {
            letters.push(i);
        }
        i += 1;
    }
    Ok(letters)
}

/// `units` without the zeros at both ends.
pub open spec fn without_zeros(units: Seq<u16>) -> Seq<u16>
    decreases units.len(),
{
    if units.len() == 0 {
        units
    } else if units[0] == 0 {
        without_zeros(units.drop_first())
    } else if units.last() == 0 {
        without_zeros(units.drop_last())
    } else {
        units
    }
}

/// The units are those of an ASCII letter, in either case.
pub open spec fn is_letter_unit(unit: u16, upper: int) -> bool {
    unit == upper || unit == upper + 32
}

/// The buffer holds the name NTFS, in any case, between zeros.
pub open spec fn names_ntfs(units: Seq<u16>) -> bool {
    let name = without_zeros(units);
    name.len() == 4 && is_letter_unit(name[0], 0x4E) && is_letter_unit(name[1], 0x54)
        && is_letter_unit(name[2], 0x46) && is_letter_unit(name[3], 0x53)
}

fn letter_unit(unit: u16, upper: u16) -> (r: bool)
    requires
        upper < 0x80,
    ensures
        r == is_letter_unit(unit, upper as int),
{
    unit == upper || unit == upper + 32
}

/// Whether the buffer names the file system NTFS.
pub fn is_ntfs_name(units: &Vec<u16>) -> (r: bool)
    ensures
        r == names_ntfs(units@),
{
    let mut from: usize = 0;
    let mut to: usize = units.len();
    assert(units@.subrange(0, units@.len() as int) =~= units@);
    while from < to && (units[from] == 0 || units[to - 1] == 0)
        invariant
            from <= to <= units@.len(),
            without_zeros(units@) == without_zeros(units@.subrange(from as int, to as int)),
        decreases to - from,
    {
        let ghost s = units@.subrange(from as int, to as int);
        assert(s.drop_first() =~= units@.subrange(from + 1, to as int));
        assert(s.drop_last() =~= units@.subrange(from as int, to - 1));
        if units[from] == 0 {
            from += 1;
        } else {
            to -= 1;
        }
    }
    let ghost name = units@.subrange(from as int, to as int);
    assert(without_zeros(units@) == name);
    to - from == 4 && letter_unit(units[from], 0x4E) && letter_unit(units[from + 1], 0x54)
        && letter_unit(units[from + 2], 0x46) && letter_unit(units[from + 3], 0x53)
}

/// The name of the drive with a letter.
pub open spec fn letter_name(letter: u8) -> Seq<char> {
    seq![(65 + letter) as u8 as char, ':']
}

/// The report is of a fixed drive whose file system is NTFS.
pub open spec fn is_fixed_ntfs(report: DriveReport) -> bool {
    report.fixed && match report.file_system {
        Some(units) => names_ntfs(units@),
        None => false,
    }
}

/// The names of the fixed drives whose file system is NTFS.
pub open spec fn ntfs_drives(reports: Seq<DriveReport>) -> Seq<Seq<char>>
    decreases reports.len(),
{
    if reports.len() == 0 {
        seq![]
    } else if is_fixed_ntfs(reports.last()) {
        ntfs_drives(reports.drop_last()).push(letter_name(reports.last().letter))
    } else {
        ntfs_drives(reports.drop_last())
    }
}

/// The fixed drives whose file system is NTFS, by what the system says of
/// each drive.
pub fn detect_fixed_ntfs_drives(reports: &Vec<DriveReport>) -> (r: Vec<String>)
    requires
        forall|i: int| 0 <= i < reports@.len() ==> (#[trigger] reports@[i]).letter < 26,
    ensures
        text::texts(r@) == ntfs_drives(reports@),
{
    let mut drives: Vec<String> = Vec::new();
    let mut i: usize = 0;
    assert(reports@.take(0) =~= seq![]);
    assert(text::texts(drives@) =~= seq![]);
    while i < reports.len()
        invariant
            i <= reports@.len(),
            forall|k: int| 0 <= k < reports@.len() ==> (#[trigger] reports@[k]).letter < 26,
            text::texts(drives@) == ntfs_drives(reports@.take(i as int)),
        decreases reports@.len() - i,
    {
        let ghost had = text::texts(drives@);
        let report = &reports[i];
        assert(reports@.take(i + 1).drop_last() =~= reports@.take(i as int));
        assert(reports@.take(i + 1).last() == *report);
        let wanted = report.fixed && match &report.file_system {
            Some(units) => is_ntfs_name(units),
            None => false,
        };
        if wanted {
            let mut name = String::new();
            name.push((65 + report.letter) as char);
            name.push(':');
            assert(name@ =~= letter_name(report.letter));
            drives.push(name);
            assert(text::texts(drives@) =~= had.push(letter_name(report.letter)));
        }
        i += 1;
    }
    assert(reports@.take(i as int) =~= reports@);
    drives
}

/// Every drive that is detected has the name that its letter means.
pub proof fn detected_drives_are_named(letter: u8)
    requires
        letter < 26,
    ensures
        ntfs::drive_of(letter_name(letter)) == Some(letter_name(letter)),
{
    let name = letter_name(letter);
    assert(text::strip_start(name, CharSet::Space) == name);
    assert(text::strip_end(name, CharSet::Space) == name);
    assert(text::strip_end(name, CharSet::One('\\')) == name);
    assert(name.drop_last() =~= seq![name[0]]);
    assert(text::strip_end(name.drop_last(), CharSet::One(':')) == name.drop_last());
    assert(text::strip_end(name, CharSet::One(':')) == name.drop_last());
}

// ---------------------------------------------------------------------------
// Laws of lists of drives
// ---------------------------------------------------------------------------

/// A list of drives is read part by part: a blank part adds nothing, a drive is
/// added once, and the first part that is no drive spoils the list.
pub proof fn drives_are_listed_part_by_part(raw: Seq<char>, part: Seq<char>)
    requires
        !part.contains(','),
    ensures
        drive_list(raw) matches Err(e) ==> drive_list(raw + seq![','] + part) == Err::<
            Seq<Seq<char>>,
            Seq<char>,
        >(e),
        drive_list(raw) matches Ok(list) ==> {
            let all = drive_list(raw + seq![','] + part);
            &&& text::trim(part).len() == 0 ==> all == Ok::<Seq<Seq<char>>, Seq<char>>(list)
            &&& text::trim(part).len() > 0 && ntfs::drive_of(text::trim(part)) is None ==> all
                == Err::<Seq<Seq<char>>, Seq<char>>(text::trim(part))
            &&& text::trim(part).len() > 0 && ntfs::drive_of(text::trim(part)) is Some ==> all
                == Ok::<Seq<Seq<char>>, Seq<char>>(
                if list.contains(ntfs::drive_of(text::trim(part))->0) {
                    list
                } else {
                    list.push(ntfs::drive_of(text::trim(part))->0)
                },
            )
        },
{
    text::pieces_add_up(raw, part, ',');
    let parts = text::split(raw + seq![','] + part, ',');
    assert(parts =~= text::split(raw, ',').push(part));
    assert(parts.drop_last() =~= text::split(raw, ','));
}

/// A list of one part is that part.
pub proof fn one_drive_is_a_list(part: Seq<char>)
    requires
        !part.contains(','),
    ensures
        text::trim(part).len() == 0 ==> drive_list(part) == Ok::<Seq<Seq<char>>, Seq<char>>(seq![]),
        text::trim(part).len() > 0 ==> drive_list(part) == match ntfs::drive_of(text::trim(part)) {
            Some(d) => Ok::<Seq<Seq<char>>, Seq<char>>(seq![d]),
            None => Err::<Seq<Seq<char>>, Seq<char>>(text::trim(part)),
        },
{
    text::pieces_add_up(seq![], part, ',');
    let parts = text::split(part, ',');
    assert(parts.drop_last() =~= seq![]);
    reveal_with_fuel(named_drives, 2);
    if let Some(d) = ntfs::drive_of(text::trim(part)) {
        assert(Seq::<Seq<char>>::empty().push(d) =~= seq![d]);
    }
}

/// The drives are asked for by the word in any case of its letters.
pub proof fn the_word_asks_for_all(raw: Seq<char>)
    ensures
        is_auto(raw) <==> raw.len() == 4 && text::same_letter(raw[0], 'a') && text::same_letter(
            raw[1],
            'u',
        ) && text::same_letter(raw[2], 't') && text::same_letter(raw[3], 'o'),
{
    reveal_strlit("auto");
    let word = "auto"@;
    assert(word =~= seq!['a', 'u', 't', 'o']);
    text::case_is_ignored(raw, word);
    if is_auto(raw) {
        assert(text::same_letter(raw[0], word[0]) && text::same_letter(raw[1], word[1]));
        assert(text::same_letter(raw[2], word[2]) && text::same_letter(raw[3], word[3]));
    }
    if raw.len() == 4 && text::same_letter(raw[0], 'a') && text::same_letter(raw[1], 'u')
        && text::same_letter(raw[2], 't') && text::same_letter(raw[3], 'o') {
        assert forall|i: int| 0 <= i < 4 implies text::same_letter(#[trigger] raw[i], word[i]) by {
            assert(i == 0 || i == 1 || i == 2 || i == 3);
        }
    }
}

/// The letters of the drives that are there are those whose bit is set, in their
/// order.
pub proof fn letters_go_by_their_bit(mask: u32, n: nat, letter: u8)
    requires
        n <= 26,
    ensures
        letters_upto(mask, n).contains(letter) <==> letter < n && (mask >> (letter as u32)) % 2
            == 1,
        forall|i: int, j: int|
            0 <= i < j < letters_upto(mask, n).len() ==> (#[trigger] letters_upto(mask, n)[i])
                < #[trigger] letters_upto(mask, n)[j],
    decreases n,
{
    let all = letters_upto(mask, n);
    if n > 0 {
        let k = (n - 1) as u32;
        let before = letters_upto(mask, (n - 1) as nat);
        letters_go_by_their_bit(mask, (n - 1) as nat, letter);
        assert(((mask & (1u32 << k)) != 0) == ((mask >> k) % 2 == 1)) by (bit_vector)
            requires
                k < 26,
        ;
        assert forall|i: int| 0 <= i < before.len() implies #[trigger] before[i] < n - 1 by {
            letters_go_by_their_bit(mask, (n - 1) as nat, before[i]);
            assert(before.contains(before[i]));
        }
        if (mask & (1u32 << k)) != 0 {
            assert(all =~= before.push(k as u8));
            if all.contains(letter) {
                let i = choose|i: int| 0 <= i < all.len() && all[i] == letter;
                if i < before.len() {
                    assert(before[i] == letter);
                    assert(before.contains(letter));
                }
            }
            if before.contains(letter) {
                let i = choose|i: int| 0 <= i < before.len() && before[i] == letter;
                assert(all[i] == letter);
            }
            if letter == k as u8 {
                assert(all[before.len() as int] == letter);
            }
        }
    }
}

/// A drive is detected exactly where it is fixed and its volume says that it is
/// NTFS.
pub proof fn fixed_ntfs_drives_are_detected(reports: Seq<DriveReport>, name: Seq<char>)
    ensures
        ntfs_drives(reports).contains(name) <==> exists|i: int|
            0 <= i < reports.len() && (#[trigger] reports[i]).fixed && (
            reports[i].file_system matches Some(units) && names_ntfs(units@)) && letter_name(
                reports[i].letter,
            ) == name,
        ntfs_drives(reports).len() <= reports.len(),
    decreases reports.len(),
{
    if reports.len() > 0 {
        let rest = reports.drop_last();
        let before = ntfs_drives(rest);
        let all = ntfs_drives(reports);
        fixed_ntfs_drives_are_detected(rest, name);
        if all.contains(name) {
            let i = choose|i: int| 0 <= i < all.len() && all[i] == name;
            if i < before.len() {
                assert(before[i] == name);
                assert(before.contains(name));
                let k = choose|k: int|
                    0 <= k < rest.len() && (#[trigger] rest[k]).fixed && (
                    rest[k].file_system matches Some(units) && names_ntfs(units@)) && letter_name(
                        rest[k].letter,
                    ) == name;
                assert(reports[k] == rest[k]);
            } else {
                assert(reports[reports.len() - 1] == reports.last());
            }
        }
        if exists|i: int|
            0 <= i < reports.len() && (#[trigger] reports[i]).fixed && (
            reports[i].file_system matches Some(units) && names_ntfs(units@)) && letter_name(
                reports[i].letter,
            ) == name {
            let k = choose|i: int|
                0 <= i < reports.len() && (#[trigger] reports[i]).fixed && (
                reports[i].file_system matches Some(units) && names_ntfs(units@)) && letter_name(
                    reports[i].letter,
                ) == name;
            if k < rest.len() {
                assert(rest[k] == reports[k]);
                let i = choose|i: int| 0 <= i < before.len() && before[i] == name;
                assert(all[i] == name);
            } else {
                assert(all[all.len() - 1] == name);
            }
        }
    }
}

/// A buffer names the file system NTFS by these four letters, in any case, with
/// nothing but zeros around them.
pub proof fn ntfs_is_known_by_its_name(
    before: Seq<u16>,
    n: u16,
    t: u16,
    f: u16,
    s: u16,
    behind: Seq<u16>,
)
    requires
        forall|i: int| 0 <= i < before.len() ==> #[trigger] before[i] == 0,
        forall|i: int| 0 <= i < behind.len() ==> #[trigger] behind[i] == 0,
        n != 0 && t != 0 && f != 0 && s != 0,
    ensures
        names_ntfs(before + seq![n, t, f, s] + behind) <==> (n == 78 || n == 110) && (t == 84 || t
            == 116) && (f == 70 || f == 102) && (s == 83 || s == 115),
{
    lemma_zeros(before, seq![n, t, f, s], behind);
}

proof fn lemma_zeros(before: Seq<u16>, name: Seq<u16>, behind: Seq<u16>)
    requires
        forall|i: int| 0 <= i < before.len() ==> #[trigger] before[i] == 0,
        forall|i: int| 0 <= i < behind.len() ==> #[trigger] behind[i] == 0,
        name.len() > 0,
        name[0] != 0,
        name.last() != 0,
    ensures
        without_zeros(before + name + behind) == name,
    decreases before.len() + behind.len(),
{
    let all = before + name + behind;
    if before.len() > 0 {
        assert(all[0] == before[0]);
        assert(all.drop_first() =~= before.drop_first() + name + behind);
        lemma_zeros(before.drop_first(), name, behind);
    } else if behind.len() > 0 {
        assert(all[0] == name[0]);
        assert(all.last() == behind[behind.len() - 1]);
        assert(all.drop_last() =~= before + name + behind.drop_last());
        lemma_zeros(before, name, behind.drop_last());
    } else {
        assert(all =~= name);
    }
}

/// The index file of a drive, for a base on a drive: a dash and the letter of
/// the drive stand behind its name, before the extension; where the base is named
/// by a letter, the letter of the drive takes its place.
pub proof fn index_files_are_named_after_their_drive(
    dir: Seq<char>,
    stem: Seq<char>,
    ext: Seq<char>,
    letter: char,
)
    requires
        dir.len() >= 3,
        'a' <= dir[0] <= 'z' || 'A' <= dir[0] <= 'Z',
        dir[1] == ':',
        dir[2] == '\\',
        dir.last() == '\\',
        dir.len() > 3 ==> dir.len() > 4 && dir[dir.len() - 2] != '\\' && dir[dir.len() - 2] != '/'
            && dir[dir.len() - 2] != '.',
        path::plain_name(stem + seq!['.'] + ext),
        stem.len() > 0,
        ext.len() > 0,
        !ext.contains('.'),
        'A' <= letter <= 'Z',
    ensures
        ({
            let base = dir + (stem + seq!['.'] + ext);
            let low = text::lower(seq![letter]);
            let own = if stem.len() == 1 && ('a' <= stem[0] <= 'z' || 'A' <= stem[0] <= 'Z') {
                low
            } else {
                stem + seq!['-'] + low
            };
            &&& index_path(base, seq![letter, ':'], true) == dir + (own + seq!['.'] + ext)
            &&& index_path(base, seq![letter, ':'], false) == base
        }),
{
    let name = stem + seq!['.'] + ext;
    let base = dir + name;
    let drive = seq![letter, ':'];
    let low = text::lower(seq![letter]);
    path::extensions_stand_behind_the_last_dot(stem, ext);
    path::names_stand_behind_the_last_separator(dir, name);
    let colon = CharSet::One(':');
    let run = seq![':'];
    assert forall|i: int| 0 <= i < run.len() implies colon.has(#[trigger] run[i]) by {}
    text::stripping_takes_the_run(run, seq![letter], colon);
    assert(seq![letter].last() == letter);
    assert(seq![letter] + run =~= drive);
    assert(drive_letter(drive) == low);
    assert(low =~= seq![text::lower_char(letter)]);
    let up = dir.drop_last();
    assert(up.push('\\') =~= dir);
    if dir.len() > 3 {
        assert(up.last() == dir[dir.len() - 2]);
        assert(up[0] == dir[0] && up[1] == dir[1] && up[2] == dir[2]);
    } else {
        assert(up[0] == dir[0] && up[1] == dir[1]);
    }
    path::directories_stand_before_the_last_separator(up, name);
    let new = index_name(base, drive);
    let own = index_prefix(base) + low;
    assert(new =~= own + seq!['.'] + ext);
    assert(path::plain_name(new)) by {
        let p = index_prefix(base).len();
        assert forall|i: int| 0 <= i < new.len() implies #[trigger] new[i] != '\\' && new[i] != '/'
            && new[i] != ':' by {
            if i < p {
                if i < stem.len() {
                    assert(new[i] == name[i]);
                } else {
                    assert(new[i] == '-');
                }
            } else if i == p {
                assert(new[i] == low[0]);
            } else if i == p + 1 {
                assert(new[i] == '.');
            } else {
                assert(new[i] == ext[i - p - 2]);
                assert(name[stem.len() + 1 + (i - p - 2)] == ext[i - p - 2]);
            }
        }
        assert(new.len() >= 3);
    }
    let at = if dir.len() > 3 {
        up
    } else {
        dir
    };
    path::joining_parts_by_one_separator(at, new);
    assert(dir + new =~= up + seq!['\\'] + new);
    if stem.len() == 1 && ('a' <= stem[0] <= 'z' || 'A' <= stem[0] <= 'Z') {
        assert(own =~= low);
    } else {
        assert(own =~= stem + seq!['-'] + low);
    }
}

/// What is left out is listed part by part: each that is not blank, without the
/// spaces around it and with backslashes for slashes.
pub proof fn what_is_left_out_is_listed(parts: Seq<Seq<char>>, part: Seq<char>)
    ensures
        text::trim(part).len() == 0 ==> prefixes(parts.push(part)) == prefixes(parts),
        text::trim(part).len() > 0 ==> prefixes(parts.push(part)) == prefixes(parts).push(
            text::trim(part).map_values(
                |c: char|
                    if c == '/' {
                        '\\'
                    } else {
                        c
                    },
            ),
        ),
        prefixes(seq![]) == Seq::<Seq<char>>::empty(),
{
    reveal_strlit("\\");
    assert("\\"@ =~= seq!['\\']);
    text::replace_one_by_one(text::trim(part), '/', '\\');
    assert(parts.push(part).drop_last() =~= parts);
}

} // verus!
