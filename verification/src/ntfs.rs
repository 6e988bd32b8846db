//! How volumes are called and how they write names: drives, UTF-16, and why a
//! volume could not be read.

use vstd::prelude::*;
use crate::numbers;
use crate::text;
use crate::text::CharSet;

verus! {

/// Why a volume could not be read.
#[derive(Debug, Clone)]
pub enum VolumeError {
    /// The drive is not a letter: the text that was given.
    InvalidDrive(String),
    /// A list of drives names none.
    NoDrives,
    /// No fixed drive has the file system NTFS.
    NoNtfsDrives,
    /// The system knows no drives.
    NoLogicalDrives,
    /// The journal was replaced: the number it had and the number it has.
    JournalChanged(u64, u64),
    /// A record names a file by a text that is no UTF-16, or that does not lie
    /// in the buffer.
    InvalidName,
    /// The journal is switched off: what the system said.
    JournalNotActive(String),
    /// The system refused a request: what it said.
    System(String),
}

/// What the user is told of an error.
pub open spec fn volume_message(e: VolumeError) -> Seq<char> {
    match e {
        VolumeError::InvalidDrive(raw) => "unidad invalida: "@ + raw@ + ". Usa por ejemplo C o C:"@,
        VolumeError::NoDrives => "no valid drives provided"@,
        VolumeError::NoNtfsDrives => "no NTFS fixed drives detected for --drives auto"@,
        VolumeError::NoLogicalDrives => "failed to enumerate logical drives"@,
        VolumeError::JournalChanged(before, now) => "el journal cambio (id previo "@
            + numbers::decimal(before as nat) + ", actual "@ + numbers::decimal(now as nat) + ")"@,
        VolumeError::InvalidName => "nombre UTF-16 invalido en USN_RECORD"@,
        VolumeError::JournalNotActive(why) => "USN Journal no activo en el volumen: "@ + why@,
        VolumeError::System(why) => why@,
    }
}

impl VolumeError {
    /// What the user is told of the error.
    pub fn message(&self) -> (r: String)
        ensures
            r@ == volume_message(*self),
    {
        match self {
            VolumeError::InvalidDrive(raw) => {
                let mut s = text::copy_text("unidad invalida: ");
                text::push_text(&mut s, raw.as_str());
                text::push_text(&mut s, ". Usa por ejemplo C o C:");
                s
            },
            VolumeError::NoDrives => text::copy_text("no valid drives provided"),
            VolumeError::NoNtfsDrives => text::copy_text(
                "no NTFS fixed drives detected for --drives auto",
            ),
            VolumeError::NoLogicalDrives => text::copy_text("failed to enumerate logical drives"),
            VolumeError::JournalChanged(before, now) => {
                let mut s = text::copy_text("el journal cambio (id previo ");
                text::push_text(&mut s, numbers::number_text(*before as u128).as_str());
                text::push_text(&mut s, ", actual ");
                text::push_text(&mut s, numbers::number_text(*now as u128).as_str());
                text::push_text(&mut s, ")");
                s
            },
            VolumeError::InvalidName => text::copy_text("nombre UTF-16 invalido en USN_RECORD"),
            VolumeError::JournalNotActive(why) => {
                let mut s = text::copy_text("USN Journal no activo en el volumen: ");
                text::push_text(&mut s, why.as_str());
                s
            },
            VolumeError::System(why) => text::copy_text(why.as_str()),
        }
    }
}

// ---------------------------------------------------------------------------
// Drives
// ---------------------------------------------------------------------------

/// The name of the drive that `raw` means: a letter in upper case and a
/// colon. Spaces, a colon and separators behind the letter are ignored.
pub open spec fn drive_of(raw: Seq<char>) -> Option<Seq<char>> {
    let d = text::strip_end(
        text::strip_end(text::trim(raw), CharSet::One('\\')),
        CharSet::One(':'),
    );
    if d.len() == 1 && text::is_ascii_letter(d[0]) {
        Some(seq![text::upper_char(d[0]), ':'])
    } else {
        None
    }
}

/// The name of a drive, from a letter with or without colon and separators.
pub fn normalize_drive(raw: &str) -> (r: Result<String, VolumeError>)
    ensures
        match drive_of(raw@) {
            Some(name) => r matches Ok(drive) && drive@ == name,
            None => r matches Err(VolumeError::InvalidDrive(given)) && given@ == raw@,
        },
{
    let drive = text::without_end(
        text::without_end(text::trimmed(raw).as_str(), CharSet::One('\\')).as_str(),
        CharSet::One(':'),
    );
    let letters = text::chars_of(drive.as_str());
    if letters.len() == 1 && ((letters[0] >= 'a' && letters[0] <= 'z') || (letters[0] >= 'A'
        && letters[0] <= 'Z')) {
        let mut name = String::new();
        name.push(text::raised(letters[0]));
        name.push(':');
        assert(name@ =~= seq![text::upper_char(letters@[0]), ':']);
        Ok(name)
    } else {
        Err(VolumeError::InvalidDrive(text::copy_text(raw)))
    }
}

/// A drive name means itself.
pub proof fn drive_of_is_idempotent(raw: Seq<char>)
    requires
        drive_of(raw) is Some,
    ensures
        drive_of(drive_of(raw)->0) == drive_of(raw),
{
    let name = drive_of(raw)->0;
    let letter = name[0];
    assert(name =~= seq![letter, ':']);
    assert(text::strip_start(name, CharSet::Space) == name);
    assert(text::strip_end(name, CharSet::Space) == name);
    assert(text::strip_end(name, CharSet::One('\\')) == name);
    assert(name.drop_last() =~= seq![letter]);
    assert(text::strip_end(name.drop_last(), CharSet::One(':')) == name.drop_last());
    assert(text::strip_end(name, CharSet::One(':')) == name.drop_last());
    assert(text::upper_char(letter) == letter);
}

// ---------------------------------------------------------------------------
// UTF-16
// ---------------------------------------------------------------------------

/// `char::from_u32` gives the character with the number, where there is one.
pub assume_specification[ char::from_u32 ](i: u32) -> (r: Option<char>)
    ensures
        r is Some <==> (i < 0xD800 || 0xE000 <= i <= 0x10FFFF),
        r matches Some(c) ==> c as u32 == i,
;

/// The code units of one character.
pub open spec fn units_of(c: char) -> Seq<u16> {
    let n = c as u32;
    if n < 0x10000 {
        seq![n as u16]
    } else {
        seq![(0xD800 + (n - 0x10000) / 0x400) as u16, (0xDC00 + (n - 0x10000) % 0x400) as u16]
    }
}

/// The UTF-16 form of a text.
pub open spec fn utf16(s: Seq<char>) -> Seq<u16>
    decreases s.len(),
{
    if s.len() == 0 {
        seq![]
    } else {
        utf16(s.drop_last()) + units_of(s.last())
    }
}

/// The first character that the units encode, and how many of them it takes.
pub open spec fn first_char(u: Seq<u16>) -> Option<(char, int)> {
    if u.len() == 0 {
        None
    } else if u[0] < 0xD800 || u[0] > 0xDFFF {
        Some((u[0] as char, 1))
    } else if u[0] < 0xDC00 && u.len() >= 2 && 0xDC00 <= u[1] <= 0xDFFF {
        Some(((0x10000 + (u[0] - 0xD800) * 0x400 + (u[1] - 0xDC00)) as char, 2))
    } else {
        None
    }
}

/// The text that the units encode; none where they encode no text.
pub open spec fn from_utf16(u: Seq<u16>) -> Option<Seq<char>>
    decreases u.len(),
{
    if u.len() == 0 {
        Some(seq![])
    } else {
        match first_char(u) {
            None => None,
            Some((c, n)) => match from_utf16(u.skip(n)) {
                None => None,
                Some(rest) => Some(seq![c] + rest),
            },
        }
    }
}

proof fn lemma_units(c: char, rest: Seq<u16>)
    ensures
        first_char(units_of(c) + rest) == Some((c, units_of(c).len() as int)),
        (units_of(c) + rest).skip(units_of(c).len() as int) == rest,
{
    let u = units_of(c) + rest;
    assert(u.skip(units_of(c).len() as int) =~= rest);
    assert(u[0] == units_of(c)[0]);
    let n = c as u32;
    if n >= 0x10000 {
        assert(u[1] == units_of(c)[1]);
        assert(0x10000 + (u[0] - 0xD800) * 0x400 + (u[1] - 0xDC00) == n);
    }
}

proof fn lemma_from_utf16_concat(s: Seq<char>, rest: Seq<u16>)
    ensures
        from_utf16(utf16(s) + rest) == match from_utf16(rest) {
            Some(t) => Some(s + t),
            None => None,
        },
    decreases s.len(),
{
    if s.len() == 0 {
        assert(utf16(s) + rest =~= rest);
        if from_utf16(rest) is Some {
            assert(s + from_utf16(rest)->0 =~= from_utf16(rest)->0);
        }
    } else {
        let c = s.last();
        let more = units_of(c) + rest;
        assert(utf16(s) + rest =~= utf16(s.drop_last()) + more);
        lemma_from_utf16_concat(s.drop_last(), more);
        lemma_units(c, rest);
        assert(more.len() > 0);
        if from_utf16(rest) is Some {
            let t = from_utf16(rest)->0;
            assert(from_utf16(more) == Some(seq![c] + t));
            assert(s.drop_last() + (seq![c] + t) =~= s + t);
        }
    }
}

/// Decoding gives back the text that was encoded.
pub proof fn utf16_round_trip(s: Seq<char>)
    ensures
        from_utf16(utf16(s)) == Some(s),
{
    lemma_from_utf16_concat(s, seq![]);
    assert(utf16(s) + Seq::<u16>::empty() =~= utf16(s));
    assert(s + Seq::<char>::empty() =~= s);
}

/// Encoding gives back the units that were decoded.
pub proof fn utf16_is_faithful(u: Seq<u16>)
    requires
        from_utf16(u) is Some,
    ensures
        utf16(from_utf16(u)->0) == u,
    decreases u.len(),
{
    if u.len() > 0 {
        let (c, n) = first_char(u)->0;
        let tail = u.skip(n);
        let rest = from_utf16(tail)->0;
        utf16_is_faithful(tail);
        lemma_utf16_concat(seq![c], rest);
        assert(seq![c].drop_last() =~= seq![]);
        assert(utf16(seq![c].drop_last()) =~= seq![]);
        assert(utf16(seq![c]) =~= units_of(c));
        lemma_units_of_first(u);
        assert(u =~= u.take(n) + tail);
    }
}

proof fn lemma_units_of_first(u: Seq<u16>)
    requires
        first_char(u) is Some,
    ensures
        ({
            let (c, n) = first_char(u)->0;
            units_of(c) == u.take(n)
        }),
{
    let (c, n) = first_char(u)->0;
    if n == 1 {
        lemma_char_number(u[0] as u32);
        assert(units_of(c) =~= u.take(n));
    } else {
        let wide = 0x10000 + (u[0] - 0xD800) * 0x400 + (u[1] - 0xDC00);
        lemma_char_number(wide as u32);
        assert(units_of(c) =~= u.take(n));
    }
}

proof fn lemma_char_number(n: u32)
    requires
        n < 0xD800 || 0xE000 <= n <= 0x10FFFF,
    ensures
        (n as char) as u32 == n,
{
}

proof fn lemma_utf16_concat(a: Seq<char>, b: Seq<char>)
    ensures
        utf16(a + b) == utf16(a) + utf16(b),
    decreases b.len(),
{
    if b.len() == 0 {
        assert(a + b =~= a);
        assert(utf16(a) + utf16(b) =~= utf16(a));
    } else {
        lemma_utf16_concat(a, b.drop_last());
        assert((a + b).drop_last() =~= a + b.drop_last());
        assert((a + b).last() == b.last());
        assert(utf16(a + b) =~= utf16(a) + utf16(b));
    }
}

/// The UTF-16 form of a text, and a zero behind it.
pub fn to_utf16_null(value: &str) -> (r: Vec<u16>)
    ensures
        r@ == utf16(value@).push(0u16),
{
    let v = text::chars_of(value);
    let mut r: Vec<u16> = Vec::new();
    let mut i: usize = 0;
    assert(v@.take(0) =~= seq![]);
    while i < v.len()
        invariant
            i <= v@.len(),
            v@ == value@,
            r@ == utf16(v@.take(i as int)),
        decreases v@.len() - i,
    {
        let c = v[i];
        let n = c as u32;
        let ghost before = r@;
        if n < 0x10000 {
            r.push(n as u16);
        } else {
            r.push((0xD800 + (n - 0x10000) / 0x400) as u16);
            r.push((0xDC00 + (n - 0x10000) % 0x400) as u16);
        }
        assert(r@ =~= before + units_of(c));
        i += 1;
        assert(v@.take(i as int).drop_last() =~= v@.take(i - 1));
        assert(v@.take(i as int).last() == c);
    }
    assert(v@.take(i as int) =~= v@);
    r.push(0);
    r
}

proof fn lemma_char(c: char, n: u32)
    requires
        c as u32 == n,
    ensures
        c == n as char,
{
}

/// The text that the units encode.
pub fn decode_utf16(units: &Vec<u16>) -> (r: Option<String>)
    ensures
        text::text_of(r) == from_utf16(units@),
{
    let mut s = String::new();
    let mut i: usize = 0;
    let n = units.len();
    let ghost all = units@;
    assert(all.skip(0) =~= all);
    assert(from_utf16(all) is Some ==> s@ + from_utf16(all)->0 =~= from_utf16(all)->0);
    while i < n
        invariant
            i <= n == units@.len(),
            all == units@,
            from_utf16(all) is Some == from_utf16(all.skip(i as int)) is Some,
            from_utf16(all) is Some ==> from_utf16(all)->0 == s@ + from_utf16(
                all.skip(i as int),
            )->0,
        decreases n - i,
    {
        let ghost u = all.skip(i as int);
        let ghost before = s@;
        let ghost from = i as int;
        let a = units[i] as u32;
        assert(u[0] == all[i as int]);
        let mut number: u32 = a;
        if a >= 0xD800 && a <= 0xDFFF {
            if a < 0xDC00 && n - i >= 2 && units[i + 1] >= 0xDC00 && units[i + 1] <= 0xDFFF {
                assert(u[1] == all[i + 1]);
                number = 0x10000 + (a - 0xD800) * 0x400 + (units[i + 1] as u32 - 0xDC00);
                i += 1;
            } else {
                assert(n - i >= 2 ==> u[1] == all[i + 1]);
                return None;
            }
        }
        i += 1;
        match char::from_u32(number) {
            Some(c) => {
                s.push(c);
                proof {
                    lemma_char(c, number);
                    if i - from == 1 {
                        assert(u[0] as char == c);
                    } else {
                        let wide = 0x10000 + (u[0] - 0xD800) * 0x400 + (u[1] - 0xDC00);
                        assert(wide == number);
                        assert(wide as char == c);
                    }
                    assert(first_char(u) == Some((c, i - from)));
                    assert(u.skip(i - from) =~= all.skip(i as int));
                    if from_utf16(all) is Some {
                        let rest = from_utf16(all.skip(i as int))->0;
                        assert(before + (seq![c] + rest) =~= s@ + rest);
                    }
                }
            },
            None => {
                return None;
            },
        }
    }
    assert(all.skip(i as int) =~= seq![]);
    assert(s@ + Seq::<char>::empty() =~= s@);
    Some(s)
}

/// A letter names its drive, with spaces around it, with colons and then
/// separators behind it, in either case.
pub proof fn letters_name_drives(
    before: Seq<char>,
    letter: char,
    colons: Seq<char>,
    separators: Seq<char>,
    behind: Seq<char>,
)
    requires
        forall|i: int| 0 <= i < before.len() ==> text::is_space(#[trigger] before[i]),
        'a' <= letter <= 'z' || 'A' <= letter <= 'Z',
        forall|i: int| 0 <= i < colons.len() ==> #[trigger] colons[i] == ':',
        forall|i: int| 0 <= i < separators.len() ==> #[trigger] separators[i] == '\\',
        forall|i: int| 0 <= i < behind.len() ==> text::is_space(#[trigger] behind[i]),
    ensures
        drive_of(before + (seq![letter] + colons + separators) + behind) == Some(
            seq![text::upper_char(letter), ':'],
        ),
{
    let one = seq![letter];
    let named = one + colons;
    let given = named + separators;
    assert(given[0] == letter);
    assert(!text::is_space(given.last())) by {
        if separators.len() > 0 {
            assert(given.last() == separators[separators.len() - 1]);
        } else if colons.len() > 0 {
            assert(given.last() == colons[colons.len() - 1]);
        } else {
            assert(given.last() == letter);
        }
    }
    text::trimming_takes_the_spaces(before, given, behind);
    let back = CharSet::One('\\');
    let colon = CharSet::One(':');
    assert forall|i: int| 0 <= i < separators.len() implies back.has(#[trigger] separators[i]) by {
        assert(separators[i] == '\\');
    }
    assert forall|i: int| 0 <= i < colons.len() implies colon.has(#[trigger] colons[i]) by {
        assert(colons[i] == ':');
    }
    assert(named.last() != '\\') by {
        if colons.len() > 0 {
            assert(named.last() == colons[colons.len() - 1]);
        } else {
            assert(named.last() == letter);
        }
    }
    text::stripping_takes_the_run(separators, named, back);
    assert(one.last() == letter);
    text::stripping_takes_the_run(colons, one, colon);
}

/// Nothing but a letter names a drive: of what is left without spaces, the first
/// character is the letter, and colons and separators are all the rest.
pub proof fn only_letters_name_drives(raw: Seq<char>)
    ensures
        drive_of(raw) matches Some(d) ==> {
            let t = text::trim(raw);
            &&& d.len() == 2
            &&& 'A' <= d[0] <= 'Z'
            &&& d[1] == ':'
            &&& t.len() > 0
            &&& text::same_letter(t[0], d[0])
            &&& forall|i: int| 0 < i < t.len() ==> #[trigger] t[i] == ':' || t[i] == '\\'
        },
{
    if let Some(d) = drive_of(raw) {
        let t = text::trim(raw);
        let back = CharSet::One('\\');
        let colon = CharSet::One(':');
        let named = text::strip_end(t, back);
        let one = text::strip_end(named, colon);
        text::strip_end_shape(t, back);
        text::strip_end_shape(named, colon);
        lemma_stripped(t, back);
        lemma_stripped(named, colon);
        assert(t[0] == named[0] && named[0] == one[0]);
        assert forall|i: int| 0 < i < t.len() implies #[trigger] t[i] == ':' || t[i] == '\\' by {
            if i < named.len() {
                assert(named[i] == t[i]);
                assert(colon.has(named[i]));
            } else {
                assert(back.has(t[i]));
            }
        }
    }
}

proof fn lemma_stripped(s: Seq<char>, set: CharSet)
    ensures
        forall|i: int| text::strip_end(s, set).len() <= i < s.len() ==> set.has(#[trigger] s[i]),
    decreases s.len(),
{
    if s.len() > 0 && set.has(s.last()) {
        let rest = s.drop_last();
        lemma_stripped(rest, set);
        assert forall|i: int| text::strip_end(s, set).len() <= i < s.len() implies set.has(
            #[trigger] s[i],
        ) by {
            if i < rest.len() {
                assert(rest[i] == s[i]);
            }
        }
    }
}

/// A character of the first plane is one code unit with its number; another is a
/// high surrogate with the upper ten bits and a low one with the lower ten.
pub proof fn code_units_are_standard(c: char)
    ensures
        (c as u32) < 0x1_0000 ==> utf16(seq![c]) == seq![c as u32 as u16],
        (c as u32) >= 0x1_0000 ==> {
            let u = utf16(seq![c]);
            &&& u.len() == 2
            &&& 0xD800 <= u[0] <= 0xDBFF
            &&& 0xDC00 <= u[1] <= 0xDFFF
            &&& c as u32 == 0x1_0000 + (u[0] - 0xD800) * 0x400 + (u[1] - 0xDC00)
        },
{
    assert(seq![c].drop_last() =~= seq![]);
    reveal_with_fuel(utf16, 2);
    assert(utf16(seq![c]) =~= units_of(c));
    if c as u32 >= 0x1_0000 {
        let m = c as u32 - 0x1_0000;
        assert(0 <= m / 0x400 < 0x400);
        assert(m == (m / 0x400) * 0x400 + m % 0x400);
    }
}

/// The code units of a text are those of its pieces, one behind the other.
pub proof fn code_units_add_up(a: Seq<char>, b: Seq<char>)
    ensures
        utf16(a + b) == utf16(a) + utf16(b),
{
    lemma_utf16_concat(a, b);
}

/// A message of the system is passed on as it is; that of a journal that is
/// switched off ends in it.
pub proof fn messages_of_the_system_are_passed_on(e: VolumeError)
    ensures
        e matches VolumeError::System(why) ==> volume_message(e) == why@,
        e matches VolumeError::JournalNotActive(why) ==> volume_message(e).len() >= why@.len()
            && volume_message(e).skip(volume_message(e).len() - why@.len()) == why@,
{
    let m = volume_message(e);
    if let VolumeError::JournalNotActive(why) = e {
        assert(m.skip(m.len() - why@.len()) =~= why@);
    }
}

} // verus!
