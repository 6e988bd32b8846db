//! Text as sequences of characters: the spec functions the other modules
//! state their contracts with, and the executable functions that compute them.

use vstd::prelude::*;

verus! {

/// `String::push` appends its character at the end of the string.
pub assume_specification[ String::push ](s: &mut String, ch: char)
    ensures
        final(s)@ == old(s)@.push(ch),
;

/// A set of characters that a strip removes.
#[derive(Clone, Copy)]
pub enum CharSet {
    /// The characters with the Unicode property `White_Space`.
    Space,
    /// One character.
    One(char),
    /// Either of two characters.
    Two(char, char),
}

/// The characters with the Unicode property `White_Space`.
pub open spec fn is_space(c: char) -> bool {
    ||| '\u{9}' <= c <= '\u{d}'
    ||| c == ' '
    ||| c == '\u{85}'
    ||| c == '\u{a0}'
    ||| c == '\u{1680}'
    ||| '\u{2000}' <= c <= '\u{200a}'
    ||| c == '\u{2028}'
    ||| c == '\u{2029}'
    ||| c == '\u{202f}'
    ||| c == '\u{205f}'
    ||| c == '\u{3000}'
}

impl CharSet {
    pub open spec fn has(self, c: char) -> bool {
        match self {
            CharSet::Space => is_space(c),
            CharSet::One(a) => c == a,
            CharSet::Two(a, b) => c == a || c == b,
        }
    }

    /// Whether `c` is in the set.
    pub fn holds(self, c: char) -> (r: bool)
        ensures
            r == self.has(c),
    {
        match self {
            CharSet::Space => (c >= '\u{9}' && c <= '\u{d}') || c == ' ' || c == '\u{85}' || c
                == '\u{a0}' || c == '\u{1680}' || (c >= '\u{2000}' && c <= '\u{200a}') || c
                == '\u{2028}' || c == '\u{2029}' || c == '\u{202f}' || c == '\u{205f}' || c
                == '\u{3000}',
            CharSet::One(a) => c == a,
            CharSet::Two(a, b) => c == a || c == b,
        }
    }
}

// ---------------------------------------------------------------------------
// Spec functions
// ---------------------------------------------------------------------------

pub open spec fn lower_char(c: char) -> char {
    if 'A' <= c <= 'Z' {
        ((c as u8) + 32) as u8 as char
    } else {
        c
    }
}

pub open spec fn upper_char(c: char) -> char {
    if 'a' <= c <= 'z' {
        ((c as u8) - 32) as u8 as char
    } else {
        c
    }
}

/// `s` with the ASCII letters in lower case.
pub open spec fn lower(s: Seq<char>) -> Seq<char> {
    Seq::new(s.len(), |i: int| lower_char(s[i]))
}

pub open spec fn is_ascii_letter(c: char) -> bool {
    'a' <= c <= 'z' || 'A' <= c <= 'Z'
}

pub open spec fn is_digit(c: char) -> bool {
    '0' <= c <= '9'
}

/// `s` without the longest prefix made of characters of `set`.
pub open spec fn strip_start(s: Seq<char>, set: CharSet) -> Seq<char>
    decreases s.len(),
{
    if s.len() > 0 && set.has(s[0]) {
        strip_start(s.drop_first(), set)
    } else {
        s
    }
}

/// `s` without the longest suffix made of characters of `set`.
pub open spec fn strip_end(s: Seq<char>, set: CharSet) -> Seq<char>
    decreases s.len(),
{
    if s.len() > 0 && set.has(s.last()) {
        strip_end(s.drop_last(), set)
    } else {
        s
    }
}

/// `s` without leading and trailing white space.
pub open spec fn trim(s: Seq<char>) -> Seq<char> {
    strip_end(strip_start(s, CharSet::Space), CharSet::Space)
}

/// `s` with every occurrence of the character `from` replaced by the text `to`.
pub open spec fn replace(s: Seq<char>, from: char, to: Seq<char>) -> Seq<char>
    decreases s.len(),
{
    if s.len() == 0 {
        seq![]
    } else if s.last() == from {
        replace(s.drop_last(), from, to) + to
    } else {
        replace(s.drop_last(), from, to).push(s.last())
    }
}

/// The pieces of `s` between the occurrences of `sep`; always at least one.
pub open spec fn split(s: Seq<char>, sep: char) -> Seq<Seq<char>>
    decreases s.len(),
{
    if s.len() == 0 {
        seq![seq![]]
    } else {
        let head = split(s.drop_last(), sep);
        if s.last() == sep {
            head.push(seq![])
        } else {
            head.drop_last().push(head.last().push(s.last()))
        }
    }
}

/// The texts of `parts`, with `sep` between neighbours.
pub open spec fn join(parts: Seq<Seq<char>>, sep: Seq<char>) -> Seq<char>
    decreases parts.len(),
{
    if parts.len() == 0 {
        seq![]
    } else if parts.len() == 1 {
        parts[0]
    } else {
        join(parts.drop_last(), sep) + sep + parts.last()
    }
}

/// Whether `s` begins with `prefix`.
pub open spec fn starts_with(s: Seq<char>, prefix: Seq<char>) -> bool {
    prefix.len() <= s.len() && s.subrange(0, prefix.len() as int) == prefix
}

/// The part of `s` behind the last character of `set`; all of `s` where it
/// holds none.
pub open spec fn after_last(s: Seq<char>, set: CharSet) -> Seq<char>
    decreases s.len(),
{
    if s.len() == 0 {
        seq![]
    } else if set.has(s.last()) {
        seq![]
    } else {
        after_last(s.drop_last(), set).push(s.last())
    }
}

/// The texts of a list of strings.
pub open spec fn texts(v: Seq<String>) -> Seq<Seq<char>> {
    Seq::new(v.len(), |i: int| v[i]@)
}

/// The text of an optional string.
pub open spec fn text_of(s: Option<String>) -> Option<Seq<char>> {
    match s {
        Some(t) => Some(t@),
        None => None,
    }
}

/// Number of bytes of the UTF-8 form of `s`.
pub open spec fn byte_len(s: Seq<char>) -> nat {
    vstd::utf8::encode_utf8(s).len()
}

// ---------------------------------------------------------------------------
// Conversions
// ---------------------------------------------------------------------------

/// The characters of a string.
pub fn chars_of(s: &str) -> (r: Vec<char>)
    ensures
        r@ == s@,
{
    let mut r: Vec<char> = Vec::new();
    for c in it: s.chars()
        invariant
            r@ == s@.take(it.index() as int),
            it.seq() == s@,
    {
        r.push(c);
        assert(r@ =~= s@.take(it.index() as int + 1));
    }
    assert(r@ =~= s@);
    r
}

/// The string made of the characters of `v` from `from` to `to`.
pub fn string_of(v: &[char], from: usize, to: usize) -> (r: String)
    requires
        from <= to <= v@.len(),
    ensures
        r@ == v@.subrange(from as int, to as int),
{
    let mut s = String::new();
    let mut i: usize = from;
    while i < to
        invariant
            from <= i <= to <= v@.len(),
            s@ == v@.subrange(from as int, i as int),
        decreases to - i,
    {
        s.push(v[i]);
        i += 1;
        assert(s@ =~= v@.subrange(from as int, i as int));
    }
    assert(s@ =~= v@.subrange(from as int, to as int));
    s
}

/// Only the empty text takes no bytes; a text takes at least a byte for each
/// character.
pub proof fn byte_len_zero(s: Seq<char>)
    ensures
        byte_len(s) == 0 <==> s.len() == 0,
        byte_len(s) >= s.len(),
    decreases s.len(),
{
    if s.len() > 0 {
        byte_len_zero(s.drop_first());
    }
}

/// Number of bytes of a string.
pub fn len_in_bytes(s: &str) -> (r: usize)
    ensures
        r == byte_len(s@),
{
    s.as_bytes().len()
}

/// Appends `t` to `s`.
pub fn push_text(s: &mut String, t: &str)
    ensures
        final(s)@ == old(s)@ + t@,
{
    s.append(t);
}

/// A copy of the characters of `s`.
pub fn copy_text(s: &str) -> (r: String)
    ensures
        r@ == s@,
{
    s.to_owned()
}

/// A copy of an optional string.
pub fn copy_option(s: &Option<String>) -> (r: Option<String>)
    ensures
        text_of(r) == text_of(*s),
{
    match s {
        Some(t) => Some(copy_text(t.as_str())),
        None => None,
    }
}

// ---------------------------------------------------------------------------
// Comparisons
// ---------------------------------------------------------------------------

/// Whether two strings hold the same text.
pub fn same_text(a: &str, b: &str) -> (r: bool)
    ensures
        r == (a@ == b@),
{
    broadcast use vstd::utf8::group_utf8_lib;

    let x = a.as_bytes();
    let y = b.as_bytes();
    proof {
        if x@ == y@ {
            assert(vstd::utf8::decode_utf8(vstd::utf8::encode_utf8(a@)) == a@);
            assert(vstd::utf8::decode_utf8(vstd::utf8::encode_utf8(b@)) == b@);
        }
    }
    if x.len() != y.len() {
        return false;
    }
    let mut i: usize = 0;
    while i < x.len()
        invariant
            i <= x@.len(),
            x@.len() == y@.len(),
            x@ == vstd::utf8::encode_utf8(a@),
            y@ == vstd::utf8::encode_utf8(b@),
            forall|j: int| 0 <= j < i ==> x@[j] == y@[j],
        decreases x@.len() - i,
    {
        if x[i] != y[i] {
            return false;
        }
        i += 1;
    }
    assert(x@ =~= y@);
    true
}

fn lowered(c: char) -> (r: char)
    ensures
        r == lower_char(c),
{
    if c >= 'A' && c <= 'Z' {
        ((c as u8) + 32) as char
    } else {
        c
    }
}

/// The letter `c` in upper case.
pub fn raised(c: char) -> (r: char)
    ensures
        r == upper_char(c),
{
    if c >= 'a' && c <= 'z' {
        ((c as u8) - 32) as char
    } else {
        c
    }
}

/// `s` with the ASCII letters in lower case.
pub fn to_lower(s: &str) -> (r: String)
    ensures
        r@ == lower(s@),
{
    let v = chars_of(s);
    let mut r = String::new();
    let mut i: usize = 0;
    while i < v.len()
        invariant
            i <= v@.len(),
            v@ == s@,
            r@ == lower(s@).take(i as int),
        decreases v@.len() - i,
    {
        r.push(lowered(v[i]));
        i += 1;
        assert(r@ =~= lower(s@).take(i as int));
    }
    assert(r@ =~= lower(s@));
    r
}

/// Whether two strings are equal but for the case of ASCII letters.
pub fn same_ignoring_case(a: &str, b: &str) -> (r: bool)
    ensures
        r == (lower(a@) == lower(b@)),
{
    same_text(to_lower(a).as_str(), to_lower(b).as_str())
}

/// Whether `s` begins with `prefix`.
pub fn begins_with(s: &str, prefix: &str) -> (r: bool)
    ensures
        r == starts_with(s@, prefix@),
{
    let a = chars_of(s);
    let b = chars_of(prefix);
    if b.len() > a.len() {
        return false;
    }
    let mut i: usize = 0;
    while i < b.len()
        invariant
            i <= b@.len() <= a@.len(),
            a@ == s@,
            b@ == prefix@,
            forall|j: int| 0 <= j < i ==> a@[j] == b@[j],
        decreases b@.len() - i,
    {
        if a[i] != b[i] {
            assert(s@.subrange(0, prefix@.len() as int)[i as int] != prefix@[i as int]);
            return false;
        }
        i += 1;
    }
    assert(s@.subrange(0, prefix@.len() as int) =~= prefix@);
    true
}

// ---------------------------------------------------------------------------
// Stripping
// ---------------------------------------------------------------------------

proof fn lemma_strip_start_at(s: Seq<char>, set: CharSet, n: int)
    requires
        0 <= n <= s.len(),
        forall|i: int| 0 <= i < n ==> set.has(#[trigger] s[i]),
        n < s.len() ==> !set.has(s[n]),
    ensures
        strip_start(s, set) == s.subrange(n, s.len() as int),
    decreases n,
{
    if n == 0 {
        assert(s.subrange(0, s.len() as int) =~= s);
    } else {
        let t = s.drop_first();
        assert forall|i: int| 0 <= i < n - 1 implies set.has(#[trigger] t[i]) by {
            assert(t[i] == s[i + 1]);
        }
        lemma_strip_start_at(t, set, n - 1);
        assert(set.has(s[0]));
        assert(t.subrange(n - 1, t.len() as int) =~= s.subrange(n, s.len() as int));
    }
}

proof fn lemma_strip_end_at(s: Seq<char>, set: CharSet, n: int)
    requires
        0 <= n <= s.len(),
        forall|i: int| n <= i < s.len() ==> set.has(#[trigger] s[i]),
        n > 0 ==> !set.has(s[n - 1]),
    ensures
        strip_end(s, set) == s.subrange(0, n),
    decreases s.len() - n,
{
    if n == s.len() {
        assert(s.subrange(0, n) =~= s);
    } else {
        let t = s.drop_last();
        assert(set.has(s[s.len() - 1]));
        lemma_strip_end_at(t, set, n);
        assert(t.subrange(0, n) =~= s.subrange(0, n));
    }
}

/// First position of `v` whose character is not in `set`.
fn start_bound(v: &[char], set: CharSet) -> (n: usize)
    ensures
        n <= v@.len(),
        strip_start(v@, set) == v@.subrange(n as int, v@.len() as int),
{
    let mut n: usize = 0;
    while n < v.len() && set.holds(v[n])
        invariant
            n <= v@.len(),
            forall|i: int| 0 <= i < n ==> set.has(#[trigger] v@[i]),
        decreases v@.len() - n,
    {
        n += 1;
    }
    proof {
        lemma_strip_start_at(v@, set, n as int);
    }
    n
}

/// Position behind the last character of `v` that is not in `set`.
fn end_bound(v: &[char], set: CharSet) -> (n: usize)
    ensures
        n <= v@.len(),
        strip_end(v@, set) == v@.subrange(0, n as int),
{
    let mut n: usize = v.len();
    while n > 0 && set.holds(v[n - 1])
        invariant
            n <= v@.len(),
            forall|i: int| n <= i < v@.len() ==> set.has(#[trigger] v@[i]),
        decreases n,
    {
        n -= 1;
    }
    proof {
        lemma_strip_end_at(v@, set, n as int);
    }
    n
}

/// `s` without the characters of `set` at its start.
pub fn without_start(s: &str, set: CharSet) -> (r: String)
    ensures
        r@ == strip_start(s@, set),
{
    let v = chars_of(s);
    let n = start_bound(v.as_slice(), set);
    string_of(v.as_slice(), n, v.len())
}

/// `s` without the characters of `set` at its end.
pub fn without_end(s: &str, set: CharSet) -> (r: String)
    ensures
        r@ == strip_end(s@, set),
{
    let v = chars_of(s);
    let n = end_bound(v.as_slice(), set);
    string_of(v.as_slice(), 0, n)
}

/// `s` without leading and trailing white space.
pub fn trimmed(s: &str) -> (r: String)
    ensures
        r@ == trim(s@),
{
    without_end(without_start(s, CharSet::Space).as_str(), CharSet::Space)
}

// ---------------------------------------------------------------------------
// Replacing, splitting, joining
// ---------------------------------------------------------------------------

/// `s` with every `from` replaced by `to`.
pub fn replaced(s: &str, from: char, to: &str) -> (r: String)
    ensures
        r@ == replace(s@, from, to@),
{
    let v = chars_of(s);
    let mut r = String::new();
    let mut i: usize = 0;
    while i < v.len()
        invariant
            i <= v@.len(),
            v@ == s@,
            r@ == replace(s@.take(i as int), from, to@),
        decreases v@.len() - i,
    {
        let c = v[i];
        if c == from {
            r.append(to);
        } else {
            r.push(c);
        }
        i += 1;
        assert(s@.take(i as int).drop_last() =~= s@.take(i - 1));
        assert(s@.take(i as int).last() == c);
    }
    assert(s@.take(i as int) =~= s@);
    r
}

proof fn lemma_split_len(s: Seq<char>, sep: char)
    ensures
        split(s, sep).len() >= 1,
    decreases s.len(),
{
    if s.len() > 0 {
        lemma_split_len(s.drop_last(), sep);
    }
}

/// The pieces of `s` between the occurrences of `sep`.
pub fn split_text(s: &str, sep: char) -> (r: Vec<String>)
    ensures
        texts(r@) == split(s@, sep),
{
    let v = chars_of(s);
    let mut done: Vec<String> = Vec::new();
    let mut piece = String::new();
    let mut i: usize = 0;
    assert(texts(done@).push(piece@) =~= split(s@.take(0), sep));
    while i < v.len()
        invariant
            i <= v@.len(),
            v@ == s@,
            texts(done@).push(piece@) == split(s@.take(i as int), sep),
        decreases v@.len() - i,
    {
        let c = v[i];
        let ghost head = texts(done@).push(piece@);
        let ghost before = done@;
        let ghost whole = piece@;
        assert(s@.take(i + 1).drop_last() =~= s@.take(i as int));
        assert(s@.take(i + 1).last() == c);
        if c == sep {
            done.push(piece);
            piece = String::new();
            assert(texts(done@) =~= texts(before).push(whole));
            assert(texts(done@).push(piece@) =~= head.push(seq![]));
        } else {
            piece.push(c);
            assert(head.drop_last() =~= texts(done@));
            assert(texts(done@).push(piece@) =~= head.drop_last().push(head.last().push(c)));
        }
        i += 1;
    }
    assert(s@.take(i as int) =~= s@);
    let ghost before = done@;
    let ghost whole = piece@;
    done.push(piece);
    assert(texts(done@) =~= texts(before).push(whole));
    done
}

/// The strings of `parts` with `sep` between neighbours.
pub fn joined(parts: &Vec<String>, sep: &str) -> (r: String)
    ensures
        r@ == join(texts(parts@), sep@),
{
    let mut r = String::new();
    let mut i: usize = 0;
    let ghost all = texts(parts@);
    while i < parts.len()
        invariant
            i <= parts@.len(),
            all == texts(parts@),
            r@ == join(all.take(i as int), sep@),
        decreases parts@.len() - i,
    {
        if i > 0 {
            r.append(sep);
        }
        r.append(parts[i].as_str());
        i += 1;
        assert(all.take(i as int).drop_last() =~= all.take(i - 1));
        assert(all.take(i as int).last() == parts@[i - 1]@);
        if i == 1 {
            assert(r@ =~= parts@[0]@);
        }
    }
    assert(all.take(i as int) =~= all);
    r
}

pub proof fn after_last_at(s: Seq<char>, set: CharSet, n: int)
    requires
        0 <= n <= s.len(),
        forall|i: int| n <= i < s.len() ==> !set.has(#[trigger] s[i]),
        n > 0 ==> set.has(s[n - 1]),
    ensures
        after_last(s, set) == s.subrange(n, s.len() as int),
    decreases s.len(),
{
    if n == s.len() {
        assert(s.subrange(n, n) =~= seq![]);
        if n > 0 {
            assert(s.last() == s[n - 1]);
        }
    } else {
        let t = s.drop_last();
        after_last_at(t, set, n);
        assert(t.subrange(n, t.len() as int).push(s.last()) =~= s.subrange(n, s.len() as int));
        assert(!set.has(s[s.len() - 1]));
    }
}

/// The part of `s` behind the last character of `set`.
pub fn behind_last(s: &str, set: CharSet) -> (r: String)
    ensures
        r@ == after_last(s@, set),
{
    let v = chars_of(s);
    let mut n: usize = v.len();
    while n > 0 && !set.holds(v[n - 1])
        invariant
            n <= v@.len(),
            forall|i: int| n <= i < v@.len() ==> !set.has(#[trigger] v@[i]),
        decreases n,
    {
        n -= 1;
    }
    proof {
        after_last_at(v@, set, n as int);
    }
    string_of(v.as_slice(), n, v.len())
}

/// Whether a list holds a text.
pub fn listed(list: &Vec<String>, s: &str) -> (r: bool)
    ensures
        r == texts(list@).contains(s@),
{
    let mut i: usize = 0;
    while i < list.len()
        invariant
            i <= list@.len(),
            forall|k: int| 0 <= k < i ==> texts(list@)[k] != s@,
        decreases list@.len() - i,
    {
        if same_text(list[i].as_str(), s) {
            assert(texts(list@)[i as int] == s@);
            return true;
        }
        i += 1;
    }
    false
}

// ---------------------------------------------------------------------------
// Laws of trimming
// ---------------------------------------------------------------------------

/// What is stripped at the start of a text are characters of the set; what is
/// left does not start with one.
pub proof fn strip_start_shape(s: Seq<char>, set: CharSet)
    ensures
        strip_start(s, set).len() > 0 ==> !set.has(strip_start(s, set)[0]),
        strip_start(s, set).len() <= s.len(),
        strip_start(s, set) == s.subrange(s.len() - strip_start(s, set).len(), s.len() as int),
    decreases s.len(),
{
    if s.len() > 0 && set.has(s[0]) {
        strip_start_shape(s.drop_first(), set);
        let t = s.drop_first();
        let n = strip_start(s, set).len();
        assert(t.subrange(t.len() - n, t.len() as int) =~= s.subrange(s.len() - n, s.len() as int));
    } else {
        assert(s.subrange(0, s.len() as int) =~= s);
    }
}

/// What is stripped at the end of a text are characters of the set; what is
/// left does not end with one.
pub proof fn strip_end_shape(s: Seq<char>, set: CharSet)
    ensures
        strip_end(s, set).len() > 0 ==> !set.has(strip_end(s, set).last()),
        strip_end(s, set).len() <= s.len(),
        strip_end(s, set) == s.take(strip_end(s, set).len() as int),
    decreases s.len(),
{
    if s.len() > 0 && set.has(s.last()) {
        strip_end_shape(s.drop_last(), set);
        let t = s.drop_last();
        let n = strip_end(s, set).len() as int;
        assert(t.take(n) =~= s.take(n));
    } else {
        assert(s.take(s.len() as int) =~= s);
    }
}

/// No space is left at either end of a trimmed text.
pub proof fn trim_shape(s: Seq<char>)
    ensures
        trim(s).len() > 0 ==> !is_space(trim(s)[0]) && !is_space(trim(s).last()),
{
    let a = strip_start(s, CharSet::Space);
    strip_start_shape(s, CharSet::Space);
    strip_end_shape(a, CharSet::Space);
}

/// A trimmed text stays as it is.
pub proof fn trim_is_idempotent(s: Seq<char>)
    ensures
        trim(trim(s)) == trim(s),
{
    trim_shape(s);
}

proof fn lemma_strip_start_map(s: Seq<char>, set: CharSet, f: spec_fn(char) -> char)
    requires
        forall|c: char| set.has(#[trigger] f(c)) == set.has(c),
    ensures
        strip_start(s.map_values(f), set) == strip_start(s, set).map_values(f),
    decreases s.len(),
{
    let t = s.map_values(f);
    if s.len() > 0 && set.has(s[0]) {
        assert(t[0] == f(s[0]));
        assert(t.drop_first() =~= s.drop_first().map_values(f));
        lemma_strip_start_map(s.drop_first(), set, f);
    } else if s.len() > 0 {
        assert(t[0] == f(s[0]));
    }
}

proof fn lemma_strip_end_map(s: Seq<char>, set: CharSet, f: spec_fn(char) -> char)
    requires
        forall|c: char| set.has(#[trigger] f(c)) == set.has(c),
    ensures
        strip_end(s.map_values(f), set) == strip_end(s, set).map_values(f),
    decreases s.len(),
{
    let t = s.map_values(f);
    if s.len() > 0 {
        assert(t.last() == f(s.last()));
        if set.has(s.last()) {
            assert(t.drop_last() =~= s.drop_last().map_values(f));
            lemma_strip_end_map(s.drop_last(), set, f);
        }
    }
}

/// Stripping is not affected by a change of characters that leaves alone which
/// of them are in the set.
pub proof fn stripping_ignores_spelling(s: Seq<char>, set: CharSet, f: spec_fn(char) -> char)
    requires
        forall|c: char| set.has(#[trigger] f(c)) == set.has(c),
    ensures
        strip_start(s.map_values(f), set) == strip_start(s, set).map_values(f),
        strip_end(s.map_values(f), set) == strip_end(s, set).map_values(f),
{
    lemma_strip_start_map(s, set, f);
    lemma_strip_end_map(s, set, f);
}

/// Replacing one character by another one changes each character alone.
pub proof fn replace_one_by_one(s: Seq<char>, from: char, to: char)
    ensures
        replace(s, from, seq![to]) == s.map_values(
            |c: char|
                if c == from {
                    to
                } else {
                    c
                },
        ),
    decreases s.len(),
{
    let f = |c: char|
        if c == from {
            to
        } else {
            c
        };
    if s.len() == 0 {
        assert(s.map_values(f) =~= seq![]);
    } else {
        replace_one_by_one(s.drop_last(), from, to);
        assert(s.map_values(f) =~= s.drop_last().map_values(f).push(f(s.last())));
        assert(s.drop_last().map_values(f) + seq![to] =~= s.drop_last().map_values(f).push(to));
    }
}

/// A text that ends where a trimmed one ends, lowered and without its start,
/// needs no trimming, as long as it does not start with a space.
pub proof fn lowered_is_trimmed(t: Seq<char>, u: Seq<char>)
    requires
        t.len() > 0 ==> !is_space(t[0]) && !is_space(t.last()),
        u.len() <= t.len(),
        u == t.subrange(t.len() - u.len(), t.len() as int),
    ensures
        u.len() > 0 && !is_space(u[0]) ==> trim(lower(u)) == lower(u),
{
    if u.len() > 0 && !is_space(u[0]) {
        let w = lower(u);
        assert(u.last() == t.last());
        assert(w[0] == lower_char(u[0]));
        assert(w.last() == lower_char(u.last()));
    }
}

// ---------------------------------------------------------------------------
// Laws of texts
// ---------------------------------------------------------------------------

/// The letters A to Z become the letters 32 places behind them; every other
/// character stays.
pub proof fn lowering_changes_capitals_only(s: Seq<char>, i: int)
    requires
        0 <= i < s.len(),
    ensures
        lower(s).len() == s.len(),
        65 <= s[i] as u32 <= 90 ==> lower(s)[i] as u32 == s[i] as u32 + 32,
        !(65 <= s[i] as u32 <= 90) ==> lower(s)[i] == s[i],
        97 <= s[i] as u32 <= 122 ==> upper_char(s[i]) as u32 == s[i] as u32 - 32,
        !(97 <= s[i] as u32 <= 122) ==> upper_char(s[i]) == s[i],
{
}

/// A text in lower case stays as it is, and texts are lowered piece by piece.
pub proof fn lowering_goes_by_pieces(a: Seq<char>, b: Seq<char>)
    ensures
        lower(lower(a)) == lower(a),
        lower(a + b) == lower(a) + lower(b),
{
    assert(lower(lower(a)) =~= lower(a));
    assert(lower(a + b) =~= lower(a) + lower(b));
}

/// Two characters are the same letter, or the same character.
pub open spec fn same_letter(a: char, b: char) -> bool {
    ||| a == b
    ||| 65 <= a as u32 <= 90 && b as u32 == a as u32 + 32
    ||| 65 <= b as u32 <= 90 && a as u32 == b as u32 + 32
}

/// Texts that differ in the case of their letters alone are the same in lower
/// case, and no others are.
pub proof fn case_is_ignored(a: Seq<char>, b: Seq<char>)
    ensures
        lower(a) == lower(b) <==> a.len() == b.len() && forall|i: int|
            0 <= i < a.len() ==> same_letter(#[trigger] a[i], b[i]),
{
    if lower(a) == lower(b) {
        assert(lower(a).len() == a.len() && lower(b).len() == b.len());
        assert forall|i: int| 0 <= i < a.len() implies same_letter(#[trigger] a[i], b[i]) by {
            assert(lower(a)[i] == lower_char(a[i]));
            assert(lower(b)[i] == lower_char(b[i]));
        }
    }
    if a.len() == b.len() && forall|i: int|
        0 <= i < a.len() ==> same_letter(#[trigger] a[i], b[i]) {
        assert forall|i: int| 0 <= i < a.len() implies lower(a)[i] == lower(b)[i] by {
            assert(same_letter(a[i], b[i]));
        }
        assert(lower(a) =~= lower(b));
    }
}

/// Of the characters of ASCII, the space, the tabulators and the ends of lines
/// are spaces, and no other.
pub proof fn spaces_of_ascii(c: char)
    requires
        (c as u32) < 128,
    ensures
        is_space(c) <==> c as u32 == 32 || 9 <= c as u32 <= 13,
{
}

/// What is stripped is the run of characters of the set, all of it.
pub proof fn stripping_takes_the_run(run: Seq<char>, t: Seq<char>, set: CharSet)
    requires
        forall|i: int| 0 <= i < run.len() ==> set.has(#[trigger] run[i]),
    ensures
        (t.len() > 0 ==> !set.has(t[0])) ==> strip_start(run + t, set) == t,
        (t.len() > 0 ==> !set.has(t.last())) ==> strip_end(t + run, set) == t,
{
    if t.len() > 0 ==> !set.has(t[0]) {
        let s = run + t;
        lemma_strip_start_at(s, set, run.len() as int);
        assert(s.subrange(run.len() as int, s.len() as int) =~= t);
    }
    if t.len() > 0 ==> !set.has(t.last()) {
        let s = t + run;
        assert forall|i: int| t.len() <= i < s.len() implies set.has(#[trigger] s[i]) by {
            assert(s[i] == run[i - t.len()]);
        }
        lemma_strip_end_at(s, set, t.len() as int);
        assert(s.subrange(0, t.len() as int) =~= t);
    }
}

/// Trimming takes the spaces before and behind a text away, all of them, and
/// nothing else.
pub proof fn trimming_takes_the_spaces(before: Seq<char>, t: Seq<char>, behind: Seq<char>)
    requires
        forall|i: int| 0 <= i < before.len() ==> is_space(#[trigger] before[i]),
        forall|i: int| 0 <= i < behind.len() ==> is_space(#[trigger] behind[i]),
        t.len() > 0 ==> !is_space(t[0]) && !is_space(t.last()),
    ensures
        trim(before + t + behind) == t,
{
    if t.len() == 0 {
        let all = before + t + behind;
        assert(all =~= before + behind);
        assert forall|i: int| 0 <= i < all.len() implies is_space(#[trigger] all[i]) by {
            if i < before.len() {
                assert(all[i] == before[i]);
            } else {
                assert(all[i] == behind[i - before.len()]);
            }
        }
        stripping_takes_the_run(all, t, CharSet::Space);
        assert(all + t =~= all);
        assert(t =~= seq![]);
    } else {
        let rest = t + behind;
        assert(before + t + behind =~= before + rest);
        assert(rest[0] == t[0]);
        assert forall|i: int| 0 <= i < before.len() implies CharSet::Space.has(
            #[trigger] before[i],
        ) by {}
        assert forall|i: int| 0 <= i < behind.len() implies CharSet::Space.has(
            #[trigger] behind[i],
        ) by {}
        stripping_takes_the_run(before, rest, CharSet::Space);
        stripping_takes_the_run(behind, t, CharSet::Space);
    }
}

/// A text starts with another one exactly where it is that text and a rest.
pub proof fn starts_are_parts(p: Seq<char>, rest: Seq<char>, s: Seq<char>)
    ensures
        starts_with(p + rest, p),
        starts_with(s, p) ==> s == p + s.subrange(p.len() as int, s.len() as int),
{
    assert((p + rest).subrange(0, p.len() as int) =~= p);
    if starts_with(s, p) {
        assert(s =~= s.subrange(0, p.len() as int) + s.subrange(p.len() as int, s.len() as int));
    }
}

/// The pieces of a text, joined again, are the text; none holds the separator.
pub proof fn splitting_loses_nothing(s: Seq<char>, sep: char)
    ensures
        split(s, sep).len() > 0,
        join(split(s, sep), seq![sep]) == s,
        forall|i: int| 0 <= i < split(s, sep).len() ==> !(#[trigger] split(s, sep)[i]).contains(sep),
    decreases s.len(),
{
    if s.len() == 0 {
        assert(split(s, sep)[0] =~= seq![]);
        assert(s =~= seq![]);
    } else {
        let rest = s.drop_last();
        let head = split(rest, sep);
        let all = split(s, sep);
        splitting_loses_nothing(rest, sep);
        lemma_split_len(rest, sep);
        if s.last() == sep {
            assert(all.drop_last() =~= head);
            assert(all.last() =~= seq![]);
            assert(join(all, seq![sep]) =~= s);
            assert forall|i: int| 0 <= i < all.len() implies !(#[trigger] all[i]).contains(sep) by {
                if i < head.len() {
                    assert(all[i] == head[i]);
                }
            }
        } else {
            let last = head.last().push(s.last());
            assert(all.drop_last() =~= head.drop_last());
            assert(all.last() == last);
            if head.len() == 1 {
                assert(all.len() == 1 && all[0] == last);
                assert(head[0] == head.last());
                assert(join(all, seq![sep]) =~= s);
            } else {
                let front = join(head.drop_last(), seq![sep]);
                assert(rest == front + seq![sep] + head.last());
                assert(join(all, seq![sep]) =~= front + seq![sep] + last);
                assert(s =~= rest.push(s.last()));
                assert(join(all, seq![sep]) =~= s);
            }
            assert forall|i: int| 0 <= i < all.len() implies !(#[trigger] all[i]).contains(sep) by {
                if i < head.len() - 1 {
                    assert(all[i] == head[i]);
                } else {
                    assert(all[i] == last);
                    assert(!head[head.len() - 1].contains(sep));
                    if last.contains(sep) {
                        let k = choose|k: int| 0 <= k < last.len() && last[k] == sep;
                        assert(head.last()[k] == sep);
                    }
                }
            }
        }
    }
}

/// What stands behind the last character of a set holds none of them, and ends
/// the text.
pub proof fn ends_behind_the_last(front: Seq<char>, c: char, t: Seq<char>, set: CharSet)
    requires
        set.has(c),
        forall|i: int| 0 <= i < t.len() ==> !set.has(#[trigger] t[i]),
    ensures
        after_last(front + seq![c] + t, set) == t,
        after_last(t, set) == t,
{
    let s = front + seq![c] + t;
    assert forall|i: int| front.len() + 1 <= i < s.len() implies !set.has(#[trigger] s[i]) by {
        assert(s[i] == t[i - front.len() - 1]);
    }
    after_last_at(s, set, front.len() as int + 1);
    assert(s.subrange(front.len() as int + 1, s.len() as int) =~= t);
    after_last_at(t, set, 0);
    assert(t.subrange(0, t.len() as int) =~= t);
}

/// What a set of characters holds.
pub proof fn sets_hold_their_characters(a: char, b: char, c: char)
    ensures
        CharSet::One(a).has(c) <==> c == a,
        CharSet::Two(a, b).has(c) <==> c == a || c == b,
        CharSet::Space.has(c) <==> is_space(c),
{
}

/// The pieces of a text that was put together with a separator are those of its
/// parts; a text without one is one piece.
pub proof fn pieces_add_up(a: Seq<char>, b: Seq<char>, sep: char)
    ensures
        split(a + seq![sep] + b, sep) == split(a, sep) + split(b, sep),
        !b.contains(sep) ==> split(b, sep) == seq![b],
    decreases b.len(),
{
    let s = a + seq![sep] + b;
    lemma_split_len(a, sep);
    lemma_split_len(b, sep);
    if b.len() == 0 {
        assert(s.drop_last() =~= a);
        assert(s.last() == sep);
        assert(b =~= seq![]);
        assert(split(s, sep) =~= split(a, sep) + split(b, sep));
    } else {
        let c = b.last();
        let rest = b.drop_last();
        pieces_add_up(a, rest, sep);
        lemma_split_len(rest, sep);
        assert(s.drop_last() =~= a + seq![sep] + rest);
        assert(s.last() == c);
        let head = split(a, sep) + split(rest, sep);
        assert(head.last() == split(rest, sep).last());
        assert(head.drop_last() =~= split(a, sep) + split(rest, sep).drop_last());
        assert(split(s, sep) =~= split(a, sep) + split(b, sep));
        if !b.contains(sep) {
            assert(b[b.len() - 1] != sep);
            assert(!rest.contains(sep)) by {
                if rest.contains(sep) {
                    let k = choose|k: int| 0 <= k < rest.len() && rest[k] == sep;
                    assert(b[k] == sep);
                }
            }
            assert(rest.push(c) =~= b);
            assert(seq![rest].drop_last() =~= seq![]);
            assert(split(b, sep) =~= seq![b]);
        }
    }
}

/// Texts are joined one by one, the separator standing between neighbours only.
pub proof fn joining_puts_separators_between(parts: Seq<Seq<char>>, part: Seq<char>, sep: Seq<char>)
    ensures
        join(seq![], sep) == Seq::<char>::empty(),
        join(seq![part], sep) == part,
        parts.len() > 0 ==> join(parts.push(part), sep) == join(parts, sep) + sep + part,
{
    assert(parts.push(part).drop_last() =~= parts);
}

} // verus!
