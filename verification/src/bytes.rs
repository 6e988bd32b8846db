//! Byte strings: substring search, the order of byte strings, and how both
//! relate to the characters that UTF-8 encodes.

use vstd::prelude::*;
use crate::text;

verus! {

// ---------------------------------------------------------------------------
// Substrings
// ---------------------------------------------------------------------------

/// The UTF-8 form of a text.
pub open spec fn utf8(s: Seq<char>) -> Seq<u8> {
    vstd::utf8::encode_utf8(s)
}

/// `needle` stands in `haystack` at position `i`.
pub open spec fn occurs_at(haystack: Seq<u8>, needle: Seq<u8>, i: int) -> bool {
    0 <= i <= i + needle.len() <= haystack.len() && haystack.subrange(i, i + needle.len())
        == needle
}

/// `needle` stands somewhere in `haystack`.
pub open spec fn contains(haystack: Seq<u8>, needle: Seq<u8>) -> bool {
    exists|i: int| occurs_at(haystack, needle, i)
}

/// The first position, not before `from`, at which `needle` stands in
/// `haystack`.
pub open spec fn first_from(haystack: Seq<u8>, needle: Seq<u8>, from: int) -> Option<int>
    decreases haystack.len() - from + 1,
{
    if from < 0 || from + needle.len() > haystack.len() {
        None
    } else if occurs_at(haystack, needle, from) {
        Some(from)
    } else {
        first_from(haystack, needle, from + 1)
    }
}

/// The first position at which `needle` stands in `haystack`.
pub open spec fn first_at(haystack: Seq<u8>, needle: Seq<u8>) -> Option<int> {
    first_from(haystack, needle, 0)
}

/// `memchr::memmem::find` gives the least position at which the needle stands
/// in the haystack, and nothing where it stands nowhere.
pub assume_specification[ memchr::memmem::find ](haystack: &[u8], needle: &[u8]) -> (r: Option<
    usize,
>)
    ensures
        r matches Some(i) ==> occurs_at(haystack@, needle@, i as int) && forall|j: int|
            0 <= j < i ==> !occurs_at(haystack@, needle@, j),
        r is None ==> forall|j: int| !occurs_at(haystack@, needle@, j),
;

proof fn lemma_first_from(haystack: Seq<u8>, needle: Seq<u8>, from: int, at: int)
    requires
        0 <= from <= at,
        occurs_at(haystack, needle, at),
        forall|j: int| from <= j < at ==> !occurs_at(haystack, needle, j),
    ensures
        first_from(haystack, needle, from) == Some(at),
    decreases at - from,
{
    if from < at {
        lemma_first_from(haystack, needle, from + 1, at);
    }
}

proof fn lemma_first_none(haystack: Seq<u8>, needle: Seq<u8>, from: int)
    requires
        0 <= from,
        forall|j: int| !occurs_at(haystack, needle, j),
    ensures
        first_from(haystack, needle, from) is None,
    decreases haystack.len() - from + 1,
{
    if from + needle.len() <= haystack.len() {
        lemma_first_none(haystack, needle, from + 1);
    }
}

/// The position that `first_at` gives is an occurrence, and none is before it;
/// it gives one wherever the needle is contained.
pub proof fn first_at_is_least(haystack: Seq<u8>, needle: Seq<u8>)
    ensures
        first_at(haystack, needle) matches Some(i) ==> occurs_at(haystack, needle, i) && forall|
            j: int,
        |
            0 <= j < i ==> !occurs_at(haystack, needle, j),
        first_at(haystack, needle) is Some <==> contains(haystack, needle),
{
    if contains(haystack, needle) {
        let w = choose|w: int| occurs_at(haystack, needle, w);
        lemma_least(haystack, needle, w);
    } else {
        lemma_first_none(haystack, needle, 0);
    }
}

proof fn lemma_least(haystack: Seq<u8>, needle: Seq<u8>, w: int)
    requires
        occurs_at(haystack, needle, w),
    ensures
        first_at(haystack, needle) matches Some(i) && i <= w && occurs_at(haystack, needle, i)
            && forall|j: int| 0 <= j < i ==> !occurs_at(haystack, needle, j),
    decreases w,
{
    if exists|j: int| 0 <= j < w && occurs_at(haystack, needle, j) {
        let j = choose|j: int| 0 <= j < w && occurs_at(haystack, needle, j);
        lemma_least(haystack, needle, j);
    } else {
        lemma_first_from(haystack, needle, 0, w);
    }
}

/// Position of the first occurrence of `needle`.
pub fn find(haystack: &[u8], needle: &[u8]) -> (r: Option<usize>)
    ensures
        r matches Some(i) ==> first_at(haystack@, needle@) == Some(i as int),
        r is None ==> first_at(haystack@, needle@) is None,
{
    let r = memchr::memmem::find(haystack, needle);
    proof {
        match r {
            Some(i) => {
                lemma_first_from(haystack@, needle@, 0, i as int);
            },
            None => {
                lemma_first_none(haystack@, needle@, 0);
            },
        }
    }
    r
}

/// Whether the text `s` holds the text `t`.
pub fn holds_text(s: &str, t: &str) -> (r: bool)
    ensures
        r == contains(utf8(s@), utf8(t@)),
{
    proof {
        first_at_is_least(utf8(s@), utf8(t@));
    }
    find(s.as_bytes(), t.as_bytes()).is_some()
}

/// Whether `b` holds the byte `x`.
pub fn has_byte(b: &[u8], x: u8) -> (r: bool)
    ensures
        r == b@.contains(x),
{
    let mut i: usize = 0;
    while i < b.len()
        invariant
            i <= b@.len(),
            forall|j: int| 0 <= j < i ==> b@[j] != x,
        decreases b@.len() - i,
    {
        if b[i] == x {
            assert(b@[i as int] == x);
            return true;
        }
        i += 1;
    }
    false
}

/// A copy of the bytes of a slice.
pub fn copy_bytes(b: &[u8]) -> (r: Vec<u8>)
    ensures
        r@ == b@,
{
    let mut r: Vec<u8> = Vec::with_capacity(b.len());
    let mut i: usize = 0;
    while i < b.len()
        invariant
            i <= b@.len(),
            r@ == b@.take(i as int),
        decreases b@.len() - i,
    {
        r.push(b[i]);
        i += 1;
        assert(r@ =~= b@.take(i as int));
    }
    assert(r@ =~= b@);
    r
}

// ---------------------------------------------------------------------------
// Lower case
// ---------------------------------------------------------------------------

pub open spec fn lower_byte(b: u8) -> u8 {
    if 0x41 <= b <= 0x5a {
        (b + 32) as u8
    } else {
        b
    }
}

pub open spec fn lower_bytes(s: Seq<u8>) -> Seq<u8> {
    Seq::new(s.len(), |i: int| lower_byte(s[i]))
}

/// A character of the ASCII range is one byte, itself; the bytes of any other
/// lie above that range.
proof fn lemma_scalar_bytes(c: char)
    ensures
        (c as u32) <= 0x7f ==> vstd::utf8::encode_scalar(c as u32) == seq![c as u8],
        (c as u32) > 0x7f ==> forall|i: int|
            0 <= i < vstd::utf8::encode_scalar(c as u32).len() ==> #[trigger] vstd::utf8::encode_scalar(
                c as u32,
            )[i] >= 0x80,
        c != '\0' ==> (c as u8) != 0 || (c as u32) > 0x7f,
{
    let s = c as u32;
    if s <= 0x7f {
        assert(s <= 0x7f ==> (s & 0x7f) as u8 == s) by (bit_vector);
        assert(vstd::utf8::encode_scalar(s) =~= seq![c as u8]);
    } else {
        assert((0xC0u8 | ((s >> 6) & 0x1F) as u8) >= 0x80) by (bit_vector);
        assert((0xE0u8 | ((s >> 12) & 0x0F) as u8) >= 0x80) by (bit_vector);
        assert((0xF0u8 | ((s >> 18) & 0x07) as u8) >= 0x80) by (bit_vector);
        assert((0x80u8 | (s & 0x3F) as u8) >= 0x80) by (bit_vector);
        assert((0x80u8 | ((s >> 6) & 0x3F) as u8) >= 0x80) by (bit_vector);
        assert((0x80u8 | ((s >> 12) & 0x3F) as u8) >= 0x80) by (bit_vector);
    }
}

/// The UTF-8 form of one character is that of its number.
pub proof fn one_char_len(c: char)
    ensures
        utf8(seq![c]).len() == scalar_len(c),
{
    let one = seq![c];
    assert(one.drop_first() =~= seq![]);
    assert(utf8(one.drop_first()) =~= seq![]);
    assert(utf8(one) =~= vstd::utf8::encode_scalar(one[0] as u32) + utf8(one.drop_first()));
}

/// Number of bytes of a character.
pub open spec fn scalar_len(c: char) -> nat {
    vstd::utf8::encode_scalar(c as u32).len()
}

/// Number of bytes of a character.
pub fn char_len(c: char) -> (r: usize)
    ensures
        r == scalar_len(c),
{
    let n = c as u32;
    if n < 0x80 {
        1
    } else if n < 0x800 {
        2
    } else if n < 0x10000 {
        3
    } else {
        4
    }
}

proof fn lemma_lower_scalar(c: char)
    ensures
        vstd::utf8::encode_scalar(text::lower_char(c) as u32) =~= lower_bytes(
            vstd::utf8::encode_scalar(c as u32),
        ),
{
    lemma_scalar_bytes(c);
    lemma_scalar_bytes(text::lower_char(c));
}

/// Lowering the letters of a text lowers the letters of its UTF-8 form.
pub proof fn lower_commutes_with_utf8(s: Seq<char>)
    ensures
        utf8(text::lower(s)) == lower_bytes(utf8(s)),
    decreases s.len(),
{
    if s.len() == 0 {
        assert(utf8(text::lower(s)) =~= lower_bytes(utf8(s)));
    } else {
        lower_commutes_with_utf8(s.drop_first());
        lemma_lower_scalar(s[0]);
        assert(text::lower(s).drop_first() =~= text::lower(s.drop_first()));
        assert(utf8(text::lower(s)) =~= lower_bytes(utf8(s)));
    }
}

fn lowered(b: u8) -> (r: u8)
    ensures
        r == lower_byte(b),
{
    if b >= 0x41 && b <= 0x5a {
        b + 32
    } else {
        b
    }
}

/// Appends the bytes of `b`, letters in lower case.
pub fn push_lowered(v: &mut Vec<u8>, b: &[u8])
    ensures
        final(v)@ == old(v)@ + lower_bytes(b@),
{
    let ghost start = v@;
    let mut i: usize = 0;
    while i < b.len()
        invariant
            i <= b@.len(),
            v@ == start + lower_bytes(b@).take(i as int),
        decreases b@.len() - i,
    {
        v.push(lowered(b[i]));
        i += 1;
        assert(v@ =~= start + lower_bytes(b@).take(i as int));
    }
    assert(v@ =~= start + lower_bytes(b@));
}

// ---------------------------------------------------------------------------
// Characters and bytes
// ---------------------------------------------------------------------------

/// The UTF-8 form of a concatenation is the concatenation of the forms.
pub proof fn utf8_of_concat(a: Seq<char>, b: Seq<char>)
    ensures
        utf8(a + b) == utf8(a) + utf8(b),
    decreases a.len(),
{
    if a.len() == 0 {
        assert(a + b =~= b);
        assert(utf8(a) + utf8(b) =~= utf8(b));
    } else {
        utf8_of_concat(a.drop_first(), b);
        assert((a + b).drop_first() =~= a.drop_first() + b);
        assert((a + b)[0] == a[0]);
        assert(utf8(a + b) =~= utf8(a) + utf8(b));
    }
}

/// The UTF-8 form of a text holds a zero byte only for a zero character.
pub proof fn no_zero_byte(s: Seq<char>)
    requires
        !s.contains('\0'),
    ensures
        !utf8(s).contains(0u8),
    decreases s.len(),
{
    if s.len() > 0 {
        let c = s[0] as u32;
        let head = vstd::utf8::encode_scalar(c);
        let tail = s.drop_first();
        assert(!tail.contains('\0')) by {
            if tail.contains('\0') {
                let k = choose|k: int| 0 <= k < tail.len() && tail[k] == '\0';
                assert(s[k + 1] == '\0');
            }
        }
        no_zero_byte(tail);
        assert(s.contains(s[0]));
        lemma_scalar_bytes(s[0]);
        if utf8(s).contains(0u8) {
            let k = choose|k: int| 0 <= k < utf8(s).len() && utf8(s)[k] == 0u8;
            assert(utf8(s) =~= head + utf8(tail));
            if k >= head.len() {
                assert(utf8(tail)[k - head.len()] == 0u8);
                assert(utf8(tail).contains(0u8));
            } else {
                assert(head[k] == 0u8);
            }
        }
    }
}

/// Texts with the same UTF-8 form are equal.
pub proof fn utf8_is_injective(a: Seq<char>, b: Seq<char>)
    requires
        utf8(a) == utf8(b),
    ensures
        a == b,
{
    vstd::utf8::encode_utf8_decode_utf8(a);
    vstd::utf8::encode_utf8_decode_utf8(b);
}

proof fn lemma_boundary_after(n: Seq<char>, rest: Seq<u8>)
    requires
        vstd::utf8::valid_utf8(utf8(n) + rest),
    ensures
        vstd::utf8::is_char_boundary(utf8(n) + rest, utf8(n).len() as int),
    decreases n.len(),
{
    if n.len() > 0 {
        let b = utf8(n) + rest;
        let head = vstd::utf8::encode_scalar(n[0] as u32);
        let tail = n.drop_first();
        vstd::utf8::encode_utf8_first_scalar(n);
        assert(b[0] == utf8(n)[0]);
        assert(vstd::utf8::length_of_first_scalar(b) == head.len());
        assert(vstd::utf8::pop_first_scalar(b) =~= utf8(tail) + rest);
        lemma_boundary_after(tail, rest);
        assert(utf8(n).len() == head.len() + utf8(tail).len());
    }
}

proof fn lemma_contains_from_characters(s: Seq<char>, t: Seq<char>, k: int)
    requires
        0 <= k <= k + t.len() <= s.len(),
        s.subrange(k, k + t.len()) == t,
    ensures
        contains(utf8(s), utf8(t)),
{
    let h = utf8(s);
    let n = utf8(t);
    let a = s.subrange(0, k);
    let c = s.subrange(k + t.len(), s.len() as int);
    assert(s =~= a + t + c);
    utf8_of_concat(a + t, c);
    utf8_of_concat(a, t);
    assert(h.subrange(utf8(a).len() as int, (utf8(a).len() + n.len()) as int) =~= n);
    assert(occurs_at(h, n, utf8(a).len() as int));
}

/// Where the UTF-8 form of a text occurs in that of another, it starts at a
/// character of the other.
proof fn lemma_occurrence_at_boundary(s: Seq<char>, t: Seq<char>, i: int)
    requires
        t.len() > 0,
        occurs_at(utf8(s), utf8(t), i),
    ensures
        vstd::utf8::is_char_boundary(utf8(s), i),
{
    let h = utf8(s);
    let n = utf8(t);
    vstd::utf8::encode_utf8_valid_utf8(s);
    vstd::utf8::encode_utf8_valid_utf8(t);
    vstd::utf8::encode_utf8_first_scalar(t);
    assert(n.len() > 0);
    assert(h[i] == n[0]) by {
        assert(h.subrange(i, i + n.len())[0] == n[0]);
    }
    vstd::utf8::is_char_boundary_start_end_of_seq(n);
    vstd::utf8::is_char_boundary_iff_not_is_continuation_byte(n, 0);
    vstd::utf8::is_char_boundary_iff_not_is_continuation_byte(h, i);
}

proof fn lemma_characters_from_contains(s: Seq<char>, t: Seq<char>, i: int) -> (k: int)
    requires
        t.len() > 0,
        occurs_at(utf8(s), utf8(t), i),
    ensures
        0 <= k <= k + t.len() <= s.len(),
        s.subrange(k, k + t.len()) == t,
{
    let h = utf8(s);
    let n = utf8(t);
    lemma_occurrence_at_boundary(s, t, i);
    vstd::utf8::encode_utf8_valid_utf8(s);
    vstd::utf8::valid_utf8_split(h, i);
    vstd::utf8::decode_utf8_split(h, i);
    let left = h.subrange(0, i);
    let right = h.subrange(i, h.len() as int);
    let rest = right.subrange(n.len() as int, right.len() as int);
    assert(right =~= n + rest);
    lemma_boundary_after(t, rest);
    vstd::utf8::valid_utf8_split(right, n.len() as int);
    vstd::utf8::decode_utf8_split(right, n.len() as int);
    assert(right.subrange(0, n.len() as int) =~= n);
    vstd::utf8::encode_utf8_decode_utf8(s);
    vstd::utf8::encode_utf8_decode_utf8(t);
    let a = vstd::utf8::decode_utf8(left);
    let c = vstd::utf8::decode_utf8(rest);
    assert(s == a + (t + c));
    let k = a.len() as int;
    assert(s.subrange(k, k + t.len()) =~= t);
    k
}

/// A text holds another one exactly where its UTF-8 form holds the other's.
pub proof fn contains_by_characters(s: Seq<char>, t: Seq<char>)
    ensures
        contains(utf8(s), utf8(t)) <==> exists|k: int|
            0 <= k <= k + t.len() <= s.len() && #[trigger] s.subrange(k, k + t.len()) == t,
{
    if exists|k: int| 0 <= k <= k + t.len() <= s.len() && #[trigger] s.subrange(k, k + t.len()) == t {
        let k = choose|k: int|
            0 <= k <= k + t.len() <= s.len() && #[trigger] s.subrange(k, k + t.len()) == t;
        lemma_contains_from_characters(s, t, k);
    }
    if contains(utf8(s), utf8(t)) {
        if t.len() == 0 {
            assert(s.subrange(0int, 0int + t.len()) =~= t);
        } else {
            let i = choose|i: int| occurs_at(utf8(s), utf8(t), i);
            let k = lemma_characters_from_contains(s, t, i);
            assert(s.subrange(k, k + t.len()) == t);
        }
    }
}

// ---------------------------------------------------------------------------
// The order of byte strings
// ---------------------------------------------------------------------------

/// `a` comes before `b` in the lexicographic order of bytes.
pub open spec fn precedes(a: Seq<u8>, b: Seq<u8>) -> bool
    decreases a.len(),
{
    if b.len() == 0 {
        false
    } else if a.len() == 0 {
        true
    } else if a[0] != b[0] {
        a[0] < b[0]
    } else {
        precedes(a.drop_first(), b.drop_first())
    }
}

pub proof fn precedes_is_total(a: Seq<u8>, b: Seq<u8>)
    ensures
        precedes(a, b) || precedes(b, a) || a == b,
        !(precedes(a, b) && precedes(b, a)),
        !precedes(a, a),
    decreases a.len(),
{
    if a.len() == 0 || b.len() == 0 {
        if a.len() == 0 && b.len() == 0 {
            assert(a =~= b);
        }
        if a.len() > 0 {
            precedes_is_total(a.drop_first(), a.drop_first());
        }
    } else {
        precedes_is_total(a.drop_first(), b.drop_first());
        if a[0] == b[0] && a.drop_first() == b.drop_first() {
            assert(a =~= seq![a[0]] + a.drop_first());
            assert(b =~= seq![b[0]] + b.drop_first());
        }
    }
}

pub proof fn precedes_is_transitive(a: Seq<u8>, b: Seq<u8>, c: Seq<u8>)
    requires
        precedes(a, b),
        precedes(b, c),
    ensures
        precedes(a, c),
    decreases a.len(),
{
    if a.len() > 0 && b.len() > 0 && c.len() > 0 {
        if a[0] == b[0] && b[0] == c[0] {
            precedes_is_transitive(a.drop_first(), b.drop_first(), c.drop_first());
        }
    }
}

proof fn lemma_precedes_at(a: Seq<u8>, b: Seq<u8>, n: int)
    requires
        0 <= n <= a.len(),
        n <= b.len(),
        forall|i: int| 0 <= i < n ==> a[i] == b[i],
    ensures
        precedes(a, b) == precedes(a.subrange(n, a.len() as int), b.subrange(n, b.len() as int)),
    decreases n,
{
    if n == 0 {
        assert(a.subrange(0, a.len() as int) =~= a);
        assert(b.subrange(0, b.len() as int) =~= b);
    } else {
        let x = a.drop_first();
        let y = b.drop_first();
        assert forall|i: int| 0 <= i < n - 1 implies x[i] == y[i] by {
            assert(a[i + 1] == b[i + 1]);
        }
        lemma_precedes_at(x, y, n - 1);
        assert(x.subrange(n - 1, x.len() as int) =~= a.subrange(n, a.len() as int));
        assert(y.subrange(n - 1, y.len() as int) =~= b.subrange(n, b.len() as int));
        assert(a[0] == b[0]);
    }
}

/// Whether `a` comes before `b`.
pub fn comes_before(a: &[u8], b: &[u8]) -> (r: bool)
    ensures
        r == precedes(a@, b@),
{
    let mut i: usize = 0;
    while i < a.len() && i < b.len() && a[i] == b[i]
        invariant
            i <= a@.len(),
            i <= b@.len(),
            forall|j: int| 0 <= j < i ==> a@[j] == b@[j],
        decreases a@.len() - i,
    {
        i += 1;
    }
    proof {
        lemma_precedes_at(a@, b@, i as int);
    }
    if i >= b.len() {
        false
    } else if i >= a.len() {
        true
    } else {
        a[i] < b[i]
    }
}

// ---------------------------------------------------------------------------
// Laws of parts and of the order
// ---------------------------------------------------------------------------

/// Bytes hold others exactly where they are something, the others, and
/// something.
pub proof fn parts_are_held(before: Seq<u8>, needle: Seq<u8>, behind: Seq<u8>, haystack: Seq<u8>)
    ensures
        contains(before + needle + behind, needle),
        occurs_at(before + needle + behind, needle, before.len() as int),
        contains(haystack, needle) ==> exists|i: int|
            0 <= i <= i + needle.len() <= haystack.len() && haystack == #[trigger] haystack.take(i)
                + needle + haystack.skip(i + needle.len()),
{
    let s = before + needle + behind;
    assert(s.subrange(before.len() as int, before.len() as int + needle.len()) =~= needle);
    assert(occurs_at(s, needle, before.len() as int));
    if contains(haystack, needle) {
        let i = choose|i: int| occurs_at(haystack, needle, i);
        assert(haystack =~= haystack.take(i) + haystack.subrange(i, i + needle.len())
            + haystack.skip(i + needle.len()));
    }
}

/// What holds something that holds a third thing holds the third too.
pub proof fn holding_is_transitive(a: Seq<u8>, b: Seq<u8>, c: Seq<u8>)
    requires
        contains(a, b),
        contains(b, c),
    ensures
        contains(a, c),
{
    let i = choose|i: int| occurs_at(a, b, i);
    let j = choose|j: int| occurs_at(b, c, j);
    assert(a.subrange(i + j, i + j + c.len()) =~= b.subrange(j, j + c.len())) by {
        assert(a.subrange(i, i + b.len()) == b);
        assert(b.subrange(j, j + c.len()) =~= a.subrange(i, i + b.len()).subrange(j, j + c.len()));
    }
    assert(occurs_at(a, c, i + j));
}

/// The first byte in which two texts differ decides which comes first; a text
/// comes before all that go on from it.
pub proof fn first_difference_decides(
    common: Seq<u8>,
    x: u8,
    y: u8,
    a: Seq<u8>,
    b: Seq<u8>,
)
    requires
        x < y,
    ensures
        precedes(common + seq![x] + a, common + seq![y] + b),
        !precedes(common + seq![y] + b, common + seq![x] + a),
        precedes(common, common + seq![x] + a),
        !precedes(common + seq![x] + a, common),
{
    let p = common + seq![x] + a;
    let q = common + seq![y] + b;
    let n = common.len() as int;
    lemma_precedes_at(p, q, n);
    assert(p.subrange(n, p.len() as int)[0] == x);
    assert(q.subrange(n, q.len() as int)[0] == y);
    precedes_is_total(p, q);
    lemma_precedes_at(common, p, n);
    assert(common.subrange(n, n).len() == 0);
    precedes_is_total(common, p);
}

} // verus!
