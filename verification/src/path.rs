//! Paths of Windows volumes: where the file name stands, its extension, the
//! directory it is in. Both separators are accepted. A prefix may stand in
//! front: a drive letter, a network share, a device, or one of a verbatim path,
//! in which a backslash alone separates and dots have no meaning.

use vstd::prelude::*;
use crate::text;
use crate::text::CharSet;

verus! {

pub open spec fn separators() -> CharSet {
    CharSet::Two('\\', '/')
}

pub open spec fn is_separator(c: char) -> bool {
    c == '\\' || c == '/'
}

/// Length of the drive letter and its colon.
pub open spec fn drive_len(s: Seq<char>) -> int {
    if s.len() >= 2 && text::is_ascii_letter(s[0]) && s[1] == ':' {
        2
    } else {
        0
    }
}

/// The first position from `from` on at which a character of `set` stands; the
/// end where there is none.
pub open spec fn component_end(s: Seq<char>, from: int, set: CharSet) -> int
    decreases s.len() - from,
{
    if from >= s.len() {
        s.len() as int
    } else if set.has(s[from]) {
        from
    } else {
        component_end(s, from + 1, set)
    }
}

/// The path starts with two separators.
pub open spec fn starts_double(s: Seq<char>) -> bool {
    s.len() >= 2 && is_separator(s[0]) && is_separator(s[1])
}

/// The path is verbatim: it starts with `\\?\`.
pub open spec fn verbatim(s: Seq<char>) -> bool {
    s.len() >= 4 && s[0] == '\\' && s[1] == '\\' && s[2] == '?' && s[3] == '\\'
}

/// What separates the segments of the path.
pub open spec fn separators_of(s: Seq<char>) -> CharSet {
    if verbatim(s) {
        CharSet::One('\\')
    } else {
        separators()
    }
}

/// The end of two components, the first of which starts at `from`; of the first
/// alone where the second is empty.
pub open spec fn share_end(s: Seq<char>, from: int, set: CharSet) -> int {
    let server = component_end(s, from, set);
    if server + 1 < s.len() && !set.has(s[server + 1]) {
        component_end(s, server + 1, set)
    } else {
        server
    }
}

/// Length of the prefix of a verbatim path: a share behind `UNC\`, a drive, or
/// the first component.
pub open spec fn verbatim_len(s: Seq<char>) -> int {
    let set = CharSet::One('\\');
    if s.len() >= 8 && s[4] == 'U' && s[5] == 'N' && s[6] == 'C' && s[7] == '\\' {
        share_end(s, 8, set)
    } else if s.len() >= 6 && text::is_ascii_letter(s[4]) && s[5] == ':' && (s.len() == 6
        || is_separator(s[6])) {
        6
    } else {
        component_end(s, 4, set)
    }
}

/// Length of what stands before the root: the drive letter and its colon, the
/// server and the share, the device, or the prefix of a verbatim path.
pub open spec fn prefix_len(s: Seq<char>) -> int {
    if verbatim(s) {
        verbatim_len(s)
    } else if starts_double(s) {
        if s.len() >= 4 && s[2] == '.' && is_separator(s[3]) {
            component_end(s, 4, separators())
        } else {
            let server = component_end(s, 2, separators());
            let end = share_end(s, 2, separators());
            if server > 2 && end > server {
                end
            } else {
                0
            }
        }
    } else {
        drive_len(s)
    }
}

/// A separator stands first, behind the prefix if there is one.
pub open spec fn has_root(s: Seq<char>) -> bool {
    prefix_len(s) < s.len() && separators_of(s).has(s[prefix_len(s)])
}

/// Length of what is no file name: the prefix, the separator of the root, and
/// the dot of a path that starts at the current directory.
pub open spec fn floor(s: Seq<char>) -> int {
    let d = prefix_len(s);
    if has_root(s) {
        d + 1
    } else if !verbatim(s) && d < s.len() && s[d] == '.' && (d + 1 == s.len() || is_separator(
        s[d + 1],
    )) {
        d + 1
    } else {
        d
    }
}

/// `s` without the separators at its end, down to `floor`, and without lone dots
/// where they have no meaning of their own.
pub open spec fn rstrip(s: Seq<char>, floor: int, set: CharSet, dots: bool) -> Seq<char>
    decreases s.len(),
{
    if s.len() == 0 || s.len() <= floor {
        s
    } else if set.has(s.last()) {
        rstrip(s.drop_last(), floor, set, dots)
    } else if dots && s.last() == '.' && (s.len() - 1 == floor || (s.len() >= 2 && set.has(
        s[s.len() - 2],
    ))) {
        rstrip(s.drop_last(), floor, set, dots)
    } else {
        s
    }
}

/// The start of a path without what ends in nothing.
pub open spec fn tidy(s: Seq<char>, part: Seq<char>) -> Seq<char> {
    rstrip(part, floor(s), separators_of(s), !verbatim(s))
}

/// The last segment of the path, and the length of what stands before it.
pub open spec fn last_segment(s: Seq<char>) -> Option<(int, Seq<char>)> {
    let t = tidy(s, s);
    if t.len() <= floor(s) {
        None
    } else {
        let name = text::after_last(t.subrange(floor(s), t.len() as int), separators_of(s));
        Some((t.len() - name.len(), name))
    }
}

/// The file name: the last segment, unless it leads to the parent directory or
/// stays in the same.
pub open spec fn file_name(s: Seq<char>) -> Option<Seq<char>> {
    match last_segment(s) {
        Some((_, name)) => if name == seq!['.', '.'] || name == seq!['.'] {
            None
        } else {
            Some(name)
        },
        None => None,
    }
}

/// The path without its last segment.
pub open spec fn parent(s: Seq<char>) -> Option<Seq<char>> {
    match last_segment(s) {
        Some((start, _)) => Some(tidy(s, s.subrange(0, start))),
        None => if floor(s) > prefix_len(s) && !has_root(s) {
            Some(s.subrange(0, prefix_len(s)))
        } else {
            None
        },
    }
}

/// Position of the last dot of a name, where it parts an extension off.
pub open spec fn dot_of(name: Seq<char>) -> Option<int> {
    let at = name.len() - text::after_last(name, CharSet::One('.')).len() - 1;
    if at <= 0 {
        None
    } else {
        Some(at)
    }
}

/// The extension of the file name.
pub open spec fn extension(s: Seq<char>) -> Option<Seq<char>> {
    match file_name(s) {
        Some(name) => match dot_of(name) {
            Some(at) => Some(name.subrange(at + 1, name.len() as int)),
            None => None,
        },
        None => None,
    }
}

/// The file name without its extension.
pub open spec fn file_stem(s: Seq<char>) -> Option<Seq<char>> {
    match file_name(s) {
        Some(name) => match dot_of(name) {
            Some(at) => Some(name.subrange(0, at)),
            None => Some(name),
        },
        None => None,
    }
}

/// The path of `name` seen from `dir`. A verbatim directory is taken as it
/// stands.
pub open spec fn join(dir: Seq<char>, name: Seq<char>) -> Seq<char> {
    if prefix_len(name) > 0 {
        name
    } else if has_root(name) {
        dir.subrange(0, prefix_len(dir)) + name
    } else if dir.len() == 0 || is_separator(dir.last()) || dir.len() == drive_len(dir) {
        dir + name
    } else {
        dir.push('\\') + name
    }
}

/// The path with another file name.
pub open spec fn with_file_name(s: Seq<char>, name: Seq<char>) -> Seq<char> {
    if file_name(s) is Some {
        join(parent(s)->0, name)
    } else {
        join(s, name)
    }
}

// ---------------------------------------------------------------------------

fn drive_length(v: &Vec<char>) -> (r: usize)
    ensures
        r == drive_len(v@),
        r <= v@.len(),
{
    if v.len() >= 2 && ((v[0] >= 'a' && v[0] <= 'z') || (v[0] >= 'A' && v[0] <= 'Z')) && v[1]
        == ':' {
        2
    } else {
        0
    }
}

fn separator(c: char) -> (r: bool)
    ensures
        r == is_separator(c),
{
    c == '\\' || c == '/'
}

fn end_of_component(v: &Vec<char>, from: usize, set: CharSet) -> (r: usize)
    requires
        from <= v@.len(),
    ensures
        r == component_end(v@, from as int, set),
        from <= r <= v@.len(),
{
    let mut i: usize = from;
    while i < v.len() && !set.holds(v[i])
        invariant
            from <= i <= v@.len(),
            component_end(v@, from as int, set) == component_end(v@, i as int, set),
        decreases v@.len() - i,
    {
        i += 1;
    }
    i
}

fn end_of_share(v: &Vec<char>, from: usize, set: CharSet) -> (r: usize)
    requires
        from <= v@.len(),
    ensures
        r == share_end(v@, from as int, set),
        from <= r <= v@.len(),
{
    let server = end_of_component(v, from, set);
    if server < v.len() && server + 1 < v.len() && !set.holds(v[server + 1]) {
        end_of_component(v, server + 1, set)
    } else {
        server
    }
}

fn is_verbatim(v: &Vec<char>) -> (r: bool)
    ensures
        r == verbatim(v@),
{
    v.len() >= 4 && v[0] == '\\' && v[1] == '\\' && v[2] == '?' && v[3] == '\\'
}

fn set_of(v: &Vec<char>) -> (r: CharSet)
    ensures
        r == separators_of(v@),
{
    if is_verbatim(v) {
        CharSet::One('\\')
    } else {
        CharSet::Two('\\', '/')
    }
}

fn verbatim_length(v: &Vec<char>) -> (r: usize)
    requires
        verbatim(v@),
    ensures
        r == verbatim_len(v@),
        4 <= r <= v@.len(),
{
    let set = CharSet::One('\\');
    if v.len() >= 8 && v[4] == 'U' && v[5] == 'N' && v[6] == 'C' && v[7] == '\\' {
        end_of_share(v, 8, set)
    } else if v.len() >= 6 && ((v[4] >= 'a' && v[4] <= 'z') || (v[4] >= 'A' && v[4] <= 'Z'))
        && v[5] == ':' && (v.len() == 6 || separator(v[6])) {
        6
    } else {
        end_of_component(v, 4, set)
    }
}

fn prefix_length(v: &Vec<char>) -> (r: usize)
    ensures
        r == prefix_len(v@),
        r <= v@.len(),
{
    if is_verbatim(v) {
        return verbatim_length(v);
    }
    if v.len() >= 2 && separator(v[0]) && separator(v[1]) {
        let set = CharSet::Two('\\', '/');
        if v.len() >= 4 && v[2] == '.' && separator(v[3]) {
            return end_of_component(v, 4, set);
        }
        let server = end_of_component(v, 2, set);
        let end = end_of_share(v, 2, set);
        return if server > 2 && end > server {
            end
        } else {
            0
        };
    }
    drive_length(v)
}

fn floor_of(v: &Vec<char>) -> (r: usize)
    ensures
        r == floor(v@),
        r <= v@.len(),
{
    let d = prefix_length(v);
    let set = set_of(v);
    if d < v.len() && set.holds(v[d]) {
        d + 1
    } else if !is_verbatim(v) && d < v.len() && v[d] == '.' && (d + 1 == v.len() || separator(
        v[d + 1],
    )) {
        d + 1
    } else {
        d
    }
}

/// Length of `tidy` of the first `n` characters.
fn stripped_len(v: &Vec<char>, n: usize, floor: usize) -> (r: usize)
    requires
        n <= v@.len(),
        floor == self::floor(v@),
    ensures
        r <= n,
        tidy(v@, v@.take(n as int)) == v@.take(r as int),
{
    let set = set_of(v);
    let dots = !is_verbatim(v);
    let mut k: usize = n;
    while k > floor && (set.holds(v[k - 1]) || (dots && v[k - 1] == '.' && (k - 1 == floor
        || set.holds(v[k - 2]))))
        invariant
            k <= n <= v@.len(),
            set == separators_of(v@),
            dots == !verbatim(v@),
            floor == self::floor(v@),
            rstrip(v@.take(n as int), floor as int, set, dots) == rstrip(
                v@.take(k as int),
                floor as int,
                set,
                dots,
            ),
        decreases k,
    {
        assert(v@.take(k as int).drop_last() =~= v@.take(k - 1));
        k -= 1;
    }
    k
}

/// Start and end of the last segment.
fn find_segment(v: &Vec<char>) -> (r: Option<(usize, usize)>)
    ensures
        match r {
            Some((start, end)) => floor(v@) <= start <= end <= v@.len() && last_segment(v@)
                == Some((start as int, v@.subrange(start as int, end as int))),
            None => last_segment(v@) is None,
        },
{
    let f = floor_of(v);
    let end = stripped_len(v, v.len(), f);
    assert(v@.take(v@.len() as int) =~= v@);
    if end <= f {
        return None;
    }
    let ghost t = v@.take(end as int);
    let ghost body = t.subrange(f as int, t.len() as int);
    let set = set_of(v);
    let mut start: usize = end;
    while start > f && !set.holds(v[start - 1])
        invariant
            f <= start <= end <= v@.len(),
            forall|i: int| start <= i < end ==> !set.has(#[trigger] v@[i]),
        decreases start,
    {
        start -= 1;
    }
    proof {
        assert forall|i: int| start - f <= i < body.len() implies !set.has(#[trigger] body[i]) by {
            assert(body[i] == v@[i + f]);
        }
        text::after_last_at(body, set, start - f);
        assert(body.subrange(start - f, body.len() as int) =~= v@.subrange(
            start as int,
            end as int,
        ));
    }
    Some((start, end))
}

fn only_dots(v: &Vec<char>, from: usize, to: usize) -> (r: bool)
    requires
        from <= to <= v@.len(),
    ensures
        r == (v@.subrange(from as int, to as int) == seq!['.', '.'] || v@.subrange(
            from as int,
            to as int,
        ) == seq!['.']),
{
    let ghost s = v@.subrange(from as int, to as int);
    if to - from == 1 && v[from] == '.' {
        assert(s =~= seq!['.']);
        true
    } else if to - from == 2 && v[from] == '.' && v[from + 1] == '.' {
        assert(s =~= seq!['.', '.']);
        true
    } else {
        proof {
            if s == seq!['.', '.'] {
                assert(s.len() == 2 && s[0] == '.' && s[1] == '.');
            }
            if s == seq!['.'] {
                assert(s.len() == 1 && s[0] == '.');
            }
        }
        false
    }
}

/// The file name of a path.
pub fn name_of(path: &str) -> (r: Option<String>)
    ensures
        text::text_of(r) == file_name(path@),
{
    let v = text::chars_of(path);
    match find_segment(&v) {
        Some((start, end)) => {
            if only_dots(&v, start, end) {
                None
            } else {
                Some(text::string_of(v.as_slice(), start, end))
            }
        },
        None => None,
    }
}

/// Position of the dot before the extension of a name.
fn find_dot(v: &Vec<char>) -> (r: Option<usize>)
    ensures
        match r {
            Some(at) => at < v@.len() && dot_of(v@) == Some(at as int),
            None => dot_of(v@) is None,
        },
{
    let mut n: usize = v.len();
    while n > 0 && v[n - 1] != '.'
        invariant
            n <= v@.len(),
            forall|i: int| n <= i < v@.len() ==> #[trigger] v@[i] != '.',
        decreases n,
    {
        n -= 1;
    }
    proof {
        text::after_last_at(v@, CharSet::One('.'), n as int);
    }
    if n <= 1 {
        None
    } else {
        Some(n - 1)
    }
}

/// The extension of the file name of a path.
pub fn extension_of(path: &str) -> (r: Option<String>)
    ensures
        text::text_of(r) == extension(path@),
{
    match name_of(path) {
        Some(name) => {
            let v = text::chars_of(name.as_str());
            let n = v.len();
            match find_dot(&v) {
                Some(at) => Some(text::string_of(v.as_slice(), at + 1, n)),
                None => None,
            }
        },
        None => None,
    }
}

/// The file name of a path without its extension.
pub fn stem_of(path: &str) -> (r: Option<String>)
    ensures
        text::text_of(r) == file_stem(path@),
{
    match name_of(path) {
        Some(name) => {
            let v = text::chars_of(name.as_str());
            match find_dot(&v) {
                Some(at) => Some(text::string_of(v.as_slice(), 0, at)),
                None => Some(name),
            }
        },
        None => None,
    }
}

/// The directory of a path.
pub fn parent_of(path: &str) -> (r: Option<String>)
    ensures
        text::text_of(r) == parent(path@),
{
    let v = text::chars_of(path);
    let f = floor_of(&v);
    match find_segment(&v) {
        Some((start, end)) => {
            let k = stripped_len(&v, start, f);
            assert(v@.take(start as int) =~= v@.subrange(0, start as int));
            assert(v@.take(k as int) =~= v@.subrange(0, k as int));
            Some(text::string_of(v.as_slice(), 0, k))
        },
        None => {
            let d = prefix_length(&v);
            if f > d && !set_of(&v).holds(v[d]) {
                Some(text::string_of(v.as_slice(), 0, d))
            } else {
                None
            }
        },
    }
}

/// The path of `name` seen from `dir`.
pub fn joined(dir: &str, name: &str) -> (r: String)
    ensures
        r@ == join(dir@, name@),
{
    let d = text::chars_of(dir);
    let n = text::chars_of(name);
    if prefix_length(&n) > 0 {
        return text::copy_text(name);
    }
    let mut r: String;
    if n.len() > 0 && set_of(&n).holds(n[0]) {
        r = text::string_of(d.as_slice(), 0, prefix_length(&d));
    } else {
        r = text::copy_text(dir);
        if d.len() > 0 && !separator(d[d.len() - 1]) && d.len() != drive_length(&d) {
            r.push('\\');
        }
    }
    text::push_text(&mut r, name);
    r
}

/// The path with another file name.
pub fn renamed(path: &str, name: &str) -> (r: String)
    ensures
        r@ == with_file_name(path@, name@),
{
    match name_of(path) {
        Some(_) => {
            let dir = parent_of(path);
            match dir {
                Some(dir) => joined(dir.as_str(), name),
                None => joined(path, name),
            }
        },
        None => joined(path, name),
    }
}

// ---------------------------------------------------------------------------
// Laws
// ---------------------------------------------------------------------------

/// The text can stand as a file name: it has no separator and no prefix, and is
/// none of the names with a meaning of their own.
pub open spec fn is_name(s: Seq<char>) -> bool {
    &&& s.len() > 0
    &&& s != seq!['.']
    &&& s != seq!['.', '.']
    &&& prefix_len(s) == 0
    &&& forall|i: int| 0 <= i < s.len() ==> !is_separator(#[trigger] s[i])
}

/// No slash stands in a verbatim path, where it separates nothing.
pub open spec fn no_lost_slash(s: Seq<char>) -> bool {
    verbatim(s) ==> forall|i: int| 0 <= i < s.len() ==> #[trigger] s[i] != '/'
}

proof fn lemma_rstrip(s: Seq<char>, floor: int, set: CharSet, dots: bool)
    ensures
        rstrip(s, floor, set, dots).len() <= s.len(),
        rstrip(s, floor, set, dots) == s.take(rstrip(s, floor, set, dots).len() as int),
        floor <= s.len() ==> floor <= rstrip(s, floor, set, dots).len(),
        rstrip(rstrip(s, floor, set, dots), floor, set, dots) == rstrip(s, floor, set, dots),
        0 <= floor && rstrip(s, floor, set, dots).len() < s.len() ==> ({
            let n = rstrip(s, floor, set, dots).len() as int;
            set.has(s[n]) || (s[n] == '.' && (n == floor || set.has(s[n - 1])))
        }),
    decreases s.len(),
{
    let r = rstrip(s, floor, set, dots);
    if r == s {
        assert(s.take(s.len() as int) =~= s);
    } else {
        lemma_rstrip(s.drop_last(), floor, set, dots);
        assert(s.drop_last().take(r.len() as int) =~= s.take(r.len() as int));
    }
}

proof fn lemma_after_last(s: Seq<char>, set: CharSet)
    ensures
        text::after_last(s, set).len() <= s.len(),
        text::after_last(s, set) == s.subrange(
            s.len() - text::after_last(s, set).len(),
            s.len() as int,
        ),
        text::after_last(s, set).len() < s.len() ==> set.has(
            s[s.len() - text::after_last(s, set).len() - 1],
        ),
        forall|i: int|
            0 <= i < text::after_last(s, set).len() ==> !set.has(
                #[trigger] text::after_last(s, set)[i],
            ),
    decreases s.len(),
{
    if s.len() > 0 && !set.has(s.last()) {
        let rest = s.drop_last();
        lemma_after_last(rest, set);
        let r = text::after_last(s, set);
        assert(r =~= s.subrange(s.len() - r.len(), s.len() as int));
    } else {
        assert(s.subrange(s.len() as int, s.len() as int) =~= seq![]);
    }
}

/// Where the last segment stands, and what the directory is.
proof fn lemma_segment(s: Seq<char>)
    requires
        last_segment(s) is Some,
    ensures
        last_segment(s) matches Some((start, name)) && 0 <= floor(s) <= start && start + name.len()
            <= s.len() && name == s.subrange(start, start + name.len()) && (start > floor(s)
            ==> separators_of(s).has(s[start - 1])) && parent(s) is Some
            && floor(s) <= parent(s)->0.len() <= start && forall|i: int|
            0 <= i < name.len() ==> !separators_of(s).has(#[trigger] name[i]),
        parent(s)->0 == s.take(parent(s)->0.len() as int),
        tidy(s, parent(s)->0) == parent(s)->0,
        last_segment(s) matches Some((start, _)) && parent(s)->0.len() < start ==> ({
            let n = parent(s)->0.len() as int;
            separators_of(s).has(s[n]) || (s[n] == '.' && (n == floor(s) || separators_of(s).has(
                s[n - 1],
            )))
        }),
{
    lemma_floor(s);
    let f = floor(s);
    let set = separators_of(s);
    let t = tidy(s, s);
    lemma_rstrip(s, f, set, !verbatim(s));
    let body = t.subrange(f, t.len() as int);
    lemma_after_last(body, set);
    let (start, name) = last_segment(s)->0;
    assert(name =~= s.subrange(start, start + name.len()));
    let part = s.subrange(0, start);
    lemma_rstrip(part, f, set, !verbatim(s));
    let dir = parent(s)->0;
    assert(dir =~= s.take(dir.len() as int));
}

proof fn lemma_component_end(s: Seq<char>, from: int, set: CharSet)
    requires
        0 <= from <= s.len(),
    ensures
        from <= component_end(s, from, set) <= s.len(),
    decreases s.len() - from,
{
    if from < s.len() && !set.has(s[from]) {
        lemma_component_end(s, from + 1, set);
    }
}

proof fn lemma_share_end(s: Seq<char>, from: int, set: CharSet)
    requires
        0 <= from <= s.len(),
    ensures
        from <= share_end(s, from, set) <= s.len(),
{
    lemma_component_end(s, from, set);
    let server = component_end(s, from, set);
    if server + 1 < s.len() {
        lemma_component_end(s, server + 1, set);
    }
}

proof fn lemma_floor(s: Seq<char>)
    ensures
        0 <= prefix_len(s) <= floor(s) <= s.len(),
        verbatim(s) ==> prefix_len(s) >= 4,
{
    let one = CharSet::One('\\');
    if verbatim(s) {
        lemma_component_end(s, 4, one);
        if s.len() >= 8 {
            lemma_share_end(s, 8, one);
        }
    } else if starts_double(s) {
        lemma_component_end(s, 2, separators());
        lemma_share_end(s, 2, separators());
        if s.len() >= 4 {
            lemma_component_end(s, 4, separators());
        }
    }
}

/// No separator stands in a file name.
pub proof fn file_names_have_no_separator(s: Seq<char>)
    requires
        file_name(s) is Some,
        no_lost_slash(s),
    ensures
        file_name(s)->0.len() > 0,
        forall|i: int|
            0 <= i < file_name(s)->0.len() ==> !is_separator(#[trigger] file_name(s)->0[i]),
{
    lemma_segment(s);
    let name = file_name(s)->0;
    let f = floor(s);
    let set = separators_of(s);
    let t = tidy(s, s);
    lemma_rstrip(s, f, set, !verbatim(s));
    let body = t.subrange(f, t.len() as int);
    lemma_after_last(body, set);
    assert(t.last() == body.last());
    assert(name.len() > 0) by {
        if name.len() == 0 {
            assert(set.has(body[body.len() - 1]));
            lemma_rstrip(t.drop_last(), f, set, !verbatim(s));
            assert(tidy(s, t) != t);
        }
    }
    assert forall|i: int| 0 <= i < name.len() implies !is_separator(#[trigger] name[i]) by {
        assert(!set.has(name[i]));
    }
}

/// A path with another file name has that file name, in the same directory, as
/// long as the new name does not change how the start of the path is read.
pub proof fn renaming_stays_in_the_directory(s: Seq<char>, name: Seq<char>)
    requires
        file_name(s) is Some,
        no_lost_slash(s),
        is_name(name),
        floor(with_file_name(s, name)) == floor(s),
    ensures
        file_name(with_file_name(s, name)) == Some(name),
        parent(with_file_name(s, name)) == parent(s),
{
    let f = floor(s);
    let dir = parent(s)->0;
    let r = with_file_name(s, name);
    lemma_segment(s);
    lemma_floor(s);
    lemma_floor(r);
    assert(!has_root(name)) by {
        assert(!is_separator(name[0]));
    }
    if !verbatim(s) {
        lemma_bare_drive(dir, s);
    } else {
        assert(s[0] == '\\');
        assert(dir.len() > 0 && dir[0] == s[0]);
        assert(dir.last() == s[dir.len() - 1]);
    }
    let gap = if r.len() == dir.len() + name.len() {
        Seq::<char>::empty()
    } else {
        seq!['\\']
    };
    assert(r =~= dir + gap + name);
    assert(verbatim(r) == verbatim(s)) by {
        if verbatim(r) || verbatim(s) {
            assert(f >= 4 && dir.len() >= 4);
            assert(s[0] == r[0] && s[1] == r[1] && s[2] == r[2] && s[3] == r[3]);
        }
    }
    lemma_appended(r, dir, gap, name);
    assert(tidy(r, dir) == tidy(s, dir));
}

/// The last segment of a path that was put together from a directory, what
/// parts them, and a name.
#[verifier::rlimit(40)]
proof fn lemma_appended(r: Seq<char>, dir: Seq<char>, gap: Seq<char>, name: Seq<char>)
    requires
        is_name(name),
        r == dir + gap + name,
        gap == Seq::<char>::empty() || gap == seq!['\\'],
        0 <= floor(r) <= dir.len(),
        gap.len() == 0 && dir.len() > floor(r) ==> separators_of(r).has(dir.last()),
    ensures
        last_segment(r) == Some(((dir.len() + gap.len()) as int, name)),
        parent(r) == Some(tidy(r, dir)),
{
    let f = floor(r);
    let set = separators_of(r);
    let start = (dir.len() + gap.len()) as int;
    assert(r.subrange(start, r.len() as int) =~= name);
    assert(r.last() == name.last());
    assert(!is_separator(name[name.len() - 1]));
    assert(tidy(r, r) == r) by {
        if name.len() >= 2 {
            assert(r[r.len() - 2] == name[name.len() - 2]);
            assert(!is_separator(name[name.len() - 2]));
        } else {
            assert(name =~= seq![name[0]]);
        }
    }
    let body = r.subrange(f, r.len() as int);
    assert forall|i: int| start - f <= i < body.len() implies !set.has(#[trigger] body[i]) by {
        assert(body[i] == name[i - (start - f)]);
        assert(!is_separator(name[i - (start - f)]));
    }
    assert(start > f ==> set.has(body[start - f - 1])) by {
        if start > f {
            assert(body[start - f - 1] == r[start - 1]);
            if gap.len() == 0 {
                assert(r[start - 1] == dir[dir.len() - 1]);
            } else {
                assert(r[start - 1] == gap[0]);
            }
        }
    }
    text::after_last_at(body, set, start - f);
    assert(body.subrange(start - f, body.len() as int) =~= name);
    let part = r.subrange(0, start);
    if gap.len() == 0 {
        assert(part =~= dir);
    } else {
        assert(part =~= dir.push('\\'));
        assert(part.drop_last() =~= dir);
    }
}

/// A directory that is a bare drive ends where its file names start.
proof fn lemma_bare_drive(dir: Seq<char>, s: Seq<char>)
    requires
        !verbatim(s),
        floor(s) <= dir.len() <= s.len(),
        dir == s.take(dir.len() as int),
    ensures
        dir.len() == drive_len(dir) && dir.len() > 0 ==> dir.len() == floor(s),
{
    if dir.len() == drive_len(dir) && dir.len() > 0 {
        assert(s[0] == dir[0] && s[1] == dir[1]);
        assert(drive_len(s) == 2);
        assert(!starts_double(s));
    }
}

proof fn lemma_same_component_end(s: Seq<char>, r: Seq<char>, from: int, set: CharSet, n: int)
    requires
        0 <= from,
        n <= s.len(),
        n <= r.len(),
        forall|i: int| 0 <= i < n ==> #[trigger] r[i] == s[i],
        component_end(s, from, set) < n,
    ensures
        component_end(r, from, set) == component_end(s, from, set),
        from < s.len() && set.has(s[component_end(s, from, set)]),
    decreases s.len() - from,
{
    if from < s.len() && !set.has(s[from]) {
        lemma_component_end(s, from + 1, set);
        lemma_same_component_end(s, r, from + 1, set, n);
        assert(r[from] == s[from]);
    } else if from < s.len() {
        assert(r[from] == s[from]);
    }
}

/// The prefix of a share or a device is that of every path that starts with it
/// and a separator.
proof fn lemma_same_prefix(s: Seq<char>, r: Seq<char>)
    requires
        starts_double(s),
        !verbatim(s),
        prefix_len(s) > 0,
        prefix_len(s) < s.len(),
        prefix_len(s) < r.len(),
        forall|i: int| 0 <= i <= prefix_len(s) ==> #[trigger] r[i] == s[i],
    ensures
        prefix_len(r) == prefix_len(s),
        !verbatim(r),
        has_root(s),
{
    let set = separators();
    let d = prefix_len(s);
    lemma_component_end(s, 2, set);
    lemma_share_end(s, 2, set);
    if s.len() >= 4 {
        lemma_component_end(s, 4, set);
    }
    assert(r[0] == s[0] && r[1] == s[1] && r[2] == s[2]);
    if s.len() >= 4 && s[2] == '.' && is_separator(s[3]) {
        assert(r[3] == s[3]);
        lemma_same_component_end(s, r, 4, set, d + 1);
    } else {
        let server = component_end(s, 2, set);
        assert(d >= 4);
        assert(r[3] == s[3]);
        lemma_same_component_end(s, r, 2, set, d + 1);
        lemma_component_end(s, server + 1, set);
        lemma_same_component_end(s, r, server + 1, set, d + 1);
        assert(r[server + 1] == s[server + 1]);
    }
}

/// A path with another file name ends in that name.
pub proof fn renamed_path_ends_in_the_name(s: Seq<char>, name: Seq<char>)
    ensures
        with_file_name(s, name).len() >= name.len(),
        with_file_name(s, name).subrange(
            with_file_name(s, name).len() - name.len(),
            with_file_name(s, name).len() as int,
        ) == name,
{
    let dir = if file_name(s) is Some {
        parent(s)->0
    } else {
        s
    };
    lemma_floor(dir);
    let r = join(dir, name);
    assert(r.subrange(r.len() - name.len(), r.len() as int) =~= name);
}

/// The directory is a server alone, with separators but no share behind it, as
/// in `\\server\\file`. Another file name takes the place of the share.
pub open spec fn lone_server(s: Seq<char>) -> bool {
    &&& starts_double(s)
    &&& prefix_len(s) == 0
    &&& component_end(s, 2, separators()) > 2
    &&& parent(s) matches Some(dir) && dir.len() == component_end(s, 2, separators())
}

/// The start of a path is read the same with another file name, unless the
/// directory is a server alone.
pub proof fn renaming_keeps_the_start(s: Seq<char>, name: Seq<char>)
    requires
        file_name(s) is Some,
        !verbatim(s),
        !lone_server(s),
        is_name(name),
    ensures
        floor(with_file_name(s, name)) == floor(s),
{
    if starts_double(s) && prefix_len(s) == 0 {
        lemma_no_share_start(s, name);
    } else if starts_double(s) {
        let dir = parent(s)->0;
        let r = with_file_name(s, name);
        lemma_segment(s);
        lemma_floor(s);
        assert(!is_separator(name[0]));
        assert(!has_root(name));
        assert forall|i: int| 0 <= i < dir.len() implies #[trigger] r[i] == s[i] by {
            assert(dir[i] == s[i]);
        }
        assert(prefix_len(s) < s.len()) by {
            let (start, segment) = last_segment(s)->0;
            lemma_rstrip(s, floor(s), separators_of(s), true);
        }
        lemma_share_root(s);
        lemma_same_prefix(s, r);
        assert(r[prefix_len(s)] == s[prefix_len(s)]);
    } else {
        lemma_plain_start(s, name);
    }
}

/// A separator stands behind the prefix of a share or a device that does not end
/// there.
proof fn lemma_share_root(s: Seq<char>)
    requires
        starts_double(s),
        !verbatim(s),
        0 < prefix_len(s) < s.len(),
    ensures
        has_root(s),
{
    let set = separators();
    lemma_component_end(s, 2, set);
    lemma_share_end(s, 2, set);
    if s.len() >= 4 && s[2] == '.' && is_separator(s[3]) {
        lemma_same_component_end(s, s, 4, set, s.len() as int);
    } else {
        let server = component_end(s, 2, set);
        lemma_component_end(s, server + 1, set);
        lemma_same_component_end(s, s, server + 1, set, s.len() as int);
    }
}

proof fn lemma_no_share_start(s: Seq<char>, name: Seq<char>)
    requires
        file_name(s) is Some,
        !verbatim(s),
        starts_double(s),
        prefix_len(s) == 0,
        !lone_server(s),
        is_name(name),
    ensures
        floor(with_file_name(s, name)) == floor(s),
{
    let set = separators();
    let dir = parent(s)->0;
    let r = with_file_name(s, name);
    lemma_segment(s);
    lemma_floor(s);
    assert(!is_separator(name[0]));
    assert(!has_root(name));
    assert forall|i: int| 0 <= i < dir.len() implies #[trigger] r[i] == s[i] by {
        assert(dir[i] == s[i]);
    }
    assert(floor(s) == 1);
    assert(r[0] == s[0]);
    if dir.len() == 1 {
        assert(r =~= dir + name);
        assert(r[1] == name[0]);
    } else {
        assert(!is_separator(dir.last())) by {
            if set.has(dir.last()) {
                lemma_rstrip(dir.drop_last(), 1, set, true);
            }
        }
        assert(dir.last() == s[dir.len() - 1]);
        assert(dir.len() > 2);
        assert(r[1] == s[1] && r[2] == s[2]);
        let server = component_end(s, 2, set);
        lemma_component_end(s, 2, set);
        lemma_component_end(r, 2, set);
        if server > 2 {
            lemma_between(s, 2, set, dir.len() as int);
            lemma_between(s, 2, set, dir.len() - 1);
            file_names_have_no_separator(s);
            assert(dir.len() > server);
            lemma_same_component_end(s, s, 2, set, server + 1);
            assert(set.has(s[server]));
            assert(dir.len() > server + 1);
            lemma_component_end(s, 4, set);
            lemma_component_end(s, server + 1, set);
            assert(set.has(s[server + 1]));
            lemma_same_component_end(s, r, 2, set, server + 1);
            assert(r[3] == s[3]);
            assert(r[server + 1] == s[server + 1]);
            assert(share_end(r, 2, set) == server);
        } else {
            lemma_component_end(s, 3, set);
            assert(set.has(s[2]));
            assert(component_end(r, 2, set) == 2);
        }
        assert(!verbatim(r));
        assert(prefix_len(r) == 0);
    }
}

/// No character of the set stands before the end of a component.
proof fn lemma_between(s: Seq<char>, from: int, set: CharSet, at: int)
    requires
        0 <= from,
    ensures
        from <= at < component_end(s, from, set) ==> !set.has(s[at]),
    decreases s.len() - from,
{
    if from < s.len() && !set.has(s[from]) {
        lemma_between(s, from + 1, set, at);
    }
}

proof fn lemma_plain_start(s: Seq<char>, name: Seq<char>)
    requires
        file_name(s) is Some,
        !starts_double(s),
        is_name(name),
    ensures
        floor(with_file_name(s, name)) == floor(s),
{
    let f = floor(s);
    let d = drive_len(s);
    let dir = parent(s)->0;
    let r = with_file_name(s, name);
    lemma_segment(s);
    assert(!is_separator(name[0]));
    assert(!has_root(name));
    assert(drive_len(name) == 0) by {
        assert(!starts_double(name));
    }
    let start = r.len() - name.len();
    assert(r[start] == name[0]);
    assert forall|i: int| 0 <= i < dir.len() implies #[trigger] r[i] == s[i] by {
        assert(dir[i] == s[i]);
    }
    if start > dir.len() {
        assert(r[dir.len() as int] == '\\');
    }
    if dir.len() == 0 {
        assert(r =~= name);
    } else if dir.len() == 1 {
        assert(r[0] == s[0]);
    } else {
        assert(r[0] == s[0] && r[1] == s[1]);
    }
    assert(!starts_double(r));
    assert(drive_len(r) == d);
    if name.len() > 1 {
        assert(!is_separator(name[1]));
        assert(r[start + 1] == name[1]);
    } else {
        assert(name =~= seq![name[0]]);
    }
    if dir.len() > d {
        assert(r[d] == s[d]);
        if dir.len() > d + 1 {
            assert(r[d + 1] == s[d + 1]);
        }
    }
}

// ---------------------------------------------------------------------------
// Paths of a drive
// ---------------------------------------------------------------------------

/// The text can name a file: it has no separator and no colon, and is not one of
/// the two that mean a directory.
pub open spec fn plain_name(s: Seq<char>) -> bool {
    &&& s.len() > 0
    &&& s != seq!['.']
    &&& s != seq!['.', '.']
    &&& forall|i: int|
        0 <= i < s.len() ==> #[trigger] s[i] != '\\' && s[i] != '/' && s[i] != ':'
}

proof fn lemma_plain_name(s: Seq<char>)
    requires
        plain_name(s),
    ensures
        is_name(s),
{
    assert(s[0] != '\\' && s[0] != '/');
    if s.len() >= 2 {
        assert(s[1] != ':');
    }
}

/// In a path that starts with a drive, the file name is what stands behind the
/// last separator.
pub proof fn names_stand_behind_the_last_separator(dir: Seq<char>, name: Seq<char>)
    requires
        dir.len() >= 3,
        'a' <= dir[0] <= 'z' || 'A' <= dir[0] <= 'Z',
        dir[1] == ':',
        dir.last() == '\\' || dir.last() == '/',
        plain_name(name),
    ensures
        file_name(dir + name) == Some(name),
        extension(dir + name) == extension(name),
        file_stem(dir + name) == file_stem(name),
{
    let r = dir + name;
    let none = Seq::<char>::empty();
    lemma_plain_name(name);
    assert(r[0] == dir[0] && r[1] == dir[1] && r[2] == dir[2]);
    assert(r =~= dir + none + name);
    assert(prefix_len(r) == 2);
    assert(floor(r) <= 3);
    lemma_appended(r, dir, none, name);
    names_alone(name);
}

/// A name alone is a file name.
pub proof fn names_alone(name: Seq<char>)
    requires
        plain_name(name),
    ensures
        file_name(name) == Some(name),
{
    let none = Seq::<char>::empty();
    lemma_plain_name(name);
    assert(name =~= none + none + name);
    assert(!is_separator(name[0]));
    if name.len() == 1 {
        assert(name =~= seq![name[0]]);
    } else {
        assert(!is_separator(name[1]));
    }
    lemma_appended(name, none, none, name);
}

/// The extension of a name is what stands behind its last dot, and its stem what
/// stands before it, unless nothing stands before it.
pub proof fn extensions_stand_behind_the_last_dot(stem: Seq<char>, ext: Seq<char>)
    requires
        plain_name(stem + seq!['.'] + ext),
        stem.len() > 0,
        !ext.contains('.'),
    ensures
        extension(stem + seq!['.'] + ext) == Some(ext),
        file_stem(stem + seq!['.'] + ext) == Some(stem),
{
    let name = stem + seq!['.'] + ext;
    names_alone(name);
    assert forall|i: int| stem.len() + 1 <= i < name.len() implies !CharSet::One('.').has(
        #[trigger] name[i],
    ) by {
        assert(name[i] == ext[i - stem.len() - 1]);
        assert(ext.contains(ext[i - stem.len() - 1]));
    }
    text::after_last_at(name, CharSet::One('.'), stem.len() as int + 1);
    assert(name.subrange(stem.len() as int + 1, name.len() as int) =~= ext);
    assert(name.subrange(0, stem.len() as int) =~= stem);
}

/// A name without a dot, or with none but its first character, has no extension.
pub proof fn names_without_extension(name: Seq<char>)
    requires
        plain_name(name),
        !name.drop_first().contains('.'),
    ensures
        extension(name) is None,
        file_stem(name) == Some(name),
{
    names_alone(name);
    assert forall|i: int| 1 <= i < name.len() implies !CharSet::One('.').has(#[trigger] name[i]) by {
        assert(name.drop_first()[i - 1] == name[i]);
        assert(name.drop_first().contains(name.drop_first()[i - 1]));
    }
    if name[0] == '.' {
        text::after_last_at(name, CharSet::One('.'), 1);
    } else {
        text::after_last_at(name, CharSet::One('.'), 0);
    }
}

/// The directory of a path that starts with a drive is what stands before the
/// last separator; that of a file in the root is the root.
pub proof fn directories_stand_before_the_last_separator(dir: Seq<char>, name: Seq<char>)
    requires
        dir.len() >= 2,
        'a' <= dir[0] <= 'z' || 'A' <= dir[0] <= 'Z',
        dir[1] == ':',
        dir.len() > 2 ==> dir[2] == '\\' && dir.len() > 3 && dir.last() != '\\' && dir.last() != '/'
            && dir.last() != '.',
        plain_name(name),
    ensures
        dir.len() > 2 ==> parent(dir.push('\\') + name) == Some(dir),
        dir.len() == 2 ==> parent(dir.push('\\') + name) == Some(dir.push('\\')),
{
    let r = dir.push('\\') + name;
    let none = Seq::<char>::empty();
    lemma_plain_name(name);
    assert(r[0] == dir[0] && r[1] == dir[1]);
    assert(r[2] == '\\') by {
        if dir.len() > 2 {
            assert(r[2] == dir[2]);
        }
    }
    assert(prefix_len(r) == 2);
    assert(floor(r) == 3);
    if dir.len() > 2 {
        assert(r =~= dir + seq!['\\'] + name);
        lemma_appended(r, dir, seq!['\\'], name);
    } else {
        assert(r =~= dir.push('\\') + none + name);
        lemma_appended(r, dir.push('\\'), none, name);
    }
}

/// A name seen from a directory stands behind it, parted by one separator.
pub proof fn joining_parts_by_one_separator(dir: Seq<char>, name: Seq<char>)
    requires
        plain_name(name),
        dir.len() > 2,
    ensures
        dir.last() == '\\' || dir.last() == '/' ==> join(dir, name) == dir + name,
        dir.last() != '\\' && dir.last() != '/' ==> join(dir, name) == dir + seq!['\\'] + name,
{
    lemma_plain_name(name);
    assert(!is_separator(name[0]));
    assert(!has_root(name));
    assert(dir.push('\\') + name =~= dir + seq!['\\'] + name);
}

/// In a path on a share, the server and the share belong to no file name: the
/// file name is what stands behind the last separator.
pub proof fn names_stand_behind_the_share(
    server: Seq<char>,
    share: Seq<char>,
    dirs: Seq<char>,
    name: Seq<char>,
)
    requires
        server.len() > 0,
        share.len() > 0,
        server != seq!['.'],
        server != seq!['?'],
        forall|i: int| 0 <= i < server.len() ==> #[trigger] server[i] != '\\' && server[i] != '/',
        forall|i: int| 0 <= i < share.len() ==> #[trigger] share[i] != '\\' && share[i] != '/',
        dirs.len() > 0 ==> dirs.last() == '\\' || dirs.last() == '/',
        plain_name(name),
    ensures
        ({
            let root = seq!['\\', '\\'] + server + seq!['\\'] + share + seq!['\\'];
            &&& file_name(root + dirs + name) == Some(name)
            &&& file_name(root) is None
            &&& parent(root + name) == Some(root)
        }),
{
    let none = Seq::<char>::empty();
    let root = seq!['\\', '\\'] + server + seq!['\\'] + share + seq!['\\'];
    let whole = root + dirs + name;
    let short = root + name;
    let dir = root + dirs;
    lemma_plain_name(name);
    lemma_share_floor(server, share, dirs + name);
    lemma_share_floor(server, share, name);
    lemma_share_floor(server, share, none);
    assert(root + (dirs + name) =~= whole);
    assert(root + none =~= root);
    assert(whole =~= dir + none + name);
    assert(dir.last() == '\\' || dir.last() == '/') by {
        if dirs.len() > 0 {
            assert(dir.last() == dirs.last());
        } else {
            assert(dir =~= root);
        }
    }
    lemma_appended(whole, dir, none, name);
    assert(short =~= root + none + name);
    lemma_appended(short, root, none, name);
    assert(tidy(short, root) == root);
}

proof fn lemma_share_floor(server: Seq<char>, share: Seq<char>, rest: Seq<char>)
    requires
        server.len() > 0,
        share.len() > 0,
        server != seq!['.'],
        server != seq!['?'],
        forall|i: int| 0 <= i < server.len() ==> #[trigger] server[i] != '\\' && server[i] != '/',
        forall|i: int| 0 <= i < share.len() ==> #[trigger] share[i] != '\\' && share[i] != '/',
    ensures
        ({
            let root = seq!['\\', '\\'] + server + seq!['\\'] + share + seq!['\\'];
            &&& floor(root + rest) == root.len()
            &&& separators_of(root + rest) == separators()
            &&& !verbatim(root + rest)
        }),
{
    let root = seq!['\\', '\\'] + server + seq!['\\'] + share + seq!['\\'];
    let s = root + rest;
    let set = separators();
    let n = server.len() as int;
    let m = share.len() as int;
    assert(s[0] == '\\' && s[1] == '\\');
    assert forall|i: int| 2 <= i < 2 + n implies #[trigger] s[i] == server[i - 2] by {}
    assert(s[2 + n] == '\\');
    assert forall|i: int| 3 + n <= i < 3 + n + m implies #[trigger] s[i] == share[i - 3 - n] by {}
    assert(s[3 + n + m] == '\\');
    assert(s[2] == server[0]);
    if n == 1 {
        assert(server =~= seq![server[0]]);
    } else {
        assert(s[3] == server[1]);
    }
    assert(!verbatim(s));
    lemma_component_at(s, 2, set, 2 + n);
    lemma_component_at(s, 3 + n, set, 3 + n + m);
    assert(s[3 + n] == share[0]);
}

proof fn lemma_component_at(s: Seq<char>, from: int, set: CharSet, end: int)
    requires
        0 <= from <= end < s.len(),
        forall|i: int| from <= i < end ==> !set.has(#[trigger] s[i]),
        set.has(s[end]),
    ensures
        component_end(s, from, set) == end,
    decreases end - from,
{
    if from < end {
        assert(!set.has(s[from]));
        lemma_component_at(s, from + 1, set, end);
    }
}

} // verus!
