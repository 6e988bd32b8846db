//! How well a path answers a query.

use vstd::prelude::*;
use std::cmp::Ordering;
use crate::bytes;
use crate::order;
use crate::order::Key;
use crate::order::SortKey;
use crate::path;
use crate::text;
use crate::text::CharSet;

verus! {

/// The first position of `query` in `name`, in bytes; past every position
/// where it stands nowhere.
pub open spec fn match_position(name: Seq<char>, query: Seq<char>) -> int {
    match bytes::first_at(bytes::utf8(name), bytes::utf8(query)) {
        Some(at) => at,
        None => usize::MAX as int,
    }
}

/// What a path is ranked by: whether its file name starts with the query,
/// where the query stands in the file name, how long the path is, and the
/// path itself.
pub open spec fn relevance(path: Seq<char>, query: Seq<char>) -> Key {
    let name = text::lower(text::after_last(path, path::separators()));
    Key {
        group: if text::starts_with(name, query) {
            0
        } else {
            1
        },
        first: match_position(name, query),
        second: text::byte_len(path) as int,
        name: bytes::utf8(path),
    }
}

/// What a path is ranked by, for a query in lower case.
pub fn path_relevance_key(path: &str, query_lower: &str) -> (r: SortKey)
    ensures
        r@ == relevance(path@, query_lower@),
{
    let name = text::to_lower(text::behind_last(path, CharSet::Two('\\', '/')).as_str());
    let group: u8 = if text::begins_with(name.as_str(), query_lower) {
        0
    } else {
        1
    };
    let first: usize = match bytes::find(name.as_str().as_bytes(), query_lower.as_bytes()) {
        Some(at) => at,
        None => usize::MAX,
    };
    SortKey { group, first, second: text::len_in_bytes(path), name: bytes::copy_bytes(path.as_bytes()) }
}

/// Which of two paths answers the query better.
pub fn compare_relevance_paths(a: &str, b: &str, query_lower: &str) -> (r: Ordering)
    ensures
        r == Ordering::Less <==> order::key_less(relevance(a@, query_lower@), relevance(b@, query_lower@)),
        r == Ordering::Greater <==> order::key_less(relevance(b@, query_lower@), relevance(a@, query_lower@)),
        r == Ordering::Equal <==> a@ == b@,
{
    let x = path_relevance_key(a, query_lower);
    let y = path_relevance_key(b, query_lower);
    proof {
        order::key_order_is_total(x@, y@);
        if x@ == y@ {
            bytes::utf8_is_injective(a@, b@);
        }
    }
    if order::smaller(&x, &y) {
        Ordering::Less
    } else if order::smaller(&y, &x) {
        Ordering::Greater
    } else {
        Ordering::Equal
    }
}

/// A path whose file name starts with the query comes before every path whose
/// file name does not.
pub proof fn prefix_match_comes_first(a: Seq<char>, b: Seq<char>, query: Seq<char>)
    requires
        text::starts_with(text::lower(text::after_last(a, path::separators())), query),
        !text::starts_with(text::lower(text::after_last(b, path::separators())), query),
    ensures
        order::key_less(relevance(a, query), relevance(b, query)),
{
}

/// Of two paths whose file names both start with the query, or both do not, the
/// one comes first in whose file name the query stands earlier; then the shorter
/// one; then the one that comes first in the order of its bytes.
pub proof fn earlier_then_shorter_comes_first(a: Seq<char>, b: Seq<char>, query: Seq<char>)
    requires
        text::starts_with(text::lower(text::after_last(a, path::separators())), query)
            == text::starts_with(text::lower(text::after_last(b, path::separators())), query),
    ensures
        ({
            let x = bytes::first_at(
                bytes::utf8(text::lower(text::after_last(a, path::separators()))),
                bytes::utf8(query),
            );
            let y = bytes::first_at(
                bytes::utf8(text::lower(text::after_last(b, path::separators()))),
                bytes::utf8(query),
            );
            let m = bytes::utf8(a).len();
            let n = bytes::utf8(b).len();
            &&& x matches Some(i) ==> y matches Some(j) ==> i < j ==> order::key_less(
                relevance(a, query),
                relevance(b, query),
            )
            &&& x == y && m < n ==> order::key_less(relevance(a, query), relevance(b, query))
            &&& x == y && m == n && bytes::precedes(bytes::utf8(a), bytes::utf8(b))
                ==> order::key_less(relevance(a, query), relevance(b, query))
        }),
{
}

/// What counts of a path is its file name, in any case of its letters: a query
/// that stands at its start beats one that stands in its midst, in whatever
/// directories the files are.
pub proof fn file_names_decide(
    dir: Seq<char>,
    name: Seq<char>,
    other_dir: Seq<char>,
    other: Seq<char>,
    query: Seq<char>,
)
    requires
        dir.len() > 0 ==> dir.last() == '\\' || dir.last() == '/',
        other_dir.len() > 0 ==> other_dir.last() == '\\' || other_dir.last() == '/',
        forall|i: int| 0 <= i < name.len() ==> #[trigger] name[i] != '\\' && name[i] != '/',
        forall|i: int| 0 <= i < other.len() ==> #[trigger] other[i] != '\\' && other[i] != '/',
        text::lower(name).len() >= query.len(),
        text::lower(name).take(query.len() as int) == query,
        !(other.len() >= query.len() && text::lower(other).take(query.len() as int) == query),
    ensures
        order::key_less(relevance(dir + name, query), relevance(other_dir + other, query)),
        !order::key_less(relevance(other_dir + other, query), relevance(dir + name, query)),
{
    lemma_file_name(dir, name);
    lemma_file_name(other_dir, other);
    let low = text::lower(name);
    assert(low.subrange(0, query.len() as int) =~= low.take(query.len() as int));
    if text::starts_with(text::lower(other), query) {
        assert(text::lower(other).subrange(0, query.len() as int) =~= text::lower(other).take(
            query.len() as int,
        ));
    }
}

proof fn lemma_file_name(dir: Seq<char>, name: Seq<char>)
    requires
        dir.len() > 0 ==> dir.last() == '\\' || dir.last() == '/',
        forall|i: int| 0 <= i < name.len() ==> #[trigger] name[i] != '\\' && name[i] != '/',
    ensures
        text::after_last(dir + name, path::separators()) == name,
{
    let s = dir + name;
    let set = path::separators();
    assert forall|i: int| dir.len() <= i < s.len() implies !set.has(#[trigger] s[i]) by {
        assert(s[i] == name[i - dir.len()]);
    }
    if dir.len() > 0 {
        assert(s[dir.len() - 1] == dir.last());
    }
    text::after_last_at(s, set, dir.len() as int);
    assert(s.subrange(dir.len() as int, s.len() as int) =~= name);
}

} // verus!
