//! The trigram index: for every three bytes that a name holds, the entries
//! whose name holds them.

use vstd::prelude::*;
use std::collections::HashMap;
use std::collections::HashSet;
use crate::arena;
use crate::bytes;
use crate::entry;
use crate::entry::Entry;
use crate::entry::FileEntry;
use crate::order;
use crate::order::SortKey;

verus! {

broadcast use vstd::std_specs::hash::group_hash_axioms;

// ---------------------------------------------------------------------------
// Trigrams of a byte string
// ---------------------------------------------------------------------------

/// Three bytes as one number.
pub open spec fn gram(a: u8, b: u8, c: u8) -> u32 {
    ((a as u32) << 16u32) | ((b as u32) << 8u32) | (c as u32)
}

/// The trigram at position `i`.
pub open spec fn gram_at(s: Seq<u8>, i: int) -> u32 {
    gram(s[i], s[i + 1], s[i + 2])
}

/// Three bytes stand at position `i`, none of them a terminator.
pub open spec fn clean(s: Seq<u8>, i: int) -> bool {
    0 <= i && i + 3 <= s.len() && s[i] != 0 && s[i + 1] != 0 && s[i + 2] != 0
}

/// `s` holds the trigram `g`.
pub open spec fn has_gram(s: Seq<u8>, g: u32) -> bool {
    exists|i: int| #[trigger] clean(s, i) && gram_at(s, i) == g
}

/// The trigrams at the first `n` positions, each where it stands first.
pub open spec fn grams_upto(s: Seq<u8>, n: nat) -> Seq<u32>
    decreases n,
{
    if n == 0 {
        seq![]
    } else {
        let before = grams_upto(s, (n - 1) as nat);
        if clean(s, n - 1) && !before.contains(gram_at(s, n - 1)) {
            before.push(gram_at(s, n - 1))
        } else {
            before
        }
    }
}

/// The trigrams of `s`, each once, in the order in which they first stand.
pub open spec fn grams(s: Seq<u8>) -> Seq<u32> {
    grams_upto(s, s.len())
}

proof fn lemma_grams_upto(s: Seq<u8>, n: nat)
    ensures
        forall|g: u32| #[trigger]
            grams_upto(s, n).contains(g) <==> exists|i: int|
                #![trigger clean(s, i)]
                i < n && clean(s, i) && gram_at(s, i) == g,
        grams_upto(s, n).no_duplicates(),
    decreases n,
{
    if n > 0 {
        lemma_grams_upto(s, (n - 1) as nat);
        let before = grams_upto(s, (n - 1) as nat);
        let now = grams_upto(s, n);
        assert forall|g: u32| #[trigger] now.contains(g) <==> exists|i: int|
            #![trigger clean(s, i)]
            i < n && clean(s, i) && gram_at(s, i) == g by {
            if now.contains(g) {
                let k = choose|k: int| 0 <= k < now.len() && now[k] == g;
                if k < before.len() {
                    assert(before[k] == g);
                    assert(before.contains(g));
                } else {
                    assert(clean(s, n - 1) && gram_at(s, n - 1) == g);
                }
            }
            if exists|i: int|
                #![trigger clean(s, i)]
                i < n && clean(s, i) && gram_at(s, i) == g {
                let i = choose|i: int|
                    #![trigger clean(s, i)]
                    i < n && clean(s, i) && gram_at(s, i) == g;
                if i < n - 1 {
                    assert(before.contains(g));
                    let k = choose|k: int| 0 <= k < before.len() && before[k] == g;
                    assert(now[k] == g);
                } else if !before.contains(g) {
                    assert(now[before.len() as int] == g);
                } else {
                    let k = choose|k: int| 0 <= k < before.len() && before[k] == g;
                    assert(now[k] == g);
                }
            }
        }
        assert forall|a: int, b: int| 0 <= a < now.len() && 0 <= b < now.len() && a
            != b implies now[a] != now[b] by {
            if a < before.len() {
                assert(before.contains(before[a]));
            }
            if b < before.len() {
                assert(before.contains(before[b]));
            }
        }
    }
}

/// The trigrams of `s` are those that it holds, each once.
pub proof fn grams_are_held(s: Seq<u8>)
    ensures
        forall|g: u32| #[trigger] grams(s).contains(g) <==> has_gram(s, g),
        grams(s).no_duplicates(),
{
    lemma_grams_upto(s, s.len());
    assert forall|g: u32| #[trigger] grams(s).contains(g) <==> has_gram(s, g) by {
        if has_gram(s, g) {
            let i = choose|i: int| #[trigger] clean(s, i) && gram_at(s, i) == g;
            assert(i < s.len() && clean(s, i) && gram_at(s, i) == g);
        }
    }
}

/// A byte string that holds another one holds its trigrams.
pub proof fn substring_has_grams(name: Seq<u8>, query: Seq<u8>, g: u32)
    requires
        bytes::contains(name, query),
        has_gram(query, g),
    ensures
        has_gram(name, g),
{
    let at = choose|at: int| bytes::occurs_at(name, query, at);
    let i = choose|i: int| #[trigger] clean(query, i) && gram_at(query, i) == g;
    let part = name.subrange(at, at + query.len());
    assert(part[i] == name[at + i] && part[i + 1] == name[at + i + 1] && part[i + 2] == name[at + i
        + 2]);
    assert(clean(name, at + i));
}

/// The trigrams of the UTF-8 form of a text that is in lower case.
pub fn trigrams_from_lower(value: &str) -> (r: Vec<u32>)
    ensures
        r@ == grams(bytes::utf8(value@)),
{
    let b = value.as_bytes();
    let mut seen: HashSet<u32> = HashSet::new();
    let mut list: Vec<u32> = Vec::new();
    let mut i: usize = 0;
    let ghost s = b@;
    while i < b.len()
        invariant
            s == b@,
            i <= s.len(),
            list@ == grams_upto(s, i as nat),
            forall|g: u32| #[trigger] seen@.contains(g) <==> list@.contains(g),
        decreases s.len() - i,
    {
        if b.len() - i >= 3 && b[i] != 0 && b[i + 1] != 0 && b[i + 2] != 0 {
            assert(clean(s, i as int));
            let g: u32 = ((b[i] as u32) << 16u32) | ((b[i + 1] as u32) << 8u32) | (b[i + 2] as u32);
            assert(g == gram_at(s, i as int));
            let ghost before = list@;
            if seen.insert(g) {
                list.push(g);
                assert forall|x: u32| #[trigger] seen@.contains(x) <==> list@.contains(x) by {
                    if list@.contains(x) && x != g {
                        let k = choose|k: int| 0 <= k < list@.len() && list@[k] == x;
                        assert(before[k] == x);
                    }
                    if before.contains(x) {
                        let k = choose|k: int| 0 <= k < before.len() && before[k] == x;
                        assert(list@[k] == x);
                    }
                    assert(list@[before.len() as int] == g);
                }
            }
        }
        i += 1;
    }
    list
}

// ---------------------------------------------------------------------------
// Posting lists
// ---------------------------------------------------------------------------

/// `list` is strictly ascending.
pub open spec fn ascending(list: Seq<u64>) -> bool {
    forall|a: int, b: int| 0 <= a < b < list.len() ==> list[a] < list[b]
}

/// The name of `e`, as it is indexed.
pub open spec fn indexed_name(e: Entry) -> Seq<u8> {
    bytes::lower_bytes(bytes::utf8(e.name))
}

/// An entry of `entries` has the reference number `frn` and the trigram `g`.
pub open spec fn posted(entries: Set<Entry>, g: u32, frn: u64) -> bool {
    exists|e: Entry| #[trigger]
        entries.contains(e) && e.frn == frn && has_gram(indexed_name(e), g)
}

/// `lists` holds, for each trigram of an entry, the reference numbers of the
/// entries that have it, ascending; and nothing else.
pub open spec fn indexes(lists: Map<u32, Seq<u64>>, entries: Set<Entry>) -> bool {
    &&& forall|g: u32| #[trigger]
        lists.contains_key(g) <==> exists|frn: u64| #[trigger] posted(entries, g, frn)
    &&& forall|g: u32| #[trigger] lists.contains_key(g) ==> ascending(lists[g])
    &&& forall|g: u32, frn: u64|
        lists.contains_key(g) ==> (#[trigger] lists[g].contains(frn) <==> posted(entries, g, frn))
}

/// Every list of `lists` is strictly ascending.
pub open spec fn all_ascending(lists: Map<u32, Seq<u64>>) -> bool {
    forall|g: u32| #[trigger] lists.contains_key(g) ==> ascending(lists[g])
}

/// `frn` stands in the list of every trigram of `gs`.
pub open spec fn in_all(lists: Map<u32, Seq<u64>>, gs: Seq<u32>, frn: u64) -> bool {
    forall|i: int| 0 <= i < gs.len() ==> lists[#[trigger] gs[i]].contains(frn)
}

/// The elements of `list` that stand in the list of every trigram of `gs`.
pub open spec fn shared(list: Seq<u64>, lists: Map<u32, Seq<u64>>, gs: Seq<u32>) -> Seq<u64>
    decreases list.len(),
{
    if list.len() == 0 {
        seq![]
    } else {
        let before = shared(list.drop_last(), lists, gs);
        if in_all(lists, gs, list.last()) {
            before.push(list.last())
        } else {
            before
        }
    }
}

/// The entries, ascending, that have all trigrams of `query`; none where the
/// query has no trigram.
pub open spec fn sharing(lists: Map<u32, Seq<u64>>, query: Seq<u8>) -> Seq<u64> {
    let gs = grams(query);
    if gs.len() == 0 || exists|i: int| 0 <= i < gs.len() && !lists.contains_key(#[trigger] gs[i]) {
        seq![]
    } else {
        shared(lists[gs[0]], lists, gs)
    }
}

/// The first `max` entries that have all trigrams of `query`.
pub open spec fn candidates(lists: Map<u32, Seq<u64>>, query: Seq<u8>, max: nat) -> Seq<u64> {
    arena::first_n(sharing(lists, query), max)
}

proof fn lemma_shared(list: Seq<u64>, lists: Map<u32, Seq<u64>>, gs: Seq<u32>)
    ensures
        forall|f: u64| #[trigger]
            shared(list, lists, gs).contains(f) <==> list.contains(f) && in_all(lists, gs, f),
        ascending(list) ==> ascending(shared(list, lists, gs)),
    decreases list.len(),
{
    let now = shared(list, lists, gs);
    if list.len() > 0 {
        let rest = list.drop_last();
        let before = shared(rest, lists, gs);
        lemma_shared(rest, lists, gs);
        assert forall|f: u64| #[trigger] now.contains(f) <==> list.contains(f) && in_all(
            lists,
            gs,
            f,
        ) by {
            if now.contains(f) {
                let k = choose|k: int| 0 <= k < now.len() && now[k] == f;
                if k < before.len() {
                    assert(before[k] == f);
                    assert(before.contains(f));
                    let m = choose|m: int| 0 <= m < rest.len() && rest[m] == f;
                    assert(list[m] == f);
                } else {
                    assert(list[list.len() - 1] == f);
                }
            }
            if list.contains(f) && in_all(lists, gs, f) {
                let m = choose|m: int| 0 <= m < list.len() && list[m] == f;
                if m < rest.len() {
                    assert(rest[m] == f);
                    assert(before.contains(f));
                    let k = choose|k: int| 0 <= k < before.len() && before[k] == f;
                    assert(now[k] == f);
                } else {
                    assert(now[before.len() as int] == f);
                }
            }
        }
        if ascending(list) {
            assert(ascending(rest));
            assert forall|a: int, b: int| 0 <= a < b < now.len() implies now[a] < now[b] by {
                assert(before.contains(before[a]));
                let m = choose|m: int| 0 <= m < rest.len() && rest[m] == before[a];
                assert(list[m] < list.last() || b < before.len());
            }
        }
    }
}

/// Whichever list of a trigram of `gs` is searched, the same is shared.
proof fn lemma_seed(lists: Map<u32, Seq<u64>>, gs: Seq<u32>, a: int, b: int)
    requires
        all_ascending(lists),
        0 <= a < gs.len(),
        0 <= b < gs.len(),
        forall|i: int| 0 <= i < gs.len() ==> lists.contains_key(#[trigger] gs[i]),
    ensures
        shared(lists[gs[a]], lists, gs) == shared(lists[gs[b]], lists, gs),
{
    lemma_shared(lists[gs[a]], lists, gs);
    lemma_shared(lists[gs[b]], lists, gs);
    assert(lists.contains_key(gs[a]) && lists.contains_key(gs[b]));
    let p = shared(lists[gs[a]], lists, gs);
    let q = shared(lists[gs[b]], lists, gs);
    let less = |x: u64, y: u64| x < y;
    assert forall|f: u64| #[trigger] p.contains(f) <==> q.contains(f) by {
        if in_all(lists, gs, f) {
            assert(lists[gs[a]].contains(f));
            assert(lists[gs[b]].contains(f));
        }
    }
    order::ascending_is_unique(p, q, less);
}

/// What the lists of an index are is decided by its entries.
pub proof fn index_is_unique(p: Map<u32, Seq<u64>>, q: Map<u32, Seq<u64>>, entries: Set<Entry>)
    requires
        indexes(p, entries),
        indexes(q, entries),
    ensures
        p == q,
{
    assert forall|g: u32| #[trigger] p.contains_key(g) implies p[g] == q[g] by {
        assert(q.contains_key(g));
        let less = |x: u64, y: u64| x < y;
        assert forall|f: u64| #[trigger] p[g].contains(f) <==> q[g].contains(f) by {
            assert(posted(entries, g, f) == p[g].contains(f));
        }
        order::ascending_is_unique(p[g], q[g], less);
    }
    assert(p.dom() =~= q.dom());
    assert(p =~= q);
}

/// No entry whose name holds the query is missed: it has all trigrams of the
/// query, and is a candidate unless more entries have them than are asked for.
pub proof fn candidates_are_complete(
    lists: Map<u32, Seq<u64>>,
    entries: Set<Entry>,
    e: Entry,
    query: Seq<u8>,
    max: nat,
)
    requires
        indexes(lists, entries),
        entries.contains(e),
        bytes::contains(indexed_name(e), query),
        grams(query).len() > 0,
    ensures
        sharing(lists, query).contains(e.frn),
        sharing(lists, query).len() <= max ==> candidates(lists, query, max).contains(e.frn),
{
    let gs = grams(query);
    grams_are_held(query);
    assert forall|i: int| 0 <= i < gs.len() implies lists.contains_key(#[trigger] gs[i])
        && lists[gs[i]].contains(e.frn) by {
        assert(gs.contains(gs[i]));
        substring_has_grams(indexed_name(e), query, gs[i]);
        assert(posted(entries, gs[i], e.frn));
    }
    lemma_shared(lists[gs[0]], lists, gs);
    let all = shared(lists[gs[0]], lists, gs);
    assert(lists[gs[0]].contains(e.frn));
    assert(all.contains(e.frn));
}

/// The entries that have all trigrams of a query come in ascending order, each
/// once.
pub proof fn sharing_is_ascending(lists: Map<u32, Seq<u64>>, query: Seq<u8>)
    requires
        all_ascending(lists),
    ensures
        ascending(sharing(lists, query)),
        sharing(lists, query).no_duplicates(),
{
    let gs = grams(query);
    if gs.len() > 0 && lists.contains_key(gs[0]) {
        lemma_shared(lists[gs[0]], lists, gs);
    }
}

/// Every candidate has all trigrams of the query.
pub proof fn candidates_have_grams(
    lists: Map<u32, Seq<u64>>,
    entries: Set<Entry>,
    query: Seq<u8>,
    max: nat,
    frn: u64,
    g: u32,
)
    requires
        indexes(lists, entries),
        candidates(lists, query, max).contains(frn),
        has_gram(query, g),
    ensures
        posted(entries, g, frn),
{
    let gs = grams(query);
    grams_are_held(query);
    assert(gs.contains(g));
    let i = choose|i: int| 0 <= i < gs.len() && gs[i] == g;
    assert(lists.contains_key(gs[i]));
    lemma_shared(lists[gs[0]], lists, gs);
    let all = shared(lists[gs[0]], lists, gs);
    let c = candidates(lists, query, max);
    let k = choose|k: int| 0 <= k < c.len() && c[k] == frn;
    assert(sharing(lists, query)[k] == frn);
    assert(all[k] == frn);
    assert(all.contains(frn));
    assert(in_all(lists, gs, frn));
    assert(lists[gs[i]].contains(frn));
}

// ---------------------------------------------------------------------------
// The index
// ---------------------------------------------------------------------------

/// The posting lists of all trigrams.
#[derive(Debug, Clone)]
pub struct TrigramIndex {
    postings: HashMap<u32, Vec<u64>>,
}

spec fn list_map(m: Map<u32, Vec<u64>>) -> Map<u32, Seq<u64>> {
    Map::new(|g: u32| m.contains_key(g), |g: u32| m[g]@)
}

impl View for TrigramIndex {
    type V = Map<u32, Seq<u64>>;

    closed spec fn view(&self) -> Map<u32, Seq<u64>> {
        list_map(self.postings@)
    }
}

impl Default for TrigramIndex {
    fn default() -> (r: TrigramIndex)
        ensures
            r@ == Map::<u32, Seq<u64>>::empty(),
    {
        let r = TrigramIndex { postings: HashMap::new() };
        assert(r@ =~= Map::<u32, Seq<u64>>::empty());
        r
    }
}

/// Whether the ascending list holds `frn`.
fn member(list: &Vec<u64>, frn: u64) -> (r: bool)
    requires
        ascending(list@),
    ensures
        r == list@.contains(frn),
{
    let mut low: usize = 0;
    let mut high: usize = list.len();
    while low < high
        invariant
            low <= high <= list@.len(),
            ascending(list@),
            forall|i: int| 0 <= i < low ==> list@[i] < frn,
            forall|i: int| high <= i < list@.len() ==> list@[i] > frn,
        decreases high - low,
    {
        let mid: usize = low + (high - low) / 2;
        let found = list[mid];
        if found == frn {
            assert(list@[mid as int] == frn);
            return true;
        } else if found < frn {
            low = mid + 1;
        } else {
            high = mid;
        }
    }
    false
}

/// Adds `frn`, which is no smaller than what the list of `g` holds.
fn post(postings: &mut HashMap<u32, Vec<u64>>, g: u32, frn: u64)
    requires
        all_ascending(list_map(old(postings)@)),
        forall|f: u64|
            list_map(old(postings)@).contains_key(g) && #[trigger] list_map(
                old(postings)@,
            )[g].contains(f) ==> f <= frn,
    ensures
        all_ascending(list_map(final(postings)@)),
        forall|x: u32| #[trigger]
            list_map(final(postings)@).contains_key(x) <==> list_map(
                old(postings)@,
            ).contains_key(x) || x == g,
        forall|x: u32|
            x != g && list_map(old(postings)@).contains_key(x) ==> #[trigger] list_map(
                final(postings)@,
            )[x] == list_map(old(postings)@)[x],
        forall|f: u64| #[trigger]
            list_map(final(postings)@)[g].contains(f) <==> f == frn || (list_map(
                old(postings)@,
            ).contains_key(g) && list_map(old(postings)@)[g].contains(f)),
{
    let ghost before = list_map(postings@);
    let mut list: Vec<u64> = match postings.remove(&g) {
        Some(list) => list,
        None => Vec::new(),
    };
    let ghost kept = list@;
    proof {
        if before.contains_key(g) {
            assert(kept == before[g]);
            assert(ascending(kept));
        }
    }
    let n = list.len();
    if n == 0 || list[n - 1] != frn {
        assert(n > 0 ==> kept.contains(kept[n - 1]));
        list.push(frn);
        assert(ascending(list@)) by {
            assert forall|a: int, b: int| 0 <= a < b < list@.len() implies list@[a] < list@[b] by {
                assert(kept[a] <= kept[n - 1]);
            }
        }
        assert(list@[n as int] == frn);
    } else {
        assert(list@[n - 1] == frn);
    }
    assert forall|f: u64| #[trigger] list@.contains(f) <==> f == frn || kept.contains(f) by {
        if kept.contains(f) {
            let k = choose|k: int| 0 <= k < kept.len() && kept[k] == f;
            assert(list@[k] == f);
        }
        if list@.contains(f) && f != frn {
            let k = choose|k: int| 0 <= k < list@.len() && list@[k] == f;
            assert(kept[k] == f);
        }
        if f == frn {
            assert(list@.contains(list@[list@.len() - 1]));
        }
    }
    postings.insert(g, list);
    proof {
        let after = list_map(postings@);
        assert(after[g] == list@);
        assert forall|x: u32| #[trigger] after.contains_key(x) implies ascending(after[x]) by {
            if x != g {
                assert(before.contains_key(x));
                assert(after[x] == before[x]);
            }
        }
        assert(before.contains_key(g) || kept =~= seq![]);
    }
}

/// The order of reference numbers as a sort key.
fn frn_key(frn: u64) -> (r: SortKey)
    ensures
        r@.group == 0,
        r@.first == frn as int / 0x1_0000_0000,
        r@.second == frn as int % 0x1_0000_0000,
        r@.name == Seq::<u8>::empty(),
{
    SortKey {
        group: 0,
        first: (frn / 0x1_0000_0000) as usize,
        second: (frn % 0x1_0000_0000) as usize,
        name: Vec::new(),
    }
}

/// The positions of `entries` by ascending reference number.
fn by_frn(entries: &Vec<&FileEntry>) -> (r: Vec<usize>)
    ensures
        r@.len() == entries@.len(),
        forall|i: int| 0 <= i < r@.len() ==> #[trigger] r@[i] < entries@.len(),
        forall|k: usize| k < entries@.len() ==> #[trigger] r@.contains(k),
        forall|a: int, b: int|
            0 <= a < b < r@.len() ==> entries@[r@[a] as int]@.frn <= entries@[r@[b] as int]@.frn,
{
    let mut keys: Vec<SortKey> = Vec::with_capacity(entries.len());
    let mut i: usize = 0;
    while i < entries.len()
        invariant
            i <= entries@.len(),
            keys@.len() == i,
            forall|k: int|
                0 <= k < i ==> (#[trigger] keys@[k])@.group == 0 && keys@[k]@.first
                    == entries@[k].frn as int / 0x1_0000_0000 && keys@[k]@.second
                    == entries@[k].frn as int % 0x1_0000_0000 && keys@[k]@.name
                    == Seq::<u8>::empty(),
        decreases entries@.len() - i,
    {
        keys.push(frn_key(entries[i].frn));
        i += 1;
    }
    let r = order::sorted_positions(&keys);
    proof {
        let k = order::keys_of(keys@);
        let p = Seq::new(r@.len(), |i: int| r@[i] as int);
        order::order_of_is_order(k);
        assert forall|x: usize| x < entries@.len() implies #[trigger] r@.contains(x) by {
            assert(p.contains(x as int));
            let a = choose|a: int| 0 <= a < p.len() && p[a] == x as int;
            assert(r@[a] == x);
        }
        assert forall|a: int, b: int| 0 <= a < b < r@.len() implies entries@[r@[a] as int]@.frn
            <= entries@[r@[b] as int]@.frn by {
            assert(order::item_before(k, p[a], p[b]));
            assert(k[p[a]] == keys@[p[a]]@);
            assert(k[p[b]] == keys@[p[b]]@);
        }
    }
    r
}

/// An entry among the first `n` of `order` has the reference number `frn` and
/// the trigram `g`.
spec fn posted_upto(
    entries: Seq<Entry>,
    order: Seq<usize>,
    n: int,
    g: u32,
    frn: u64,
) -> bool {
    exists|j: int|
        0 <= j < n && entries[#[trigger] order[j] as int].frn == frn && has_gram(
            indexed_name(entries[order[j] as int]),
            g,
        )
}

/// As [`posted_upto`], with the trigrams `gs` of the entry `frn` added.
spec fn posted_partly(
    entries: Seq<Entry>,
    order: Seq<usize>,
    n: int,
    gs: Seq<u32>,
    now: u64,
    g: u32,
    frn: u64,
) -> bool {
    posted_upto(entries, order, n, g, frn) || (frn == now && gs.contains(g))
}

/// `frn` stands in the list of `g`.
spec fn listed(lists: Map<u32, Seq<u64>>, g: u32, frn: u64) -> bool {
    lists.contains_key(g) && lists[g].contains(frn)
}

/// `lists` holds what `posted_partly` says.
spec fn partly(
    lists: Map<u32, Seq<u64>>,
    entries: Seq<Entry>,
    order: Seq<usize>,
    n: int,
    gs: Seq<u32>,
    now: u64,
) -> bool {
    &&& all_ascending(lists)
    &&& forall|g: u32, f: u64|
        #[trigger] listed(lists, g, f) <==> posted_partly(
            entries,
            order,
            n,
            gs,
            now,
            g,
            f,
        )
    &&& forall|g: u32| #[trigger] lists.contains_key(g) ==> lists[g].len() > 0
}

proof fn lemma_posted_upto(
    entries: Seq<Entry>,
    order: Seq<usize>,
    n: int,
    g: u32,
    frn: u64,
)
    requires
        0 <= n < order.len(),
    ensures
        posted_upto(entries, order, n + 1, g, frn) <==> posted_partly(
            entries,
            order,
            n,
            grams(indexed_name(entries[order[n] as int])),
            entries[order[n] as int].frn,
            g,
            frn,
        ),
{
    let e = entries[order[n] as int];
    grams_are_held(indexed_name(e));
    if posted_upto(entries, order, n + 1, g, frn) {
        let j = choose|j: int|
            0 <= j < n + 1 && entries[#[trigger] order[j] as int].frn == frn && has_gram(
                indexed_name(entries[order[j] as int]),
                g,
            );
        if j == n {
            assert(grams(indexed_name(e)).contains(g));
        }
    }
}

impl TrigramIndex {
    /// Every posting list is strictly ascending.
    pub open spec fn wf(&self) -> bool {
        all_ascending(self@)
    }

    /// The index of `entries`.
    pub fn from_entries(entries: &Vec<&FileEntry>) -> (r: TrigramIndex)
        ensures
            r.wf(),
            indexes(r@, entry::entry_seq(entries@).to_set()),
    {
        let order = by_frn(entries);
        let ghost all = entry::entry_seq(entries@);
        let mut postings: HashMap<u32, Vec<u64>> = HashMap::new();
        let mut i: usize = 0;
        proof {
            let lists = list_map(postings@);
            assert forall|g: u32, f: u64|
                !#[trigger] listed(lists, g, f) && !posted_partly(
                    all,
                    order@,
                    0,
                    seq![],
                    0,
                    g,
                    f,
                ) by {}
            assert(partly(lists, all, order@, 0, seq![], 0));
        }
        while i < order.len()
            invariant
                i <= order@.len() == entries@.len(),
                all == entry::entry_seq(entries@),
                forall|k: int| 0 <= k < order@.len() ==> #[trigger] order@[k] < entries@.len(),
                forall|a: int, b: int|
                    0 <= a < b < order@.len() ==> entries@[order@[a] as int]@.frn
                        <= entries@[order@[b] as int]@.frn,
                partly(list_map(postings@), all, order@, i as int, seq![], 0),
            decreases order@.len() - i,
        {
            let e = entries[order[i]];
            let frn = e.frn;
            let ghost at = order@[i as int] as int;
            assert(all[at] == e@);
            let lowered = crate::text::to_lower(e.name.as_str());
            proof {
                bytes::lower_commutes_with_utf8(e.name@);
            }
            let gs = trigrams_from_lower(lowered.as_str());
            assert(gs@ == grams(indexed_name(e@)));
            let mut k: usize = 0;
            proof {
                let lists = list_map(postings@);
                assert forall|g: u32, f: u64|
                    #[trigger] listed(lists, g, f) <==> posted_partly(
                        all,
                        order@,
                        i as int,
                        gs@.take(0),
                        frn,
                        g,
                        f,
                    ) by {
                    assert(posted_partly(all, order@, i as int, seq![], 0, g, f) <==> posted_upto(
                        all,
                        order@,
                        i as int,
                        g,
                        f,
                    ));
                }
            }
            while k < gs.len()
                invariant
                    k <= gs@.len(),
                    i < order@.len() == entries@.len(),
                    all == entry::entry_seq(entries@),
                    forall|k: int| 0 <= k < order@.len() ==> #[trigger] order@[k] < entries@.len(),
                    forall|a: int, b: int|
                        0 <= a < b < order@.len() ==> entries@[order@[a] as int]@.frn
                            <= entries@[order@[b] as int]@.frn,
                    frn == all[order@[i as int] as int].frn,
                    partly(list_map(postings@), all, order@, i as int, gs@.take(k as int), frn),
                decreases gs@.len() - k,
            {
                let g = gs[k];
                let ghost before = list_map(postings@);
                let ghost had = gs@.take(k as int);
                let ghost has = gs@.take(k + 1);
                proof {
                    assert forall|f: u64|
                        before.contains_key(g) && #[trigger] before[g].contains(f) implies f
                        <= frn by {
                        assert(listed(before, g, f));
                        assert(posted_partly(all, order@, i as int, had, frn, g, f));
                        if posted_upto(all, order@, i as int, g, f) {
                            let j = choose|j: int|
                                0 <= j < i && all[#[trigger] order@[j] as int].frn == f
                                    && has_gram(indexed_name(all[order@[j] as int]), g);
                            assert(all[order@[j] as int] == entries@[order@[j] as int]@);
                            assert(entries@[order@[j] as int]@.frn
                                <= entries@[order@[i as int] as int]@.frn);
                        }
                    }
                }
                post(&mut postings, g, frn);
                k += 1;
                proof {
                    let after = list_map(postings@);
                    assert(has =~= had.push(g));
                    assert forall|x: u32, f: u64|
                        #[trigger] listed(after, x, f)
                            <==> posted_partly(all, order@, i as int, has, frn, x, f) by {
                        assert(has.contains(x) <==> had.contains(x) || x == g) by {
                            assert(has[had.len() as int] == g);
                            if had.contains(x) {
                                let m = choose|m: int| 0 <= m < had.len() && had[m] == x;
                                assert(has[m] == x);
                            }
                        }
                        assert(listed(before, x, f) <==> posted_partly(
                            all,
                            order@,
                            i as int,
                            had,
                            frn,
                            x,
                            f,
                        ));
                    }
                    assert forall|x: u32| #[trigger] after.contains_key(x) implies after[x].len()
                        > 0 by {
                        if x == g {
                            assert(after[g].contains(frn));
                        } else {
                            assert(before.contains_key(x));
                        }
                    }
                }
            }
            proof {
                let lists = list_map(postings@);
                assert(gs@.take(k as int) =~= gs@);
                assert forall|g: u32, f: u64|
                    #[trigger] listed(lists, g, f) <==> posted_partly(
                        all,
                        order@,
                        i + 1,
                        seq![],
                        0,
                        g,
                        f,
                    ) by {
                    lemma_posted_upto(all, order@, i as int, g, f);
                    assert(posted_partly(all, order@, i + 1, seq![], 0, g, f) <==> posted_upto(
                        all,
                        order@,
                        i + 1,
                        g,
                        f,
                    ));
                }
            }
            i += 1;
        }
        let r = TrigramIndex { postings };
        proof {
            let n = order@.len() as int;
            let set = all.to_set();
            assert forall|g: u32, f: u64|
                #[trigger] listed(r@, g, f) <==> posted(set, g, f) by {
                assert(listed(r@, g, f) <==> posted_partly(
                    all,
                    order@,
                    n,
                    seq![],
                    0,
                    g,
                    f,
                ));
                if posted_upto(all, order@, n, g, f) {
                    let j = choose|j: int|
                        0 <= j < n && all[#[trigger] order@[j] as int].frn == f && has_gram(
                            indexed_name(all[order@[j] as int]),
                            g,
                        );
                    let e = all[order@[j] as int];
                    assert(order@[j] < entries@.len());
                    assert(set.contains(e));
                }
                if posted(set, g, f) {
                    let e = choose|e: Entry| #[trigger]
                        set.contains(e) && e.frn == f && has_gram(indexed_name(e), g);
                    let m = choose|m: int| 0 <= m < all.len() && all[m] == e;
                    assert(order@.contains(m as usize));
                    let j = choose|j: int| 0 <= j < order@.len() && order@[j] == m as usize;
                    assert(all[order@[j] as int] == e);
                }
            }
            assert forall|g: u32| #[trigger] r@.contains_key(g) <==> exists|f: u64| #[trigger]
                posted(set, g, f) by {
                if r@.contains_key(g) {
                    assert(r@[g].contains(r@[g][0]));
                    assert(listed(r@, g, r@[g][0]));
                    assert(posted(set, g, r@[g][0]));
                }
                if exists|f: u64| #[trigger] posted(set, g, f) {
                    let f = choose|f: u64| #[trigger] posted(set, g, f);
                    assert(listed(r@, g, f));
                }
            }
            assert forall|g: u32, f: u64| r@.contains_key(g) implies (
            #[trigger] r@[g].contains(f) <==> posted(set, g, f)) by {
                assert(listed(r@, g, f) <==> posted(set, g, f));
            }
        }
        r
    }

    /// The entries that have all trigrams of `query_lower`, ascending and at
    /// most `max_candidates` of them; all of them where that is the largest
    /// number there is.
    pub fn query_candidates(&self, query_lower: &str, max_candidates: usize) -> (r: Vec<u64>)
        requires
            self.wf(),
        ensures
            r@ == candidates(self@, bytes::utf8(query_lower@), max_candidates as nat),
            max_candidates == usize::MAX ==> r@ == sharing(self@, bytes::utf8(query_lower@)),
    {
        let gs = trigrams_from_lower(query_lower);
        if gs.len() == 0 {
            return Vec::new();
        }
        let mut lists: Vec<&Vec<u64>> = Vec::with_capacity(gs.len());
        let mut seed: usize = 0;
        let mut i: usize = 0;
        while i < gs.len()
            invariant
                i <= gs@.len(),
                gs@ == grams(bytes::utf8(query_lower@)),
                lists@.len() == i,
                seed <= i,
                seed < gs@.len(),
                seed == i ==> i == 0,
                forall|k: int|
                    0 <= k < i ==> self@.contains_key(#[trigger] gs@[k]) && lists@[k]@
                        == self@[gs@[k]],
            decreases gs@.len() - i,
        {
            match self.postings.get(&gs[i]) {
                None => {
                    assert(!self@.contains_key(gs@[i as int]));
                    return Vec::new();
                },
                Some(list) => {
                    assert(self@.contains_key(gs@[i as int]));
                    lists.push(list);
                    if list.len() < lists[seed].len() {
                        seed = i;
                    }
                },
            }
            i += 1;
        }
        let list = lists[seed];
        let mut found: Vec<u64> = Vec::new();
        let mut at: usize = 0;
        proof {
            lemma_seed(self@, gs@, 0, seed as int);
            assert(list@.take(0) =~= seq![]);
        }
        while at < list.len() && found.len() < max_candidates
            invariant
                self.wf(),
                at <= list@.len(),
                lists@.len() == gs@.len(),
                forall|k: int|
                    0 <= k < gs@.len() ==> self@.contains_key(#[trigger] gs@[k]) && lists@[k]@
                        == self@[gs@[k]],
                found@ == shared(list@.take(at as int), self@, gs@),
                found@.len() <= max_candidates,
            decreases list@.len() - at,
        {
            let frn = list[at];
            let mut k: usize = 0;
            assert forall|j: int| 0 <= j < gs@.len() implies ascending((#[trigger] lists@[j])@)
                && lists@[j]@ == self@[gs@[j]] by {
                assert(self@.contains_key(gs@[j]));
            }
            while k < lists.len() && member(lists[k], frn)
                invariant
                    k <= lists@.len() == gs@.len(),
                    forall|j: int|
                        0 <= j < gs@.len() ==> ascending((#[trigger] lists@[j])@) && lists@[j]@
                            == self@[gs@[j]],
                    forall|j: int| 0 <= j < k ==> self@[#[trigger] gs@[j]].contains(frn),
                decreases lists@.len() - k,
            {
                k += 1;
            }
            assert(k < gs@.len() ==> !self@[gs@[k as int]].contains(frn));
            assert((k == gs@.len()) == in_all(self@, gs@, frn));
            at += 1;
            assert(list@.take(at as int).drop_last() =~= list@.take(at - 1));
            assert(list@.take(at as int).last() == frn);
            if k == lists.len() {
                found.push(frn);
            }
        }
        proof {
            lemma_shared_prefix(list@, at as int, self@, gs@);
            lemma_shared_len(list@.take(at as int), self@, gs@);
            let size = list.len();
            assert(size == list@.len());
            assert(list@.take(list@.len() as int) =~= list@);
        }
        found
    }
}

proof fn lemma_shared_len(list: Seq<u64>, lists: Map<u32, Seq<u64>>, gs: Seq<u32>)
    ensures
        shared(list, lists, gs).len() <= list.len(),
    decreases list.len(),
{
    if list.len() > 0 {
        lemma_shared_len(list.drop_last(), lists, gs);
    }
}

/// What the start of a list shares is the start of what the list shares.
proof fn lemma_shared_prefix(list: Seq<u64>, n: int, lists: Map<u32, Seq<u64>>, gs: Seq<u32>)
    requires
        0 <= n <= list.len(),
    ensures
        shared(list.take(n), lists, gs).len() <= shared(list, lists, gs).len(),
        shared(list, lists, gs).take(shared(list.take(n), lists, gs).len() as int) == shared(
            list.take(n),
            lists,
            gs,
        ),
    decreases list.len() - n,
{
    if n == list.len() {
        assert(list.take(n) =~= list);
    } else {
        let rest = list.drop_last();
        if n == rest.len() {
            assert(list.take(n) =~= rest);
        } else {
            lemma_shared_prefix(rest, n, lists, gs);
            assert(rest.take(n) =~= list.take(n));
        }
        let a = shared(list.take(n), lists, gs);
        let b = shared(rest, lists, gs);
        let c = shared(list, lists, gs);
        if n == rest.len() {
            assert(c.take(a.len() as int) =~= a);
        } else {
            assert(c.take(a.len() as int) =~= b.take(a.len() as int));
        }
    }
}

/// The number of three bytes tells them all.
pub proof fn grams_tell_their_bytes(a: u8, b: u8, c: u8)
    ensures
        gram(a, b, c) == a as int * 0x1_0000 + b as int * 0x100 + c as int,
{
    let x = a as u32;
    let y = b as u32;
    let z = c as u32;
    assert(((x << 16u32) | (y << 8u32) | z) == x * 0x1_0000 + y * 0x100 + z) by (bit_vector)
        requires
            x < 256,
            y < 256,
            z < 256,
    ;
}

/// Every three bytes that stand together in a text, none of them zero, are one of
/// its trigrams, and nothing else is.
pub proof fn trigrams_stand_together(s: Seq<u8>, g: u32)
    ensures
        grams(s).contains(g) <==> exists|i: int|
            0 <= i <= s.len() - 3 && #[trigger] s[i] != 0 && s[i + 1] != 0 && s[i + 2] != 0 && g
                == s[i] as int * 0x1_0000 + s[i + 1] as int * 0x100 + s[i + 2] as int,
{
    grams_are_held(s);
    if has_gram(s, g) {
        let i = choose|i: int| #[trigger] clean(s, i) && gram_at(s, i) == g;
        grams_tell_their_bytes(s[i], s[i + 1], s[i + 2]);
        assert(s[i] != 0);
    }
    if exists|i: int|
        0 <= i <= s.len() - 3 && #[trigger] s[i] != 0 && s[i + 1] != 0 && s[i + 2] != 0 && g
            == s[i] as int * 0x1_0000 + s[i + 1] as int * 0x100 + s[i + 2] as int {
        let i = choose|i: int|
            0 <= i <= s.len() - 3 && #[trigger] s[i] != 0 && s[i + 1] != 0 && s[i + 2] != 0 && g
                == s[i] as int * 0x1_0000 + s[i + 1] as int * 0x100 + s[i + 2] as int;
        grams_tell_their_bytes(s[i], s[i + 1], s[i + 2]);
        assert(clean(s, i));
        assert(gram_at(s, i) == g);
    }
}

} // verus!
