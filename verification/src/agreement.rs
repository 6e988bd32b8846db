//! When two searches for names give the same results.

use vstd::prelude::*;
use crate::arena;
use crate::bytes;
use crate::entry::Change;
use crate::index;
use crate::index::Index;
use crate::order;
use crate::relevance;
use crate::search;
use crate::search::Hit;
use crate::search::SearchOptions;
use crate::text;
use crate::text::CharSet;
use crate::trigram;

verus! {

// ---------------------------------------------------------------------------
// Conditions
// ---------------------------------------------------------------------------

/// The arena and the trigram index hold what the entries say, and the names
/// fit into the buffer of the arena.
pub open spec fn in_step(ix: Index) -> bool {
    &&& index::synced(ix.slots, ix.entries)
    &&& arena::text_len(ix.slots.slots) <= u32::MAX
    &&& ix.lists matches Some(l) ==> trigram::indexes(l, ix.entries.values())
}

/// The options differ at most in whether the trigram index is wanted.
pub open spec fn same_but_trigram(p: SearchOptions, q: SearchOptions) -> bool {
    q == (SearchOptions { prefer_trigram: q.prefer_trigram, ..p })
}

/// The query has no terminator, and a search looks at every entry whose name
/// holds it.
pub open spec fn looks_at_all(ix: Index, o: SearchOptions) -> bool {
    &&& !text::lower(o.query@).contains('\0')
    &&& ix.slots.matches_of(bytes::utf8(text::lower(o.query@))).len() <= search::times(
        search::result_limit(o),
        8,
    )
}

/// No two of the rows have the same path.
pub open spec fn own_paths(rows: Seq<Hit>) -> bool {
    forall|x: Hit, y: Hit| #[trigger]
        rows.contains(x) && #[trigger] rows.contains(y) && x.path == y.path ==> x == y
}

// ---------------------------------------------------------------------------
// Rows
// ---------------------------------------------------------------------------

proof fn lemma_rows_distinct(ix: Index, o: SearchOptions, frns: Seq<u64>)
    requires
        index::keyed(ix.entries),
        frns.no_duplicates(),
    ensures
        search::rows_of(ix, o, frns).no_duplicates(),
    decreases frns.len(),
{
    if frns.len() > 0 {
        let rest = frns.drop_last();
        let before = search::rows_of(ix, o, rest);
        let now = search::rows_of(ix, o, frns);
        lemma_rows_distinct(ix, o, rest);
        if let Some(h) = search::hit_of(ix, o, frns.last()) {
            search::lemma_rows(ix, o, rest, h);
            assert(!before.contains(h)) by {
                if before.contains(h) {
                    let f = choose|f: u64| #[trigger]
                        rest.contains(f) && search::hit_of(ix, o, f) == Some(h);
                    let k = choose|k: int| 0 <= k < rest.len() && rest[k] == f;
                    assert(ix.entries.contains_key(f) && ix.entries.contains_key(frns.last()));
                    assert(frns[k] == frns[frns.len() - 1]);
                }
            }
            assert forall|a: int, b: int| 0 <= a < now.len() && 0 <= b < now.len() && a
                != b implies now[a] != now[b] by {
                if a < before.len() {
                    assert(before.contains(before[a]));
                }
                if b < before.len() {
                    assert(before.contains(before[b]));
                }
            }
        }
    }
}

proof fn lemma_kept_distinct(rows: Seq<Hit>, verdicts: Seq<bool>)
    requires
        rows.no_duplicates(),
    ensures
        search::kept(rows, verdicts).no_duplicates(),
    decreases rows.len(),
{
    if rows.len() > 0 {
        let rest = rows.drop_last();
        let before = search::kept(rest, verdicts);
        let now = search::kept(rows, verdicts);
        lemma_kept_distinct(rest, verdicts);
        let h = rows.last();
        search::lemma_kept_verdict(rest, verdicts, h);
        assert(!before.contains(h)) by {
            if before.contains(h) {
                let i = choose|i: int|
                    0 <= i < rest.len() && #[trigger] rest[i] == h && verdicts[i];
                assert(rows[i] == rows[rows.len() - 1]);
            }
        }
        assert forall|a: int, b: int| 0 <= a < now.len() && 0 <= b < now.len() && a
            != b implies now[a] != now[b] by {
            if a < before.len() {
                assert(before.contains(before[a]));
            }
            if b < before.len() {
                assert(before.contains(before[b]));
            }
        }
    }
}

proof fn lemma_ranked_distinct(rows: Seq<Hit>, query: Seq<char>)
    requires
        rows.no_duplicates(),
    ensures
        search::ranked(rows, query).no_duplicates(),
{
    let keys = search::row_keys(rows, query);
    let at = order::order_of(keys);
    let r = search::ranked(rows, query);
    order::order_of_is_order(keys);
    assert forall|a: int, b: int| 0 <= a < b < r.len() implies r[a] != r[b] by {
        assert(order::item_before(keys, at[a], at[b]));
        order::key_order_is_total(keys[at[a]], keys[at[a]]);
        assert(at.contains(at[a]) && at.contains(at[b]));
    }
}

/// Rows with the same members, each once and under its own path, are ranked
/// the same.
proof fn lemma_ranked_same(p: Seq<Hit>, q: Seq<Hit>, query: Seq<char>)
    requires
        p.no_duplicates(),
        q.no_duplicates(),
        forall|h: Hit| #[trigger] p.contains(h) <==> q.contains(h),
        own_paths(p),
    ensures
        search::ranked(p, query) == search::ranked(q, query),
{
    let less = |x: Hit, y: Hit|
        order::key_less(
            relevance::relevance(x.path, query),
            relevance::relevance(y.path, query),
        );
    let a = search::ranked(p, query);
    let b = search::ranked(q, query);
    search::lemma_ranked(p, query);
    search::lemma_ranked(q, query);
    lemma_ranked_distinct(p, query);
    lemma_ranked_distinct(q, query);
    assert forall|x: Hit, y: Hit| !(#[trigger] less(x, y) && less(y, x)) by {
        order::key_order_is_total(
            relevance::relevance(x.path, query),
            relevance::relevance(y.path, query),
        );
    }
    lemma_strictly_ranked(a, p, query);
    lemma_strictly_ranked(b, p, query);
    assert forall|i: int, j: int| 0 <= i < j < a.len() implies #[trigger] less(a[i], a[j]) by {}
    assert forall|i: int, j: int| 0 <= i < j < b.len() implies #[trigger] less(b[i], b[j]) by {}
    assert forall|h: Hit| #[trigger] a.contains(h) <==> b.contains(h) by {
        assert(p.contains(h) <==> q.contains(h));
    }
    order::ascending_is_unique(a, b, less);
}

proof fn lemma_strictly_ranked(r: Seq<Hit>, rows: Seq<Hit>, query: Seq<char>)
    requires
        r.no_duplicates(),
        own_paths(rows),
        forall|h: Hit| #[trigger] r.contains(h) ==> rows.contains(h),
        forall|i: int, j: int|
            0 <= i < j < r.len() ==> !order::key_less(
                relevance::relevance(#[trigger] r[j].path, query),
                relevance::relevance(#[trigger] r[i].path, query),
            ),
    ensures
        forall|i: int, j: int|
            0 <= i < j < r.len() ==> order::key_less(
                relevance::relevance(#[trigger] r[i].path, query),
                relevance::relevance(#[trigger] r[j].path, query),
            ),
{
    assert forall|i: int, j: int| 0 <= i < j < r.len() implies order::key_less(
        relevance::relevance(#[trigger] r[i].path, query),
        relevance::relevance(#[trigger] r[j].path, query),
    ) by {
        let x = relevance::relevance(r[i].path, query);
        let y = relevance::relevance(r[j].path, query);
        order::key_order_is_total(x, y);
        if x == y {
            bytes::utf8_is_injective(r[i].path, r[j].path);
            assert(r.contains(r[i]) && r.contains(r[j]));
            assert(rows.contains(r[i]) && rows.contains(r[j]));
        }
    }
}

/// The path matches the pattern that is asked for, where there is one and it
/// can be asked.
pub open spec fn fits_pattern(o: SearchOptions, backslash_separates: bool, path: Seq<char>) -> bool {
    o.glob matches Some(pattern) ==> search::glob_valid(pattern@, backslash_separates)
        ==> search::glob_accepts(pattern@, backslash_separates, search::slashed(path))
}

/// What a pattern leaves of rows: those that it accepts.
proof fn lemma_left(o: SearchOptions, backslash_separates: bool, rows: Seq<Hit>, h: Hit)
    ensures
        search::left_by(rows, search::verdicts_for(o, backslash_separates, rows)).contains(h)
            <==> rows.contains(h) && fits_pattern(o, backslash_separates, h.path),
        rows.no_duplicates() ==> search::left_by(
            rows,
            search::verdicts_for(o, backslash_separates, rows),
        ).no_duplicates(),
{
    if let Some(v) = search::verdicts_for(o, backslash_separates, rows) {
        search::lemma_kept_verdict(rows, v, h);
        if rows.no_duplicates() {
            lemma_kept_distinct(rows, v);
        }
        if rows.contains(h) {
            let i = choose|i: int| 0 <= i < rows.len() && rows[i] == h;
            assert(v[i] == search::glob_accepts(
                o.glob->0@,
                backslash_separates,
                search::slashed(rows[i].path),
            ));
        }
        if search::kept(rows, v).contains(h) {
            let i = choose|i: int| 0 <= i < rows.len() && #[trigger] rows[i] == h && v[i];
            assert(rows.contains(h));
        }
    }
}

/// Searches that find the same rows, in whatever order, give the same answer.
proof fn lemma_same_answer(
    a: Index,
    p: SearchOptions,
    b: Index,
    q: SearchOptions,
    backslash_separates: bool,
    x: Seq<Hit>,
    y: Seq<Hit>,
)
    requires
        search::answers_on(a, p, backslash_separates, x),
        search::answers_on(b, q, backslash_separates, y),
        p.glob == q.glob,
        text::lower(p.query@) == text::lower(q.query@),
        search::result_limit(p) == search::result_limit(q),
        search::found(a, p).no_duplicates(),
        search::found(b, q).no_duplicates(),
        forall|h: Hit| #[trigger]
            search::found(a, p).contains(h) <==> search::found(b, q).contains(h),
        own_paths(search::found(a, p)),
    ensures
        x == y,
{
    let rows = search::found(a, p);
    let other = search::found(b, q);
    let query = text::lower(p.query@);
    let left = search::left_by(rows, search::verdicts_for(p, backslash_separates, rows));
    let right = search::left_by(other, search::verdicts_for(q, backslash_separates, other));
    assert forall|h: Hit| #[trigger] left.contains(h) <==> right.contains(h) by {
        lemma_left(p, backslash_separates, rows, h);
        lemma_left(q, backslash_separates, other, h);
        assert(rows.contains(h) <==> other.contains(h));
    }
    assert forall|h: Hit| #[trigger] left.contains(h) implies rows.contains(h) by {
        lemma_left(p, backslash_separates, rows, h);
    }
    lemma_left(p, backslash_separates, rows, arbitrary());
    lemma_left(q, backslash_separates, other, arbitrary());
    assert(own_paths(left)) by {
        assert forall|g: Hit, h: Hit| #[trigger]
            left.contains(g) && #[trigger] left.contains(h) && g.path == h.path implies g == h by {
            assert(rows.contains(g) && rows.contains(h));
        }
    }
    lemma_ranked_same(left, right, query);
}

// ---------------------------------------------------------------------------
// Candidates
// ---------------------------------------------------------------------------

/// An index that is in step lists, for a query without a terminator, every
/// entry whose name holds the query, once, whichever way it seeks them.
proof fn lemma_candidates(ix: Index, o: SearchOptions)
    requires
        in_step(ix),
        !text::lower(o.query@).contains('\0'),
    ensures
        search::all_candidates(ix, o).no_duplicates(),
        forall|f: u64| #[trigger]
            search::all_candidates(ix, o).contains(f) <==> search::holds_query(
                ix.entries,
                bytes::utf8(text::lower(o.query@)),
                f,
            ),
{
    let query = bytes::utf8(text::lower(o.query@));
    let all = search::all_candidates(ix, o);
    bytes::no_zero_byte(text::lower(o.query@));
    if search::uses_trigrams(ix, o) {
        let lists = ix.lists->0;
        let entries = ix.entries.values();
        trigram::sharing_is_ascending(lists, query);
        search::lemma_holding(ix.entries, query, trigram::sharing(lists, query));
        assert(trigram::clean(query, 0)) by {
            assert(query.contains(query[0]) && query.contains(query[1]) && query.contains(query[2]));
        }
        trigram::grams_are_held(query);
        assert(trigram::has_gram(query, trigram::gram_at(query, 0)));
        assert(trigram::grams(query).contains(trigram::gram_at(query, 0)));
        assert forall|f: u64| search::holds_query(ix.entries, query, f) implies #[trigger]
            all.contains(f) by {
            let e = ix.entries[f];
            assert(e.frn == f);
            assert(entries.contains(e));
            trigram::candidates_are_complete(lists, entries, e, query, 0);
        }
    } else {
        index::synced_hits_are_distinct(ix.slots, ix.entries, query);
        assert forall|f: u64| #[trigger] all.contains(f) <==> search::holds_query(
            ix.entries,
            query,
            f,
        ) by {
            if all.contains(f) {
                index::synced_hits_are_matches(ix.slots, ix.entries, query, f);
            }
            if search::holds_query(ix.entries, query, f) {
                index::synced_matches_are_hits(ix.slots, ix.entries, query, f);
            }
        }
    }
}

proof fn lemma_same_count(p: Seq<u64>, q: Seq<u64>)
    requires
        p.no_duplicates(),
        q.no_duplicates(),
        forall|f: u64| #[trigger] p.contains(f) <==> q.contains(f),
    ensures
        p.len() == q.len(),
{
    p.unique_seq_to_set();
    q.unique_seq_to_set();
    assert(p.to_set() =~= q.to_set());
}

/// Where a search looks at all entries that hold the query, its candidates are
/// all of them.
proof fn lemma_all_looked_at(ix: Index, o: SearchOptions)
    requires
        in_step(ix),
        looks_at_all(ix, o),
    ensures
        search::candidate_list(ix, o) == search::all_candidates(ix, o),
{
    let plain = SearchOptions { prefer_trigram: false, ..o };
    lemma_candidates(ix, o);
    lemma_candidates(ix, plain);
    lemma_same_count(search::all_candidates(ix, o), search::all_candidates(ix, plain));
    let limit = search::times(search::result_limit(o), 8);
    assert(limit <= search::times(limit, 32)) by (nonlinear_arith)
        requires
            limit <= usize::MAX,
    ;
}

// ---------------------------------------------------------------------------
// Laws
// ---------------------------------------------------------------------------

/// Two indexes of the same entries, both in step, give the same results in the
/// same order, with or without trigrams, as long as a search looks at every
/// entry whose name holds the query and no two of those it finds have the same
/// path. On one system, that is: what a backslash means in a pattern is the same
/// to both.
pub proof fn indexes_in_step_agree(
    a: Index,
    p: SearchOptions,
    b: Index,
    q: SearchOptions,
    backslash_separates: bool,
    x: Seq<Hit>,
    y: Seq<Hit>,
)
    requires
        in_step(a),
        in_step(b),
        a.drive == b.drive,
        a.entries == b.entries,
        same_but_trigram(p, q),
        looks_at_all(a, p),
        own_paths(search::found(a, p)),
        search::answers_on(a, p, backslash_separates, x),
        search::answers_on(b, q, backslash_separates, y),
    ensures
        x == y,
{
    let one = search::candidate_list(a, p);
    let two = search::candidate_list(b, q);
    let plain = SearchOptions { prefer_trigram: false, ..p };
    lemma_candidates(a, p);
    lemma_candidates(b, q);
    lemma_candidates(a, plain);
    lemma_candidates(b, plain);
    lemma_same_count(search::all_candidates(a, plain), search::all_candidates(b, plain));
    assert(looks_at_all(b, q));
    lemma_all_looked_at(a, p);
    lemma_all_looked_at(b, q);
    lemma_rows_distinct(a, p, one);
    lemma_rows_distinct(b, q, two);
    assert forall|f: u64| #[trigger] one.contains(f) <==> two.contains(f) by {}
    assert forall|f: u64| #[trigger] search::hit_of(a, p, f) == search::hit_of(b, q, f) by {}
    assert forall|h: Hit| #[trigger]
        search::found(a, p).contains(h) <==> search::found(b, q).contains(h) by {
        search::lemma_rows(a, p, one, h);
        search::lemma_rows(b, q, two, h);
        if exists|f: u64| #[trigger] one.contains(f) && search::hit_of(a, p, f) == Some(h) {
            let f = choose|f: u64| #[trigger]
                one.contains(f) && search::hit_of(a, p, f) == Some(h);
            assert(two.contains(f) && search::hit_of(b, q, f) == Some(h));
        }
        if exists|f: u64| #[trigger] two.contains(f) && search::hit_of(b, q, f) == Some(h) {
            let f = choose|f: u64| #[trigger]
                two.contains(f) && search::hit_of(b, q, f) == Some(h);
            assert(one.contains(f) && search::hit_of(a, p, f) == Some(h));
        }
    }
    lemma_same_answer(a, p, b, q, backslash_separates, x, y);
}

/// What a search chooses its results from is every entry whose name holds the
/// query, that passes the filters and whose path matches the pattern, as long as
/// the search looks at every entry whose name holds the query.
pub proof fn every_match_is_considered(
    ix: Index,
    o: SearchOptions,
    backslash_separates: bool,
    h: Hit,
)
    requires
        in_step(ix),
        looks_at_all(ix, o),
    ensures
        search::passing(ix, o, backslash_separates).contains(h) <==> search::holds_query(
            ix.entries,
            bytes::utf8(text::lower(o.query@)),
            h.frn,
        ) && search::hit_of(ix, o, h.frn) == Some(h) && fits_pattern(
            o,
            backslash_separates,
            h.path,
        ),
{
    let frns = search::candidate_list(ix, o);
    lemma_candidates(ix, o);
    lemma_all_looked_at(ix, o);
    lemma_left(o, backslash_separates, search::found(ix, o), h);
    search::lemma_rows(ix, o, frns, h);
    if search::found(ix, o).contains(h) {
        let f = choose|f: u64| #[trigger]
            frns.contains(f) && search::hit_of(ix, o, f) == Some(h);
        assert(ix.entries[f].frn == f);
        assert(search::all_candidates(ix, o).contains(f));
    }
    if search::holds_query(ix.entries, bytes::utf8(text::lower(o.query@)), h.frn)
        && search::hit_of(ix, o, h.frn) == Some(h) {
        assert(search::all_candidates(ix, o).contains(h.frn));
        assert(frns.contains(h.frn));
    }
}

/// The trigram index changes how entries are sought, not what is found: a
/// search gives the same results in the same order with it and without it, as
/// long as it looks at every entry whose name holds the query and no two of
/// those it finds have the same path.
pub proof fn trigrams_change_nothing(
    ix: Index,
    p: SearchOptions,
    q: SearchOptions,
    backslash_separates: bool,
    x: Seq<Hit>,
    y: Seq<Hit>,
)
    requires
        in_step(ix),
        same_but_trigram(p, q),
        looks_at_all(ix, p),
        own_paths(search::found(ix, p)),
        search::answers_on(ix, p, backslash_separates, x),
        search::answers_on(ix, q, backslash_separates, y),
    ensures
        x == y,
{
    indexes_in_step_agree(ix, p, ix, q, backslash_separates, x, y);
}

/// An index that follows the journal stays in step, as long as the names fit
/// into the buffer of its arena.
pub proof fn journal_keeps_step(
    before: Index,
    after: Index,
    changes: Seq<Change>,
    id: u64,
    usn: i64,
)
    requires
        in_step(before),
        after.follows(before, changes, id, usn),
        arena::text_len(after.slots.slots) <= u32::MAX,
    ensures
        in_step(after),
{
    index::journal_keeps_sync(before, after, changes, id, usn);
}

/// A search of an index that follows the journal gives what it gives after the
/// arena and the trigram index are built anew from the entries, whether or not
/// the arena was compacted.
pub proof fn journal_is_as_good_as_rebuilding(
    before: Index,
    after: Index,
    rebuilt: Index,
    changes: Seq<Change>,
    id: u64,
    usn: i64,
    o: SearchOptions,
    backslash_separates: bool,
    x: Seq<Hit>,
    y: Seq<Hit>,
)
    requires
        in_step(before),
        after.follows(before, changes, id, usn),
        arena::text_len(after.slots.slots) <= u32::MAX,
        rebuilt.drive == after.drive,
        rebuilt.entries == after.entries,
        index::arena_of(rebuilt.slots, rebuilt.entries),
        rebuilt.lists matches Some(l) ==> trigram::indexes(l, rebuilt.entries.values()),
        looks_at_all(after, o),
        own_paths(search::found(after, o)),
        search::answers_on(after, o, backslash_separates, x),
        search::answers_on(rebuilt, o, backslash_separates, y),
    ensures
        x == y,
{
    journal_keeps_step(before, after, changes, id, usn);
    index::built_arena_is_synced(rebuilt.slots, rebuilt.entries);
    index::rebuilding_takes_no_more_room(after.slots, rebuilt.slots, after.entries);
    indexes_in_step_agree(after, o, rebuilt, o, backslash_separates, x, y);
}

/// No two results of a search have the same reference number, whatever a
/// pattern says.
pub proof fn results_are_distinct(
    ix: Index,
    o: SearchOptions,
    verdicts: Option<Seq<bool>>,
    i: int,
    j: int,
)
    requires
        index::synced(ix.slots, ix.entries),
        ix.lists matches Some(l) ==> trigram::all_ascending(l),
        0 <= i < j < search::finish(
            search::found(ix, o),
            verdicts,
            text::lower(o.query@),
            search::result_limit(o),
        ).len(),
    ensures
        search::finish(
            search::found(ix, o),
            verdicts,
            text::lower(o.query@),
            search::result_limit(o),
        )[i].frn != search::finish(
            search::found(ix, o),
            verdicts,
            text::lower(o.query@),
            search::result_limit(o),
        )[j].frn,
{
    let query = bytes::utf8(text::lower(o.query@));
    let rows = search::found(ix, o);
    let frns = search::candidate_list(ix, o);
    if search::uses_trigrams(ix, o) {
        trigram::sharing_is_ascending(ix.lists->0, query);
        search::lemma_holding(ix.entries, query, trigram::sharing(ix.lists->0, query));
    } else {
        index::synced_hits_are_distinct(ix.slots, ix.entries, query);
    }
    assert(frns.no_duplicates());
    lemma_rows_distinct(ix, o, frns);
    let left = search::left_by(rows, verdicts);
    if let Some(v) = verdicts {
        lemma_kept_distinct(rows, v);
    }
    lemma_ranked_distinct(left, text::lower(o.query@));
    let r = search::finish(rows, verdicts, text::lower(o.query@), search::result_limit(o));
    assert(r[i] != r[j]);
    assert(r.contains(r[i]) && r.contains(r[j]));
    lemma_hit_of_result(ix, o, verdicts, r[i]);
    lemma_hit_of_result(ix, o, verdicts, r[j]);
}

proof fn lemma_hit_of_result(ix: Index, o: SearchOptions, verdicts: Option<Seq<bool>>, h: Hit)
    requires
        index::keyed(ix.entries),
        search::finish(
            search::found(ix, o),
            verdicts,
            text::lower(o.query@),
            search::result_limit(o),
        ).contains(h),
    ensures
        search::hit_of(ix, o, h.frn) == Some(h),
{
    let query = text::lower(o.query@);
    let left = search::left_by(search::found(ix, o), verdicts);
    search::lemma_ranked(left, query);
    search::lemma_first_n(search::ranked(left, query), search::result_limit(o), h);
    assert(search::ranked(left, query).contains(h));
    if let Some(v) = verdicts {
        search::lemma_kept_verdict(search::found(ix, o), v, h);
    }
    search::lemma_rows(ix, o, search::candidate_list(ix, o), h);
    let f = choose|f: u64| #[trigger]
        search::candidate_list(ix, o).contains(f) && search::hit_of(ix, o, f) == Some(h);
    assert(ix.entries[f].frn == f);
}

// ---------------------------------------------------------------------------
// Switching the trigram index
// ---------------------------------------------------------------------------

proof fn lemma_same_rows(
    a: Index,
    p: SearchOptions,
    b: Index,
    q: SearchOptions,
    frns: Seq<u64>,
)
    requires
        forall|f: u64| #[trigger] search::hit_of(a, p, f) == search::hit_of(b, q, f),
    ensures
        search::rows_of(a, p, frns) == search::rows_of(b, q, frns),
    decreases frns.len(),
{
    if frns.len() > 0 {
        lemma_same_rows(a, p, b, q, frns.drop_last());
        assert(search::hit_of(a, p, frns.last()) == search::hit_of(b, q, frns.last()));
    }
}

/// Switching the trigram index on or off leaves every search alone that does
/// not want it: it gives the same results in the same order.
pub proof fn switching_leaves_plain_searches(
    before: Index,
    after: Index,
    o: SearchOptions,
    backslash_separates: bool,
    x: Seq<Hit>,
    y: Seq<Hit>,
)
    requires
        after.same_but_lists(before),
        !o.prefer_trigram,
        search::answers_on(before, o, backslash_separates, x),
        search::answers_on(after, o, backslash_separates, y),
    ensures
        x == y,
{
    assert forall|f: u64| #[trigger]
        search::hit_of(after, o, f) == search::hit_of(before, o, f) by {}
    lemma_same_rows(after, o, before, o, search::candidate_list(before, o));
    assert(search::found(after, o) == search::found(before, o));
}

/// Switching the trigram index to what it is already changes nothing.
pub proof fn switching_twice_is_switching_once(once: Index, twice: Index)
    requires
        twice.same_but_lists(once),
        (once.lists is Some) == (twice.lists is Some),
        once.lists matches Some(l) ==> trigram::indexes(l, once.entries.values()),
        twice.lists matches Some(l) ==> trigram::indexes(l, twice.entries.values()),
    ensures
        twice == once,
{
    if once.lists is Some {
        trigram::index_is_unique(once.lists->0, twice.lists->0, once.entries.values());
    }
}

// ---------------------------------------------------------------------------
// Spelling
// ---------------------------------------------------------------------------

/// A character in lower case, a slash as a backslash.
pub open spec fn spelled_char(c: char) -> char {
    text::lower_char(
        if c == '/' {
            '\\'
        } else {
            c
        },
    )
}

/// A path in lower case and with backslashes.
pub open spec fn spelled(s: Seq<char>) -> Seq<char> {
    s.map_values(|c: char| spelled_char(c))
}

/// The text is long enough to name more than a letter or two, or is a drive.
pub open spec fn names_a_place(s: Seq<char>) -> bool {
    let t = text::trim(s);
    text::byte_len(t) >= 3 || (text::byte_len(t) == 2 && t.last() == ':')
}

/// `q` is the extension `p`, in any case, with or without a dot before it.
pub open spec fn same_extension(p: Seq<char>, q: Seq<char>) -> bool {
    text::lower(q) == text::lower(p) || text::lower(q) == seq!['.'] + text::lower(p)
}

/// `q` is the directory `p`, in any case and with either separator; a separator
/// more may stand behind a place.
pub open spec fn same_directory(p: Seq<char>, q: Seq<char>) -> bool {
    spelled(q) == spelled(p) || (spelled(q) == spelled(p).push('\\') && names_a_place(p)
        && !text::is_space(p.last()))
}

/// The options ask for the same in another spelling.
pub open spec fn respelled(p: SearchOptions, q: SearchOptions) -> bool {
    &&& text::lower(q.query@) == text::lower(p.query@)
    &&& match (p.extension, q.extension) {
        (Some(a), Some(b)) => same_extension(a@, b@),
        (None, None) => true,
        _ => false,
    }
    &&& match (p.under_dir, q.under_dir) {
        (Some(a), Some(b)) => same_directory(a@, b@),
        (None, None) => true,
        _ => false,
    }
    &&& p.glob == q.glob
    &&& p.directories_only == q.directories_only
    &&& p.files_only == q.files_only
    &&& p.limit == q.limit
    &&& p.prefer_trigram == q.prefer_trigram
}

/// The directory as a search reads it.
proof fn lemma_given(s: Seq<char>)
    ensures
        text::lower(text::replace(text::trim(s), '/', seq!['\\'])) == text::trim(spelled(s)),
        text::trim(spelled(s)) == spelled(text::trim(s)),
{
    let t = text::trim(s);
    let f = |c: char| spelled_char(c);
    text::replace_one_by_one(t, '/', '\\');
    assert(text::lower(text::replace(t, '/', seq!['\\'])) =~= spelled(t));
    assert forall|c: char| CharSet::Space.has(#[trigger] f(c)) == CharSet::Space.has(c) by {}
    text::stripping_ignores_spelling(s, CharSet::Space, f);
    text::stripping_ignores_spelling(text::strip_start(s, CharSet::Space), CharSet::Space, f);
}

proof fn lemma_spelled_len(s: Seq<char>)
    ensures
        text::byte_len(spelled(s)) == text::byte_len(s),
    decreases s.len(),
{
    if s.len() == 0 {
        assert(spelled(s) =~= s);
    } else {
        let rest = s.drop_first();
        lemma_spelled_len(rest);
        assert(spelled(s).drop_first() =~= spelled(rest));
        assert(spelled(s)[0] == spelled_char(s[0]));
        assert(bytes::scalar_len(spelled_char(s[0])) == bytes::scalar_len(s[0]));
        assert(bytes::utf8(s) =~= vstd::utf8::encode_scalar(s[0] as u32) + bytes::utf8(rest));
        assert(bytes::utf8(spelled(s)) =~= vstd::utf8::encode_scalar(spelled_char(s[0]) as u32)
            + bytes::utf8(spelled(rest)));
    }
}

proof fn lemma_trim_push(s: Seq<char>, c: char)
    requires
        s.len() > 0,
        !text::is_space(s.last()),
        !text::is_space(c),
    ensures
        text::trim(s.push(c)) == text::trim(s).push(c),
        text::trim(s).len() > 0,
    decreases s.len(),
{
    if text::is_space(s[0]) {
        let rest = s.drop_first();
        assert(s.len() > 1);
        assert(s.push(c).drop_first() =~= rest.push(c));
        assert(rest.last() == s.last());
        lemma_trim_push(rest, c);
    } else {
        assert(text::strip_start(s, CharSet::Space) == s);
        assert(text::strip_start(s.push(c), CharSet::Space) == s.push(c));
        assert(text::strip_end(s, CharSet::Space) == s);
        assert(text::strip_end(s.push(c), CharSet::Space) == s.push(c));
    }
}

proof fn lemma_same_under(p: Seq<char>, q: Seq<char>)
    requires
        same_directory(p, q),
    ensures
        search::under_of(p) == search::under_of(q),
{
    lemma_given(p);
    lemma_given(q);
    if spelled(q) != spelled(p) {
        let t = text::trim(p);
        let g = text::trim(spelled(p));
        if p.len() == 0 {
            text::byte_len_zero(t);
            assert(text::trim(p) =~= p);
        }
        assert(spelled(p).last() == spelled_char(p.last()));
        lemma_trim_push(spelled(p), '\\');
        lemma_spelled_len(t);
        search::lemma_byte_len_push(g, '\\');
        let long = g.push('\\');
        assert(long.drop_last() =~= g);
        assert(g == spelled(t));
        assert(g.last() == spelled_char(t.last()));
        if text::byte_len(t) >= 3 {
            assert(search::drop_separators(long) == search::drop_separators(g));
        } else {
            assert(search::drop_separators(long) == long);
            assert(search::drop_separators(g) == g);
        }
    }
}

proof fn lemma_same_extension(p: Seq<char>, q: Seq<char>)
    requires
        same_extension(p, q),
    ensures
        text::lower(text::strip_start(p, CharSet::One('.'))) == text::lower(
            text::strip_start(q, CharSet::One('.')),
        ),
{
    let f = |c: char| text::lower_char(c);
    let dot = CharSet::One('.');
    assert forall|c: char| dot.has(#[trigger] f(c)) == dot.has(c) by {}
    text::stripping_ignores_spelling(p, dot, f);
    text::stripping_ignores_spelling(q, dot, f);
    assert(p.map_values(f) =~= text::lower(p));
    assert(q.map_values(f) =~= text::lower(q));
    assert(text::strip_start(p, dot).map_values(f) =~= text::lower(text::strip_start(p, dot)));
    assert(text::strip_start(q, dot).map_values(f) =~= text::lower(text::strip_start(q, dot)));
    if text::lower(q) != text::lower(p) {
        assert((seq!['.'] + text::lower(p)).drop_first() =~= text::lower(p));
    }
}

/// The case of the letters in the query, the extension and the directory, a dot
/// before the extension, the kind of the separators and one more behind the
/// directory make no difference to what a search gives, nor to its order.
pub proof fn spelling_changes_nothing(
    ix: Index,
    p: SearchOptions,
    q: SearchOptions,
    backslash_separates: bool,
    x: Seq<Hit>,
    y: Seq<Hit>,
)
    requires
        respelled(p, q),
        search::answers_on(ix, p, backslash_separates, x),
        search::answers_on(ix, q, backslash_separates, y),
    ensures
        x == y,
{
    if p.extension is Some {
        lemma_same_extension(p.extension->0@, q.extension->0@);
    }
    if p.under_dir is Some {
        lemma_same_under(p.under_dir->0@, q.under_dir->0@);
    }
    assert forall|f: u64| #[trigger] search::hit_of(ix, p, f) == search::hit_of(ix, q, f) by {
        let e = ix.entries[f];
        assert(search::has_extension(text::text_of(p.extension), e.name) == search::has_extension(
            text::text_of(q.extension),
            e.name,
        ));
        let path = index::path_of(ix.drive, ix.entries, e.frn);
        assert(search::in_directory(text::text_of(p.under_dir), path) == search::in_directory(
            text::text_of(q.under_dir),
            path,
        ));
    }
    assert(search::candidate_list(ix, p) == search::candidate_list(ix, q));
    lemma_same_rows(ix, p, ix, q, search::candidate_list(ix, p));
    assert(search::found(ix, p) == search::found(ix, q));
}

} // verus!
