//! The search for names in an index.

use vstd::prelude::*;
use globset::GlobBuilder;
use globset::GlobSet;
use globset::GlobSetBuilder;
use crate::arena;
use crate::bytes;
use crate::entry::Entry;
use crate::index;
use crate::index::FileIndex;
use crate::index::Index;
use crate::order;
use crate::order::SortKey;
use crate::path;
use crate::relevance;
use crate::text;
use crate::text::CharSet;
use crate::trigram;

verus! {

broadcast use vstd::std_specs::hash::group_hash_axioms;

// ---------------------------------------------------------------------------
// What is asked and what is found
// ---------------------------------------------------------------------------

/// What to search for.
#[derive(Debug, Clone)]
pub struct SearchOptions {
    /// The text that the name holds, in any case.
    pub query: String,
    /// The extension that the name has, in any case.
    pub extension: Option<String>,
    /// The directory that the path is in.
    pub under_dir: Option<String>,
    /// The pattern that the path matches.
    pub glob: Option<String>,
    pub directories_only: bool,
    pub files_only: bool,
    /// The number of results that is enough.
    pub limit: usize,
    /// Whether a long query may use the trigram index.
    pub prefer_trigram: bool,
}

/// An entry that was found.
#[derive(Debug, Clone)]
pub struct SearchResult {
    pub frn: u64,
    pub path: String,
    pub is_directory: bool,
}

/// The value of a [`SearchResult`].
pub struct Hit {
    pub frn: u64,
    pub path: Seq<char>,
    pub is_directory: bool,
}

impl View for SearchResult {
    type V = Hit;

    open spec fn view(&self) -> Hit {
        Hit { frn: self.frn, path: self.path@, is_directory: self.is_directory }
    }
}

/// The values of a list of results.
pub open spec fn hits_of(v: Seq<SearchResult>) -> Seq<Hit> {
    Seq::new(v.len(), |i: int| v[i]@)
}

impl SearchResult {
    /// A result with the same contents.
    pub fn copy(&self) -> (r: SearchResult)
        ensures
            r@ == self@,
    {
        SearchResult {
            frn: self.frn,
            path: text::copy_text(self.path.as_str()),
            is_directory: self.is_directory,
        }
    }
}

// ---------------------------------------------------------------------------
// Directories
// ---------------------------------------------------------------------------

/// A directory, and what every path in it starts with; in lower case.
#[derive(Debug, Clone)]
pub struct UnderMatcher {
    pub exact: String,
    pub prefix: String,
}

/// The value of an [`UnderMatcher`].
pub struct Under {
    pub exact: Seq<char>,
    pub prefix: Seq<char>,
}

impl View for UnderMatcher {
    type V = Under;

    open spec fn view(&self) -> Under {
        Under { exact: self.exact@, prefix: self.prefix@ }
    }
}

/// `s` without the separators at its end, down to three bytes.
pub open spec fn drop_separators(s: Seq<char>) -> Seq<char>
    decreases s.len(),
{
    if s.len() > 0 && s.last() == '\\' && text::byte_len(s) > 3 {
        drop_separators(s.drop_last())
    } else {
        s
    }
}

/// The directory that `raw` means: either separator, any case, with or without
/// separators behind it; a bare drive is its root.
pub open spec fn under_of(raw: Seq<char>) -> Option<Under> {
    let given = text::lower(text::replace(text::trim(raw), '/', seq!['\\']));
    if given.len() == 0 {
        None
    } else {
        let short = drop_separators(given);
        let exact = if text::byte_len(short) == 2 && short.last() == ':' {
            short.push('\\')
        } else {
            short
        };
        Some(
            Under {
                exact,
                prefix: if exact.last() == '\\' {
                    exact
                } else {
                    exact.push('\\')
                },
            },
        )
    }
}

impl Under {
    /// The path is the directory or lies in it.
    pub open spec fn holds(self, path: Seq<char>) -> bool {
        text::lower(path) == self.exact || text::starts_with(text::lower(path), self.prefix)
    }
}

pub(crate) proof fn lemma_byte_len_push(s: Seq<char>, c: char)
    requires
        (c as u32) < 0x80,
    ensures
        text::byte_len(s.push(c)) == text::byte_len(s) + 1,
{
    bytes::utf8_of_concat(s, seq![c]);
    assert(s.push(c) =~= s + seq![c]);
    let one = seq![c];
    assert(one.drop_first() =~= seq![]);
    assert(vstd::utf8::encode_utf8(one.drop_first()) =~= seq![]);
    assert(vstd::utf8::encode_scalar(c as u32).len() == 1);
    assert(vstd::utf8::encode_utf8(one) =~= vstd::utf8::encode_scalar(one[0] as u32)
        + vstd::utf8::encode_utf8(one.drop_first()));
}

/// The directory that a text means; none where it is blank.
pub fn build_under_matcher(raw: &str) -> (r: Option<UnderMatcher>)
    ensures
        match r {
            Some(u) => under_of(raw@) == Some(u@),
            None => under_of(raw@) is None,
        },
{
    proof {
        reveal_strlit("\\");
        assert("\\"@ =~= seq!['\\']);
    }
    let given = text::to_lower(text::replaced(text::trimmed(raw).as_str(), '/', "\\").as_str());
    let v = text::chars_of(given.as_str());
    if v.len() == 0 {
        return None;
    }
    let mut len: usize = text::len_in_bytes(given.as_str());
    let mut n: usize = v.len();
    assert(v@.take(n as int) =~= v@);
    while n > 0 && v[n - 1] == '\\' && len > 3
        invariant
            n <= v@.len(),
            len == text::byte_len(v@.take(n as int)),
            drop_separators(v@) == drop_separators(v@.take(n as int)),
        decreases n,
    {
        proof {
            let s = v@.take(n as int);
            assert(s.drop_last() =~= v@.take(n - 1));
            assert(s =~= v@.take(n - 1).push('\\'));
            lemma_byte_len_push(v@.take(n - 1), '\\');
        }
        n -= 1;
        len -= 1;
    }
    let ghost short = v@.take(n as int);
    proof {
        text::byte_len_zero(short);
        text::byte_len_zero(v@);
        lemma_short_not_empty(v@);
    }
    let mut exact = text::string_of(v.as_slice(), 0, n);
    assert(exact@ =~= short);
    let mut ends = v[n - 1] == '\\';
    if len == 2 && v[n - 1] == ':' {
        exact.push('\\');
        ends = true;
    }
    let mut prefix = text::copy_text(exact.as_str());
    if !ends {
        prefix.push('\\');
    }
    Some(UnderMatcher { exact, prefix })
}

proof fn lemma_holding_concat(
    entries: Map<u64, Entry>,
    query: Seq<u8>,
    a: Seq<u64>,
    b: Seq<u64>,
)
    ensures
        holding(entries, query, a + b) == holding(entries, query, a) + holding(entries, query, b),
    decreases b.len(),
{
    if b.len() == 0 {
        assert(a + b =~= a);
        assert(holding(entries, query, a) + holding(entries, query, b) =~= holding(
            entries,
            query,
            a,
        ));
    } else {
        lemma_holding_concat(entries, query, a, b.drop_last());
        assert((a + b).drop_last() =~= a + b.drop_last());
        assert((a + b).last() == b.last());
        assert(holding(entries, query, a + b) =~= holding(entries, query, a) + holding(
            entries,
            query,
            b,
        ));
    }
}

/// What is left of a list are the numbers whose entry holds the query, each
/// once where the list has each once.
pub(crate) proof fn lemma_holding(entries: Map<u64, Entry>, query: Seq<u8>, frns: Seq<u64>)
    ensures
        forall|f: u64| #[trigger]
            holding(entries, query, frns).contains(f) <==> frns.contains(f) && holds_query(
                entries,
                query,
                f,
            ),
        frns.no_duplicates() ==> holding(entries, query, frns).no_duplicates(),
    decreases frns.len(),
{
    let now = holding(entries, query, frns);
    if frns.len() > 0 {
        let rest = frns.drop_last();
        let before = holding(entries, query, rest);
        lemma_holding(entries, query, rest);
        assert forall|f: u64| #[trigger] now.contains(f) <==> frns.contains(f) && holds_query(
            entries,
            query,
            f,
        ) by {
            assert(frns.contains(f) <==> rest.contains(f) || f == frns.last()) by {
                if rest.contains(f) {
                    let k = choose|k: int| 0 <= k < rest.len() && rest[k] == f;
                    assert(frns[k] == f);
                }
                if frns.contains(f) {
                    let k = choose|k: int| 0 <= k < frns.len() && frns[k] == f;
                    if k < rest.len() {
                        assert(rest[k] == f);
                    }
                }
                assert(frns[frns.len() - 1] == frns.last());
            }
            if now.contains(f) {
                let k = choose|k: int| 0 <= k < now.len() && now[k] == f;
                if k < before.len() {
                    assert(before[k] == f);
                    assert(before.contains(f));
                }
            }
            if before.contains(f) {
                let k = choose|k: int| 0 <= k < before.len() && before[k] == f;
                assert(now[k] == f);
            }
            if f == frns.last() && holds_query(entries, query, f) {
                assert(now[before.len() as int] == f);
            }
        }
        if frns.no_duplicates() {
            assert(rest.no_duplicates());
            assert forall|a: int, b: int| 0 <= a < now.len() && 0 <= b < now.len() && a
                != b implies now[a] != now[b] by {
                if a < before.len() {
                    assert(before.contains(before[a]));
                    let k = choose|k: int| 0 <= k < rest.len() && rest[k] == before[a];
                    assert(frns[k] != frns[frns.len() - 1]);
                }
                if b < before.len() {
                    assert(before.contains(before[b]));
                    let k = choose|k: int| 0 <= k < rest.len() && rest[k] == before[b];
                    assert(frns[k] != frns[frns.len() - 1]);
                }
            }
        }
    }
}

proof fn lemma_short_not_empty(s: Seq<char>)
    requires
        s.len() > 0,
    ensures
        drop_separators(s).len() > 0,
    decreases s.len(),
{
    if s.last() == '\\' && text::byte_len(s) > 3 {
        if s.len() == 1 {
            lemma_byte_len_push(s.drop_last(), '\\');
            assert(s =~= s.drop_last().push('\\'));
            text::byte_len_zero(s.drop_last());
        } else {
            lemma_short_not_empty(s.drop_last());
        }
    }
}

impl UnderMatcher {
    /// Whether a path is the directory or lies in it.
    pub fn admits(&self, path: &str) -> (r: bool)
        ensures
            r == self@.holds(path@),
    {
        let lower = text::to_lower(path);
        text::same_text(lower.as_str(), self.exact.as_str()) || text::begins_with(
            lower.as_str(),
            self.prefix.as_str(),
        )
    }
}

// ---------------------------------------------------------------------------
// Patterns
// ---------------------------------------------------------------------------

/// A pattern that is ready to be asked of paths.
#[verifier::external_type_specification]
#[verifier::external_body]
pub struct ExGlobSet(globset::GlobSet);

/// What `globset::GlobSetBuilder::build` makes of the pattern, read by
/// `globset::GlobBuilder::build` so that it ignores case; none where either
/// refuses it. It depends on whether a backslash separates the parts of a path
/// on the system: there it stands for a slash in a pattern, elsewhere it takes
/// the meaning from the character behind it.
pub uninterp spec fn compiled_on(pattern: Seq<char>, backslash_separates: bool) -> Option<GlobSet>;

/// What `globset::GlobSet::is_match` says of a path.
pub uninterp spec fn set_accepts(set: GlobSet, path: Seq<char>) -> bool;

/// How deep the alternatives of a pattern may lie within each other.
pub const MAX_NESTING: usize = 250;

/// The position behind the next closing bracket from `from` on; the end where
/// there is none.
pub open spec fn behind_bracket(s: Seq<char>, from: int) -> int
    decreases s.len() - from,
{
    if from >= s.len() {
        s.len() as int
    } else if s[from] == ']' {
        from + 1
    } else {
        behind_bracket(s, from + 1)
    }
}

/// The position behind a class of characters whose bracket stands before
/// `from`. A mark of negation may come first, and the first character is one of
/// the class whatever it is.
pub open spec fn behind_class(s: Seq<char>, from: int) -> int {
    if from < s.len() && (s[from] == '!' || s[from] == '^') {
        behind_bracket(s, from + 2)
    } else {
        behind_bracket(s, from + 1)
    }
}

proof fn lemma_behind_bracket(s: Seq<char>, from: int)
    requires
        from >= 0,
    ensures
        from < s.len() ==> from < behind_bracket(s, from) <= s.len(),
        from >= s.len() ==> behind_bracket(s, from) == s.len(),
    decreases s.len() - from,
{
    if from < s.len() && s[from] != ']' {
        lemma_behind_bracket(s, from + 1);
    }
}

/// The deepest nesting of alternatives from `from` on, where `depth` of them are
/// open. `escapes` says whether a backslash takes the meaning from the character
/// behind it. A brace that closes nothing ends the pattern.
pub open spec fn deepest(s: Seq<char>, from: int, depth: nat, escapes: bool) -> nat
    decreases s.len() + 2 - from,
    via deepest_goes_on
{
    if from < 0 || from >= s.len() {
        depth
    } else if s[from] == '\\' && escapes {
        deepest(s, from + 2, depth, escapes)
    } else if s[from] == '[' {
        deepest(s, behind_class(s, from + 1), depth, escapes)
    } else if s[from] == '{' {
        deepest(s, from + 1, depth + 1, escapes)
    } else if s[from] == '}' {
        if depth == 0 {
            depth
        } else {
            let rest = deepest(s, from + 1, (depth - 1) as nat, escapes);
            if rest > depth {
                rest
            } else {
                depth
            }
        }
    } else {
        deepest(s, from + 1, depth, escapes)
    }
}

#[via_fn]
proof fn deepest_goes_on(s: Seq<char>, from: int, depth: nat, escapes: bool) {
    if 0 <= from < s.len() {
        lemma_behind_bracket(s, from + 2);
        lemma_behind_bracket(s, from + 3);
    }
}

/// The alternatives of the pattern lie too deep within each other, in one of the
/// meanings that a backslash may have.
pub open spec fn too_deep(pattern: Seq<char>) -> bool {
    deepest(pattern, 0, 0, true) > MAX_NESTING || deepest(pattern, 0, 0, false) > MAX_NESTING
}

/// Reads a pattern with `globset::GlobBuilder`, ignoring case, and compiles it
/// with `globset::GlobSetBuilder`. Nothing comes back where the pattern is
/// malformed or too large to be compiled. Beside it stands whether
/// `std::path::is_separator` takes a backslash for a separator, on which the
/// result depends; it does not where the pattern holds no backslash. Patterns
/// that nest too deep are left out, as they are turned into an expression by
/// recursion.
#[verifier::external_body]
fn compile_glob(pattern: &str) -> (r: (bool, Option<GlobSet>))
    requires
        !too_deep(pattern@),
    ensures
        r.1 == compiled_on(pattern@, r.0),
        !pattern@.contains('\\') ==> r.1 == compiled_on(pattern@, false),
{
    let separates = std::path::is_separator('\\');
    let set = match GlobBuilder::new(pattern).case_insensitive(true).build() {
        Ok(glob) => GlobSetBuilder::new().add(glob).build().ok(),
        Err(_) => None,
    };
    (separates, set)
}

/// `globset::GlobSet::is_match` of a path. What a backslash means in a path
/// depends on the system that the program runs on, so nothing is claimed where
/// one occurs.
#[verifier::external_body]
fn glob_matches(set: &GlobSet, path: &str) -> (r: bool)
    ensures
        !path@.contains('\\') ==> r == set_accepts(*set, path@),
{
    set.is_match(path)
}

/// The pattern as it is asked of paths, on a system where a backslash separates
/// or does not; none where it cannot be.
pub open spec fn asked_set(pattern: Seq<char>, backslash_separates: bool) -> Option<GlobSet> {
    if too_deep(pattern) {
        None
    } else {
        compiled_on(pattern, backslash_separates)
    }
}

/// The pattern can be asked of paths.
pub open spec fn glob_valid(pattern: Seq<char>, backslash_separates: bool) -> bool {
    asked_set(pattern, backslash_separates) is Some
}

/// The path matches the pattern, which ignores case.
pub open spec fn glob_accepts(
    pattern: Seq<char>,
    backslash_separates: bool,
    path: Seq<char>,
) -> bool {
    set_accepts(asked_set(pattern, backslash_separates)->0, path)
}

/// A path as patterns see it.
pub open spec fn slashed(path: Seq<char>) -> Seq<char> {
    text::replace(path, '\\', seq!['/'])
}

/// What a pattern says of each row; nothing where it cannot be asked.
pub open spec fn verdicts_on(
    pattern: Seq<char>,
    backslash_separates: bool,
    rows: Seq<Hit>,
) -> Option<Seq<bool>> {
    if glob_valid(pattern, backslash_separates) {
        Some(
            Seq::new(
                rows.len(),
                |i: int| glob_accepts(pattern, backslash_separates, slashed(rows[i].path)),
            ),
        )
    } else {
        None
    }
}

/// What the pattern that is asked for, if any, says of each row.
pub open spec fn verdicts_for(
    o: SearchOptions,
    backslash_separates: bool,
    rows: Seq<Hit>,
) -> Option<Seq<bool>> {
    match o.glob {
        Some(pattern) => verdicts_on(pattern@, backslash_separates, rows),
        None => None,
    }
}

/// No backslash stands in the pattern that is asked for.
pub open spec fn plain_pattern(glob: Option<Seq<char>>) -> bool {
    glob matches Some(pattern) ==> !pattern.contains('\\')
}

proof fn lemma_slashed(path: Seq<char>)
    ensures
        !slashed(path).contains('\\'),
    decreases path.len(),
{
    if path.len() > 0 {
        lemma_slashed(path.drop_last());
        let before = slashed(path.drop_last());
        let now = slashed(path);
        if now.contains('\\') {
            let k = choose|k: int| 0 <= k < now.len() && now[k] == '\\';
            if k < before.len() {
                assert(before[k] == '\\');
            }
        }
    }
}

/// The position behind the next closing bracket.
fn find_bracket(v: &Vec<char>, from: usize) -> (r: usize)
    ensures
        r == behind_bracket(v@, from as int),
        r <= v@.len(),
{
    let mut i: usize = from;
    while i < v.len() && v[i] != ']'
        invariant
            from <= i,
            i <= v@.len() || i == from,
            behind_bracket(v@, from as int) == behind_bracket(v@, i as int),
        decreases v@.len() - i,
    {
        i += 1;
    }
    if i < v.len() {
        i + 1
    } else {
        v.len()
    }
}

/// Whether the alternatives of a pattern lie no deeper within each other than
/// they may, in one of the meanings of a backslash.
fn nests_little(v: &Vec<char>, escapes: bool) -> (r: bool)
    ensures
        r == (deepest(v@, 0, 0, escapes) <= MAX_NESTING),
{
    let ghost s = v@;
    let mut i: usize = 0;
    let mut depth: usize = 0;
    while i < v.len() && depth <= MAX_NESTING
        invariant
            s == v@,
            depth <= MAX_NESTING + 1,
            (deepest(s, 0, 0, escapes) <= MAX_NESTING) == (deepest(
                s,
                i as int,
                depth as nat,
                escapes,
            ) <= MAX_NESTING),
        decreases v@.len() - i,
    {
        let c = v[i];
        let size = v.len();
        proof {
            lemma_behind_bracket(s, i + 2);
            lemma_behind_bracket(s, i + 3);
            reveal_with_fuel(deepest, 2);
        }
        if c == '\\' && escapes {
            if size - i < 2 {
                i = size;
            } else {
                i += 2;
            }
        } else if c == '[' {
            let from: usize = if i + 1 < size && (v[i + 1] == '!' || v[i + 1] == '^') {
                if size - i < 3 {
                    size
                } else {
                    i + 3
                }
            } else if size - i < 2 {
                size
            } else {
                i + 2
            };
            i = find_bracket(v, from);
        } else if c == '{' {
            depth += 1;
            i += 1;
        } else if c == '}' {
            if depth == 0 {
                i = size;
            } else {
                depth -= 1;
                i += 1;
            }
        } else {
            i += 1;
        }
    }
    proof {
        lemma_deepest(s, i as int, depth as nat, escapes);
    }
    depth <= MAX_NESTING
}

/// A pattern nests at least as deep as it is open.
proof fn lemma_deepest(s: Seq<char>, from: int, depth: nat, escapes: bool)
    ensures
        deepest(s, from, depth, escapes) >= depth,
    decreases s.len() + 2 - from,
{
    if 0 <= from < s.len() {
        if s[from] == '\\' && escapes {
            lemma_deepest(s, from + 2, depth, escapes);
        } else if s[from] == '[' {
            lemma_behind_bracket(s, from + 2);
            lemma_behind_bracket(s, from + 3);
            lemma_deepest(s, behind_class(s, from + 1), depth, escapes);
        } else if s[from] == '{' {
            lemma_deepest(s, from + 1, depth + 1, escapes);
        } else if s[from] != '}' {
            lemma_deepest(s, from + 1, depth, escapes);
        }
    }
}

/// A pattern that is ready to be asked, or none.
pub struct GlobPattern {
    backslash_separates: bool,
    set: Option<GlobSet>,
}

impl GlobPattern {
    /// Whether the pattern was read as where a backslash separates the parts of a
    /// path.
    pub closed spec fn separates(&self) -> bool {
        self.backslash_separates
    }

    /// What is asked is the pattern, as it is read on a system where a backslash
    /// separates or does not.
    pub closed spec fn reads(&self, glob: Option<Seq<char>>, backslash_separates: bool) -> bool {
        self.set == match glob {
            Some(pattern) => asked_set(pattern, backslash_separates),
            None => None,
        }
    }

    /// The pattern, where there is one and it can be asked.
    pub fn new(glob: &Option<String>) -> (r: GlobPattern)
        ensures
            r.reads(text::text_of(*glob), r.separates()),
            plain_pattern(text::text_of(*glob)) ==> r.reads(text::text_of(*glob), false),
    {
        match glob {
            Some(pattern) => {
                let v = text::chars_of(pattern.as_str());
                if nests_little(&v, true) && nests_little(&v, false) {
                    let (backslash_separates, set) = compile_glob(pattern.as_str());
                    GlobPattern { backslash_separates, set }
                } else {
                    GlobPattern { backslash_separates: false, set: None }
                }
            },
            None => GlobPattern { backslash_separates: false, set: None },
        }
    }

    /// What the pattern says of each row.
    fn ask(&self, rows: &Vec<SearchResult>) -> (r: Option<Vec<bool>>)
        ensures
            r matches Some(v) ==> v@.len() == rows@.len(),
            forall|glob: Option<Seq<char>>, b: bool| #[trigger]
                self.reads(glob, b) ==> answers(r) == match glob {
                    Some(pattern) => verdicts_on(pattern, b, hits_of(rows@)),
                    None => None,
                },
    {
        let set = match &self.set {
            Some(set) => set,
            None => {
                return None;
            },
        };
        let mut verdicts: Vec<bool> = Vec::with_capacity(rows.len());
        let mut i: usize = 0;
        proof {
            reveal_strlit("/");
            assert("/"@ =~= seq!['/']);
        }
        while i < rows.len()
            invariant
                i <= rows@.len(),
                verdicts@.len() == i,
                "/"@ == seq!['/'],
                forall|k: int|
                    0 <= k < i ==> #[trigger] verdicts@[k] == set_accepts(
                        *set,
                        slashed(rows@[k]@.path),
                    ),
            decreases rows@.len() - i,
        {
            proof {
                lemma_slashed(rows@[i as int]@.path);
            }
            let path = text::replaced(rows[i].path.as_str(), '\\', "/");
            verdicts.push(glob_matches(set, path.as_str()));
            i += 1;
        }
        proof {
            assert forall|glob: Option<Seq<char>>, b: bool| #[trigger] self.reads(glob, b) implies Some(
                verdicts@,
            ) == match glob {
                Some(pattern) => verdicts_on(pattern, b, hits_of(rows@)),
                None => None,
            } by {
                let pattern = glob->0;
                assert(asked_set(pattern, b) == Some(*set));
                assert(verdicts@ =~= verdicts_on(pattern, b, hits_of(rows@))->0);
            }
        }
        Some(verdicts)
    }
}

// ---------------------------------------------------------------------------
// The result of a search
// ---------------------------------------------------------------------------

/// The number of results that a search stops at.
pub open spec fn result_limit(o: SearchOptions) -> nat {
    if o.limit == 0 {
        1
    } else {
        o.limit as nat
    }
}

/// `n` times `k`, but no more than a machine word holds.
pub open spec fn times(n: nat, k: nat) -> nat {
    if n * k > usize::MAX {
        usize::MAX as nat
    } else {
        n * k
    }
}

/// The trigram index is wanted, there, and the query long enough.
pub open spec fn uses_trigrams(ix: Index, o: SearchOptions) -> bool {
    o.prefer_trigram && text::byte_len(text::lower(o.query@)) >= index::TRIGRAM_MIN_QUERY_LEN
        && ix.lists is Some
}

/// The name of the entry under a reference number holds the query.
pub open spec fn holds_query(entries: Map<u64, Entry>, query: Seq<u8>, frn: u64) -> bool {
    entries.contains_key(frn) && bytes::contains(trigram::indexed_name(entries[frn]), query)
}

/// The reference numbers, in their order, of entries whose name holds the
/// query.
pub open spec fn holding(entries: Map<u64, Entry>, query: Seq<u8>, frns: Seq<u64>) -> Seq<u64>
    decreases frns.len(),
{
    if frns.len() == 0 {
        seq![]
    } else {
        let before = holding(entries, query, frns.drop_last());
        if holds_query(entries, query, frns.last()) {
            before.push(frns.last())
        } else {
            before
        }
    }
}

/// The entries whose name holds the query. Where the trigram index is used, they
/// are sought among those that have all its trigrams.
pub open spec fn all_candidates(ix: Index, o: SearchOptions) -> Seq<u64> {
    let query = bytes::utf8(text::lower(o.query@));
    if uses_trigrams(ix, o) {
        holding(ix.entries, query, trigram::sharing(ix.lists->0, query))
    } else {
        ix.slots.matches_of(query)
    }
}

/// How many of them are looked at: a multiple of the number of results.
pub open spec fn candidate_limit(ix: Index, o: SearchOptions) -> nat {
    let limit = times(result_limit(o), 8);
    if uses_trigrams(ix, o) {
        times(limit, 32)
    } else {
        limit
    }
}

/// The entries that are looked at.
pub open spec fn candidate_list(ix: Index, o: SearchOptions) -> Seq<u64> {
    arena::first_n(all_candidates(ix, o), candidate_limit(ix, o))
}

/// The extension is not asked for, or the name has it.
pub open spec fn has_extension(wanted: Option<Seq<char>>, name: Seq<char>) -> bool {
    match wanted {
        None => true,
        Some(w) => match path::extension(name) {
            Some(x) => text::lower(x) == text::lower(text::strip_start(w, CharSet::One('.'))),
            None => false,
        },
    }
}

/// The directory is not asked for, is blank, or holds the path.
pub open spec fn in_directory(wanted: Option<Seq<char>>, path: Seq<char>) -> bool {
    match wanted {
        None => true,
        Some(w) => match under_of(w) {
            Some(u) => u.holds(path),
            None => true,
        },
    }
}

/// What is found under a reference number, where the entry passes the filters
/// on its kind, extension and directory.
pub open spec fn hit_of(ix: Index, o: SearchOptions, frn: u64) -> Option<Hit> {
    if !ix.entries.contains_key(frn) {
        None
    } else {
        let e = ix.entries[frn];
        if o.directories_only && !e.is_directory() {
            None
        } else if o.files_only && e.is_directory() {
            None
        } else if !has_extension(text::text_of(o.extension), e.name) {
            None
        } else if !ix.entries.contains_key(e.frn) {
            None
        } else {
            let path = index::path_of(ix.drive, ix.entries, e.frn);
            if in_directory(text::text_of(o.under_dir), path) {
                Some(Hit { frn: e.frn, path, is_directory: e.is_directory() })
            } else {
                None
            }
        }
    }
}

/// What is found under each of the reference numbers, in their order.
pub open spec fn rows_of(ix: Index, o: SearchOptions, frns: Seq<u64>) -> Seq<Hit>
    decreases frns.len(),
{
    if frns.len() == 0 {
        seq![]
    } else {
        let before = rows_of(ix, o, frns.drop_last());
        match hit_of(ix, o, frns.last()) {
            Some(hit) => before.push(hit),
            None => before,
        }
    }
}

/// The verdicts of a list, where there is one.
pub open spec fn answers(v: Option<Vec<bool>>) -> Option<Seq<bool>> {
    match v {
        Some(v) => Some(v@),
        None => None,
    }
}

/// The rows that have a favourable verdict.
pub open spec fn kept(rows: Seq<Hit>, verdicts: Seq<bool>) -> Seq<Hit>
    decreases rows.len(),
{
    if rows.len() == 0 {
        seq![]
    } else {
        let before = kept(rows.drop_last(), verdicts);
        if verdicts[rows.len() - 1] {
            before.push(rows.last())
        } else {
            before
        }
    }
}

/// The sort keys of the rows.
pub open spec fn row_keys(rows: Seq<Hit>, query: Seq<char>) -> Seq<order::Key> {
    Seq::new(rows.len(), |i: int| relevance::relevance(rows[i].path, query))
}

/// The rows, the most relevant first.
pub open spec fn ranked(rows: Seq<Hit>, query: Seq<char>) -> Seq<Hit> {
    Seq::new(rows.len(), |i: int| rows[order::order_of(row_keys(rows, query))[i]])
}

/// The rows that the verdicts leave: all of them where there are none.
pub open spec fn left_by(rows: Seq<Hit>, verdicts: Option<Seq<bool>>) -> Seq<Hit> {
    match verdicts {
        Some(v) => kept(rows, v),
        None => rows,
    }
}

/// The most relevant of the rows that the verdicts leave.
pub open spec fn finish(
    rows: Seq<Hit>,
    verdicts: Option<Seq<bool>>,
    query: Seq<char>,
    limit: nat,
) -> Seq<Hit> {
    arena::first_n(ranked(left_by(rows, verdicts), query), limit)
}

/// The rows of a search before a pattern is asked.
pub open spec fn found(ix: Index, o: SearchOptions) -> Seq<Hit> {
    rows_of(ix, o, candidate_list(ix, o))
}

/// `hits` answers the options on a system where a backslash separates the parts
/// of a path or does not: the most relevant of what is found, and of it what the
/// pattern accepts.
pub open spec fn answers_on(
    ix: Index,
    o: SearchOptions,
    backslash_separates: bool,
    hits: Seq<Hit>,
) -> bool {
    hits == finish(
        found(ix, o),
        verdicts_for(o, backslash_separates, found(ix, o)),
        text::lower(o.query@),
        result_limit(o),
    )
}

/// `hits` answers the options. Only for a pattern with a backslash does it make
/// a difference whether a backslash separates the parts of a path on the system.
pub open spec fn answers_search(ix: Index, o: SearchOptions, hits: Seq<Hit>) -> bool {
    &&& exists|b: bool| answers_on(ix, o, b, hits)
    &&& plain_pattern(text::text_of(o.glob)) ==> answers_on(ix, o, false, hits)
}

fn keep_rows(rows: &Vec<SearchResult>, verdicts: &Vec<bool>) -> (r: Vec<SearchResult>)
    requires
        verdicts@.len() == rows@.len(),
    ensures
        hits_of(r@) == kept(hits_of(rows@), verdicts@),
{
    let ghost all = hits_of(rows@);
    let mut r: Vec<SearchResult> = Vec::new();
    let mut i: usize = 0;
    assert(all.take(0) =~= seq![]);
    assert(hits_of(r@) =~= seq![]);
    while i < rows.len()
        invariant
            i <= rows@.len() == verdicts@.len(),
            all == hits_of(rows@),
            hits_of(r@) == kept(all.take(i as int), verdicts@),
        decreases rows@.len() - i,
    {
        let ghost before = hits_of(r@);
        if verdicts[i] {
            r.push(rows[i].copy());
            assert(hits_of(r@) =~= before.push(all[i as int]));
        }
        i += 1;
        assert(all.take(i as int).drop_last() =~= all.take(i - 1));
        assert(all.take(i as int).last() == all[i - 1]);
    }
    assert(all.take(i as int) =~= all);
    r
}

/// The most relevant rows, at most `limit` of them.
pub fn rank_rows(rows: &Vec<SearchResult>, query_lower: &str, limit: usize) -> (r: Vec<SearchResult>)
    ensures
        hits_of(r@) == arena::first_n(ranked(hits_of(rows@), query_lower@), limit as nat),
{
    let ghost all = hits_of(rows@);
    let mut keys: Vec<SortKey> = Vec::with_capacity(rows.len());
    let mut i: usize = 0;
    while i < rows.len()
        invariant
            i <= rows@.len() == all.len(),
            all == hits_of(rows@),
            keys@.len() == i,
            forall|k: int|
                0 <= k < i ==> (#[trigger] keys@[k])@ == relevance::relevance(
                    all[k].path,
                    query_lower@,
                ),
        decreases rows@.len() - i,
    {
        keys.push(relevance::path_relevance_key(rows[i].path.as_str(), query_lower));
        i += 1;
    }
    assert(order::keys_of(keys@) =~= row_keys(all, query_lower@));
    let at = order::sorted_positions(&keys);
    let ghost places = Seq::new(at@.len(), |i: int| at@[i] as int);
    let ghost want = ranked(all, query_lower@);
    let mut r: Vec<SearchResult> = Vec::new();
    let mut k: usize = 0;
    assert(hits_of(r@) =~= want.take(0));
    while k < at.len() && k < limit
        invariant
            k <= at@.len() == all.len(),
            k <= limit,
            rows@.len() == all.len(),
            all == hits_of(rows@),
            want == ranked(all, query_lower@),
            places == Seq::new(at@.len(), |i: int| at@[i] as int),
            places == order::order_of(row_keys(all, query_lower@)),
            forall|i: int| 0 <= i < at@.len() ==> #[trigger] at@[i] < rows@.len(),
            hits_of(r@) == want.take(k as int),
        decreases at@.len() - k,
    {
        let ghost before = hits_of(r@);
        r.push(rows[at[k]].copy());
        assert(places[k as int] == at@[k as int] as int);
        assert(hits_of(r@) =~= before.push(want[k as int]));
        k += 1;
        assert(hits_of(r@) =~= want.take(k as int));
    }
    assert(hits_of(r@) =~= arena::first_n(want, limit as nat));
    r
}

/// The end of a search: the rows that the verdicts leave, the most relevant
/// first, at most `limit` of them.
pub fn finish_search(
    rows: Vec<SearchResult>,
    verdicts: Option<Vec<bool>>,
    query_lower: &str,
    limit: usize,
) -> (r: Vec<SearchResult>)
    requires
        verdicts matches Some(v) ==> v@.len() == rows@.len(),
    ensures
        hits_of(r@) == finish(
            hits_of(rows@),
            answers(verdicts),
            query_lower@,
            limit as nat,
        ),
{
    match verdicts {
        Some(v) => rank_rows(&keep_rows(&rows, &v), query_lower, limit),
        None => rank_rows(&rows, query_lower, limit),
    }
}

/// `n` times `k`, but no more than a machine word holds.
fn multiple(n: usize, k: usize) -> (r: usize)
    requires
        k > 0,
    ensures
        r == times(n as nat, k as nat),
{
    if n > usize::MAX / k {
        assert(n * k > usize::MAX) by (nonlinear_arith)
            requires
                n > usize::MAX / k,
                k > 0,
        ;
        usize::MAX
    } else {
        assert(n * k <= usize::MAX) by (nonlinear_arith)
            requires
                n <= usize::MAX / k,
                k > 0,
        ;
        n * k
    }
}

impl FileIndex {
    /// What is found under a reference number.
    fn look_up(
        &self,
        options: &SearchOptions,
        extension: &Option<String>,
        under: &Option<UnderMatcher>,
        frn: u64,
    ) -> (r: Option<SearchResult>)
        requires
            match options.extension {
                None => extension is None,
                Some(w) => *extension matches Some(x) && x@ == text::strip_start(
                    w@,
                    CharSet::One('.'),
                ),
            },
            match options.under_dir {
                None => under is None,
                Some(w) => match under_of(w@) {
                    None => under is None,
                    Some(u) => *under matches Some(x) && x@ == u,
                },
            },
        ensures
            match r {
                Some(hit) => hit_of(self@, *options, frn) == Some(hit@),
                None => hit_of(self@, *options, frn) is None,
            },
    {
        let e = match self.entries.get(&frn) {
            Some(e) => e,
            None => {
                return None;
            },
        };
        assert(self@.entries[frn] == e@);
        let is_directory = e.is_directory();
        if options.directories_only && !is_directory {
            return None;
        }
        if options.files_only && is_directory {
            return None;
        }
        if let Some(wanted) = extension {
            let matched = match path::extension_of(e.name.as_str()) {
                Some(x) => text::same_ignoring_case(x.as_str(), wanted.as_str()),
                None => false,
            };
            if !matched {
                return None;
            }
        }
        let path = match self.resolve_path(e.frn) {
            Some(path) => path,
            None => {
                return None;
            },
        };
        if let Some(u) = under {
            if !u.admits(path.as_str()) {
                return None;
            }
        }
        Some(SearchResult { frn: e.frn, path, is_directory })
    }

    /// The first `max` of the reference numbers whose entry has a name that
    /// holds the query.
    fn keep_holding(&self, frns: &Vec<u64>, query_lower: &str, max: usize) -> (r: Vec<u64>)
        ensures
            r@ == arena::first_n(
                holding(self@.entries, bytes::utf8(query_lower@), frns@),
                max as nat,
            ),
    {
        let ghost query = bytes::utf8(query_lower@);
        let mut r: Vec<u64> = Vec::new();
        let mut i: usize = 0;
        assert(frns@.take(0) =~= seq![]);
        while i < frns.len() && r.len() < max
            invariant
                i <= frns@.len(),
                query == bytes::utf8(query_lower@),
                r@ == holding(self@.entries, query, frns@.take(i as int)),
                r@.len() <= max,
            decreases frns@.len() - i,
        {
            let frn = frns[i];
            let holds = match self.entries.get(&frn) {
                Some(e) => {
                    proof {
                        bytes::lower_commutes_with_utf8(e.name@);
                        assert(self@.entries[frn] == e@);
                    }
                    bytes::holds_text(text::to_lower(e.name.as_str()).as_str(), query_lower)
                },
                None => false,
            };
            if holds {
                r.push(frn);
            }
            i += 1;
            assert(frns@.take(i as int).drop_last() =~= frns@.take(i - 1));
            assert(frns@.take(i as int).last() == frn);
        }
        proof {
            let rest = frns@.subrange(i as int, frns@.len() as int);
            lemma_holding_concat(self@.entries, query, frns@.take(i as int), rest);
            assert(frns@.take(i as int) + rest =~= frns@);
            if i == frns@.len() {
                assert(rest =~= seq![]);
            }
            assert(r@ =~= arena::first_n(holding(self@.entries, query, frns@), max as nat));
        }
        r
    }

    /// The entries to look at.
    fn candidates(&self, options: &SearchOptions, query_lower: &str, limit: usize) -> (r: Vec<u64>)
        requires
            self.wf(),
            query_lower@ == text::lower(options.query@),
            limit == result_limit(*options),
        ensures
            r@ == candidate_list(self@, *options),
    {
        let candidate_limit = multiple(limit, 8);
        if options.prefer_trigram && text::len_in_bytes(query_lower)
            >= index::TRIGRAM_MIN_QUERY_LEN {
            if let Some(lists) = &self.trigram_index {
                let sharing = lists.query_candidates(query_lower, usize::MAX);
                return self.keep_holding(&sharing, query_lower, multiple(candidate_limit, 32));
            }
        }
        self.search_arena.candidate_frns(query_lower, candidate_limit)
    }

    /// The entries that answer the options, the most relevant first.
    pub fn search(&self, options: &SearchOptions) -> (r: Vec<SearchResult>)
        requires
            self.wf(),
        ensures
            answers_search(self@, *options, hits_of(r@)),
    {
        let pattern = GlobPattern::new(&options.glob);
        let r = self.search_with(options, &pattern);
        assert(answers_on(self@, *options, pattern.separates(), hits_of(r@)));
        r
    }

    /// As [`FileIndex::search`], with the pattern of the options made ready
    /// before.
    pub fn search_with(&self, options: &SearchOptions, pattern: &GlobPattern) -> (r: Vec<
        SearchResult,
    >)
        requires
            self.wf(),
            pattern.reads(text::text_of(options.glob), pattern.separates()),
        ensures
            answers_on(self@, *options, pattern.separates(), hits_of(r@)),
            forall|b: bool| #[trigger]
                pattern.reads(text::text_of(options.glob), b) ==> answers_on(
                    self@,
                    *options,
                    b,
                    hits_of(r@),
                ),
    {
        let query = text::to_lower(options.query.as_str());
        let limit: usize = if options.limit == 0 {
            1
        } else {
            options.limit
        };
        let extension: Option<String> = match &options.extension {
            Some(x) => Some(text::without_start(x.as_str(), CharSet::One('.'))),
            None => None,
        };
        let under: Option<UnderMatcher> = match &options.under_dir {
            Some(raw) => build_under_matcher(raw.as_str()),
            None => None,
        };
        let frns = self.candidates(options, query.as_str(), limit);
        let mut rows: Vec<SearchResult> = Vec::new();
        let mut i: usize = 0;
        assert(frns@.take(0) =~= seq![]);
        assert(hits_of(rows@) =~= seq![]);
        while i < frns.len()
            invariant
                i <= frns@.len(),
                match options.extension {
                    None => extension is None,
                    Some(w) => extension matches Some(x) && x@ == text::strip_start(
                        w@,
                        CharSet::One('.'),
                    ),
                },
                match options.under_dir {
                    None => under is None,
                    Some(w) => match under_of(w@) {
                        None => under is None,
                        Some(u) => under matches Some(x) && x@ == u,
                    },
                },
                hits_of(rows@) == rows_of(self@, *options, frns@.take(i as int)),
            decreases frns@.len() - i,
        {
            let ghost before = hits_of(rows@);
            if let Some(hit) = self.look_up(options, &extension, &under, frns[i]) {
                rows.push(hit);
                assert(hits_of(rows@) =~= before.push(hit@));
            }
            i += 1;
            assert(frns@.take(i as int).drop_last() =~= frns@.take(i - 1));
            assert(frns@.take(i as int).last() == frns@[i - 1]);
        }
        assert(frns@.take(i as int) =~= frns@);
        let verdicts = pattern.ask(&rows);
        let ghost v = answers(verdicts);
        let r = finish_search(rows, verdicts, query.as_str(), limit);
        assert(hits_of(r@) == finish(
            found(self@, *options),
            v,
            text::lower(options.query@),
            result_limit(*options),
        ));
        proof {
            let glob = text::text_of(options.glob);
            assert forall|b: bool| #[trigger] pattern.reads(glob, b) implies answers_on(
                self@,
                *options,
                b,
                hits_of(r@),
            ) by {
                assert(v == verdicts_for(*options, b, found(self@, *options)));
            }
        }
        r
    }
}

// ---------------------------------------------------------------------------
// Laws
// ---------------------------------------------------------------------------

pub(crate) proof fn lemma_ranked(rows: Seq<Hit>, query: Seq<char>)
    ensures
        ranked(rows, query).len() == rows.len(),
        forall|h: Hit| #[trigger] ranked(rows, query).contains(h) <==> rows.contains(h),
        forall|i: int, j: int|
            0 <= i < j < rows.len() ==> !order::key_less(
                relevance::relevance(#[trigger] ranked(rows, query)[j].path, query),
                relevance::relevance(#[trigger] ranked(rows, query)[i].path, query),
            ),
{
    let keys = row_keys(rows, query);
    let at = order::order_of(keys);
    let r = ranked(rows, query);
    order::order_of_is_order(keys);
    assert forall|h: Hit| #[trigger] r.contains(h) <==> rows.contains(h) by {
        if r.contains(h) {
            let i = choose|i: int| 0 <= i < r.len() && r[i] == h;
            assert(at.contains(at[i]));
            assert(rows[at[i]] == h);
        }
        if rows.contains(h) {
            let k = choose|k: int| 0 <= k < rows.len() && rows[k] == h;
            assert(at.contains(k));
            let i = choose|i: int| 0 <= i < at.len() && at[i] == k;
            assert(r[i] == h);
        }
    }
    assert forall|i: int, j: int| 0 <= i < j < rows.len() implies !order::key_less(
        relevance::relevance(#[trigger] r[j].path, query),
        relevance::relevance(#[trigger] r[i].path, query),
    ) by {
        assert(order::item_before(keys, at[i], at[j]));
        assert(at.contains(at[i]) && at.contains(at[j]));
        order::key_order_is_total(keys[at[i]], keys[at[j]]);
    }
}

pub(crate) proof fn lemma_rows(ix: Index, o: SearchOptions, frns: Seq<u64>, h: Hit)
    ensures
        rows_of(ix, o, frns).contains(h) <==> exists|f: u64| #[trigger]
            frns.contains(f) && hit_of(ix, o, f) == Some(h),
    decreases frns.len(),
{
    let rows = rows_of(ix, o, frns);
    if frns.len() > 0 {
        let rest = frns.drop_last();
        let before = rows_of(ix, o, rest);
        lemma_rows(ix, o, rest, h);
        if rows.contains(h) {
            let i = choose|i: int| 0 <= i < rows.len() && rows[i] == h;
            if i < before.len() {
                assert(before[i] == h);
                assert(before.contains(h));
                let f = choose|f: u64| #[trigger] rest.contains(f) && hit_of(ix, o, f) == Some(h);
                let j = choose|j: int| 0 <= j < rest.len() && rest[j] == f;
                assert(frns[j] == f);
                assert(frns.contains(f));
            } else {
                assert(frns[frns.len() - 1] == frns.last());
                assert(frns.contains(frns.last()));
            }
        }
        if exists|f: u64| #[trigger] frns.contains(f) && hit_of(ix, o, f) == Some(h) {
            let f = choose|f: u64| #[trigger] frns.contains(f) && hit_of(ix, o, f) == Some(h);
            let j = choose|j: int| 0 <= j < frns.len() && frns[j] == f;
            if j < rest.len() {
                assert(rest[j] == f);
                assert(rest.contains(f));
                let i = choose|i: int| 0 <= i < before.len() && before[i] == h;
                assert(rows[i] == h);
            } else {
                assert(rows[before.len() as int] == h);
            }
        }
    }
}

/// A search gives no more results than asked for, and the more relevant of two
/// results first, whatever a pattern says.
pub proof fn results_are_ranked(
    ix: Index,
    o: SearchOptions,
    verdicts: Option<Seq<bool>>,
    i: int,
    j: int,
)
    requires
        0 <= i < j < finish(
            found(ix, o),
            verdicts,
            text::lower(o.query@),
            result_limit(o),
        ).len(),
    ensures
        finish(found(ix, o), verdicts, text::lower(o.query@), result_limit(o)).len()
            <= result_limit(o),
        !order::key_less(
            relevance::relevance(
                finish(
                    found(ix, o),
                    verdicts,
                    text::lower(o.query@),
                    result_limit(o),
                )[j].path,
                text::lower(o.query@),
            ),
            relevance::relevance(
                finish(
                    found(ix, o),
                    verdicts,
                    text::lower(o.query@),
                    result_limit(o),
                )[i].path,
                text::lower(o.query@),
            ),
        ),
{
    let left = left_by(found(ix, o), verdicts);
    lemma_ranked(left, text::lower(o.query@));
    let r = ranked(left, text::lower(o.query@));
    assert(!order::key_less(
        relevance::relevance(r[j].path, text::lower(o.query@)),
        relevance::relevance(r[i].path, text::lower(o.query@)),
    ));
}

/// Every result of a search is an entry of the index that passes the filters,
/// under its path; its kind, extension and directory are those asked for.
pub proof fn results_pass_the_filters(
    ix: Index,
    o: SearchOptions,
    verdicts: Option<Seq<bool>>,
    h: Hit,
)
    requires
        index::keyed(ix.entries),
        finish(found(ix, o), verdicts, text::lower(o.query@), result_limit(o)).contains(h),
    ensures
        candidate_list(ix, o).contains(h.frn),
        ix.entries.contains_key(h.frn),
        h.path == index::path_of(ix.drive, ix.entries, h.frn),
        h.is_directory == ix.entries[h.frn].is_directory(),
        o.directories_only ==> h.is_directory,
        o.files_only ==> !h.is_directory,
        has_extension(text::text_of(o.extension), ix.entries[h.frn].name),
        in_directory(text::text_of(o.under_dir), h.path),
{
    let query = text::lower(o.query@);
    let left = left_by(found(ix, o), verdicts);
    lemma_ranked(left, query);
    let all = ranked(left, query);
    let r = finish(found(ix, o), verdicts, query, result_limit(o));
    let k = choose|k: int| 0 <= k < r.len() && r[k] == h;
    assert(all[k] == h);
    assert(all.contains(h));
    if let Some(v) = verdicts {
        lemma_kept_verdict(found(ix, o), v, h);
    }
    lemma_rows(ix, o, candidate_list(ix, o), h);
    let f = choose|f: u64| #[trigger]
        candidate_list(ix, o).contains(f) && hit_of(ix, o, f) == Some(h);
    assert(ix.entries[f].frn == f);
}

pub(crate) proof fn lemma_first_n<A>(s: Seq<A>, n: nat, x: A)
    ensures
        arena::first_n(s, n).contains(x) ==> s.contains(x),
{
    if arena::first_n(s, n).contains(x) {
        let k = choose|k: int| 0 <= k < arena::first_n(s, n).len() && arena::first_n(s, n)[k] == x;
        assert(s[k] == x);
    }
}

/// The name of every result of a search holds the query, in any case of its
/// letters, with or without trigrams.
pub proof fn results_hold_the_query(
    ix: Index,
    o: SearchOptions,
    verdicts: Option<Seq<bool>>,
    h: Hit,
)
    requires
        index::synced(ix.slots, ix.entries),
        finish(found(ix, o), verdicts, text::lower(o.query@), result_limit(o)).contains(h),
    ensures
        ix.entries.contains_key(h.frn),
        bytes::contains(
            bytes::utf8(text::lower(ix.entries[h.frn].name)),
            bytes::utf8(text::lower(o.query@)),
        ),
{
    let query = bytes::utf8(text::lower(o.query@));
    results_pass_the_filters(ix, o, verdicts, h);
    lemma_first_n(all_candidates(ix, o), candidate_limit(ix, o), h.frn);
    if uses_trigrams(ix, o) {
        lemma_holding(ix.entries, query, trigram::sharing(ix.lists->0, query));
    } else {
        index::synced_hits_are_matches(ix.slots, ix.entries, query, h.frn);
    }
    bytes::lower_commutes_with_utf8(ix.entries[h.frn].name);
}

pub(crate) proof fn lemma_kept_verdict(rows: Seq<Hit>, verdicts: Seq<bool>, h: Hit)
    ensures
        kept(rows, verdicts).contains(h) <==> exists|i: int|
            0 <= i < rows.len() && #[trigger] rows[i] == h && verdicts[i],
    decreases rows.len(),
{
    let k = kept(rows, verdicts);
    if rows.len() > 0 {
        let rest = rows.drop_last();
        let before = kept(rest, verdicts);
        lemma_kept_verdict(rest, verdicts, h);
        if k.contains(h) {
            let i = choose|i: int| 0 <= i < k.len() && k[i] == h;
            if i < before.len() {
                assert(before[i] == h);
                let j = choose|j: int| 0 <= j < rest.len() && #[trigger] rest[j] == h && verdicts[j];
                assert(rows[j] == h);
            } else {
                assert(rows[rows.len() - 1] == h);
            }
        }
        if exists|i: int| 0 <= i < rows.len() && #[trigger] rows[i] == h && verdicts[i] {
            let i = choose|i: int| 0 <= i < rows.len() && #[trigger] rows[i] == h && verdicts[i];
            if i < rest.len() {
                assert(rest[i] == h);
                let j = choose|j: int| 0 <= j < before.len() && before[j] == h;
                assert(k[j] == h);
            } else {
                assert(k[before.len() as int] == h);
            }
        }
    }
}

/// Every result of a search with a pattern that can be asked matches the
/// pattern.
pub proof fn results_match_the_pattern(
    ix: Index,
    o: SearchOptions,
    backslash_separates: bool,
    hits: Seq<Hit>,
    h: Hit,
)
    requires
        answers_on(ix, o, backslash_separates, hits),
        o.glob is Some,
        glob_valid(o.glob->0@, backslash_separates),
        hits.contains(h),
    ensures
        glob_accepts(o.glob->0@, backslash_separates, slashed(h.path)),
{
    let rows = found(ix, o);
    let query = text::lower(o.query@);
    let v = verdicts_for(o, backslash_separates, rows)->0;
    let left = kept(rows, v);
    lemma_ranked(left, query);
    lemma_first_n(ranked(left, query), result_limit(o), h);
    assert(ranked(left, query).contains(h));
    lemma_kept_verdict(rows, v, h);
    let i = choose|i: int| 0 <= i < rows.len() && #[trigger] rows[i] == h && v[i];
    assert(v[i] == glob_accepts(o.glob->0@, backslash_separates, slashed(rows[i].path)));
}

/// The rows that pass all filters of the options, the pattern among them.
pub open spec fn passing(ix: Index, o: SearchOptions, backslash_separates: bool) -> Seq<Hit> {
    left_by(found(ix, o), verdicts_for(o, backslash_separates, found(ix, o)))
}

/// A search gives as many of the rows that pass as are asked for, or all of
/// them, and leaves out none that is more relevant than one it gives.
pub proof fn best_results_are_given(
    ix: Index,
    o: SearchOptions,
    backslash_separates: bool,
    hits: Seq<Hit>,
)
    requires
        answers_on(ix, o, backslash_separates, hits),
    ensures
        hits.len() == if passing(ix, o, backslash_separates).len() < result_limit(o) {
            passing(ix, o, backslash_separates).len()
        } else {
            result_limit(o)
        },
        forall|h: Hit| #[trigger]
            hits.contains(h) ==> passing(ix, o, backslash_separates).contains(h),
        forall|g: Hit, h: Hit|
            #![trigger hits.contains(g), passing(ix, o, backslash_separates).contains(h)]
            hits.contains(g) && passing(ix, o, backslash_separates).contains(h) && !hits.contains(h)
                ==> !order::key_less(
                relevance::relevance(h.path, text::lower(o.query@)),
                relevance::relevance(g.path, text::lower(o.query@)),
            ),
{
    let query = text::lower(o.query@);
    let left = passing(ix, o, backslash_separates);
    let all = ranked(left, query);
    lemma_ranked(left, query);
    assert forall|h: Hit| #[trigger] hits.contains(h) implies left.contains(h) by {
        lemma_first_n(all, result_limit(o), h);
        assert(all.contains(h));
    }
    assert forall|g: Hit, h: Hit|
        #![trigger hits.contains(g), left.contains(h)]
        hits.contains(g) && left.contains(h) && !hits.contains(h) implies !order::key_less(
        relevance::relevance(h.path, query),
        relevance::relevance(g.path, query),
    ) by {
        let i = choose|i: int| 0 <= i < hits.len() && hits[i] == g;
        assert(all.contains(h));
        let j = choose|j: int| 0 <= j < all.len() && all[j] == h;
        assert(all[i] == g);
        if j < hits.len() {
            assert(hits[j] == h);
        }
        assert(!order::key_less(
            relevance::relevance(all[j].path, query),
            relevance::relevance(all[i].path, query),
        ));
    }
}

/// An entry whose name holds the query, that passes the filters and that no
/// verdict rejects is found, with or without trigrams, unless more entries
/// answer the query than the search looks at, or more are left than it gives.
pub proof fn matches_are_found(
    ix: Index,
    o: SearchOptions,
    verdicts: Option<Seq<bool>>,
    frn: u64,
)
    requires
        index::synced(ix.slots, ix.entries),
        arena::text_len(ix.slots.slots) <= u32::MAX,
        ix.lists matches Some(l) ==> trigram::indexes(l, ix.entries.values()),
        !text::lower(o.query@).contains('\0'),
        ix.entries.contains_key(frn),
        hit_of(ix, o, frn) is Some,
        bytes::contains(
            bytes::utf8(text::lower(ix.entries[frn].name)),
            bytes::utf8(text::lower(o.query@)),
        ),
        verdicts matches Some(v) ==> forall|i: int|
            0 <= i < found(ix, o).len() && #[trigger] found(ix, o)[i] == hit_of(ix, o, frn)->0
                ==> v[i],
        all_candidates(ix, o).len() <= candidate_limit(ix, o),
        left_by(found(ix, o), verdicts).len() <= result_limit(o),
    ensures
        finish(found(ix, o), verdicts, text::lower(o.query@), result_limit(o)).contains(
            hit_of(ix, o, frn)->0,
        ),
{
    let text_query = text::lower(o.query@);
    let query = bytes::utf8(text_query);
    let e = ix.entries[frn];
    bytes::lower_commutes_with_utf8(e.name);
    assert(e.frn == frn);
    bytes::no_zero_byte(text_query);
    if uses_trigrams(ix, o) {
        assert(ix.entries.values().contains(e));
        assert(trigram::clean(query, 0)) by {
            assert(query.contains(query[0]) && query.contains(query[1]) && query.contains(query[2]));
        }
        trigram::grams_are_held(query);
        assert(trigram::has_gram(query, trigram::gram_at(query, 0)));
        assert(trigram::grams(query).contains(trigram::gram_at(query, 0)));
        trigram::candidates_are_complete(
            ix.lists->0,
            ix.entries.values(),
            e,
            query,
            candidate_limit(ix, o),
        );
        lemma_holding(ix.entries, query, trigram::sharing(ix.lists->0, query));
    } else {
        index::synced_matches_are_hits(ix.slots, ix.entries, query, frn);
    }
    let h = hit_of(ix, o, frn)->0;
    assert(candidate_list(ix, o).contains(frn));
    lemma_rows(ix, o, candidate_list(ix, o), h);
    let rows = found(ix, o);
    let left = left_by(rows, verdicts);
    assert(rows.contains(h));
    if let Some(v) = verdicts {
        let i = choose|i: int| 0 <= i < rows.len() && rows[i] == h;
        assert(v[i]);
        lemma_kept_verdict(rows, v, h);
    }
    lemma_ranked(left, text_query);
    assert(left.contains(h));
    assert(ranked(left, text_query).contains(h));
}

// ---------------------------------------------------------------------------
// What the filters admit
// ---------------------------------------------------------------------------

/// The text names a directory below a drive as the system does: no slash, no
/// space around it, no separator behind it.
pub open spec fn plain_directory(d: Seq<char>) -> bool {
    &&& d.len() >= 3
    &&& !text::is_space(d[0])
    &&& !text::is_space(d.last())
    &&& d.last() != '\\'
    &&& !d.contains('/')
}

proof fn lemma_given(d: Seq<char>)
    requires
        d.len() > 0,
        !text::is_space(d[0]),
        !text::is_space(d.last()),
        !d.contains('/'),
    ensures
        text::lower(text::replace(text::trim(d), '/', seq!['\\'])) == text::lower(d),
{
    let none = Seq::<char>::empty();
    text::trimming_takes_the_spaces(none, d, none);
    assert(none + d + none =~= d);
    text::replace_one_by_one(d, '/', '\\');
    assert forall|i: int| 0 <= i < d.len() implies d[i] != '/' by {
        assert(d.contains(d[i]));
    }
    assert(text::replace(d, '/', seq!['\\']) =~= d);
}

/// A path is in a directory exactly where it starts with the path of the
/// directory, in any case of its letters, and there ends or goes on with a
/// separator.
pub proof fn directories_admit_what_starts_with_them(d: Seq<char>, path: Seq<char>)
    requires
        plain_directory(d),
    ensures
        in_directory(Some(d), path) <==> path.len() >= d.len() && (forall|i: int|
            0 <= i < d.len() ==> text::same_letter(#[trigger] path[i], d[i])) && (path.len()
            == d.len() || path[d.len() as int] == '\\'),
{
    let low = text::lower(d);
    lemma_given(d);
    text::byte_len_zero(low);
    text::lowering_changes_capitals_only(d, d.len() - 1);
    assert(low.last() == low[d.len() - 1]);
    let u = under_of(d)->0;
    assert(u.exact == low);
    assert(u.prefix == low.push('\\'));
    let p = text::lower(path);
    if path.len() >= d.len() {
        let start = path.take(d.len() as int);
        text::case_is_ignored(start, d);
        assert(text::lower(start) =~= p.take(d.len() as int));
        if path.len() > d.len() {
            text::lowering_changes_capitals_only(path, d.len() as int);
            assert(p.subrange(0, d.len() as int + 1) =~= p.take(d.len() as int).push(
                p[d.len() as int],
            ));
            if text::starts_with(p, u.prefix) {
                assert(p.take(d.len() as int) =~= low);
                assert(p[d.len() as int] == u.prefix[d.len() as int]);
            }
            assert forall|i: int| 0 <= i < d.len() implies start[i] == path[i] by {}
        } else {
            assert(start =~= path);
        }
        if in_directory(Some(d), path) {
            assert(text::lower(start) == low);
            assert forall|i: int| 0 <= i < d.len() implies text::same_letter(
                #[trigger] path[i],
                d[i],
            ) by {
                assert(text::same_letter(start[i], d[i]));
            }
        }
        if forall|i: int| 0 <= i < d.len() ==> text::same_letter(#[trigger] path[i], d[i]) {
            assert forall|i: int| 0 <= i < start.len() implies text::same_letter(
                #[trigger] start[i],
                d[i],
            ) by {
                assert(text::same_letter(path[i], d[i]));
            }
            assert(text::lower(start) == low);
        }
    }
}

/// A drive, with or without its separator, admits every path that starts with
/// the drive and a separator, and no other.
pub proof fn drives_admit_their_paths(letter: char, path: Seq<char>)
    requires
        text::is_ascii_letter(letter),
    ensures
        in_directory(Some(seq![letter, ':']), path) <==> path.len() >= 3 && text::same_letter(
            path[0],
            letter,
        ) && path[1] == ':' && path[2] == '\\',
        in_directory(Some(seq![letter, ':', '\\']), path) == in_directory(
            Some(seq![letter, ':']),
            path,
        ),
{
    let bare = seq![letter, ':'];
    let root = seq![letter, ':', '\\'];
    let low = text::lower_char(letter);
    let none = Seq::<char>::empty();
    lemma_given(bare);
    lemma_given(root);
    assert(text::lower(bare) =~= seq![low, ':']);
    assert(text::lower(root) =~= seq![low, ':', '\\']);
    text::byte_len_zero(none);
    lemma_byte_len_push(none, low);
    lemma_byte_len_push(none.push(low), ':');
    lemma_byte_len_push(none.push(low).push(':'), '\\');
    assert(none.push(low).push(':') =~= seq![low, ':']);
    assert(seq![low, ':'].push('\\') =~= seq![low, ':', '\\']);
    let u = under_of(bare)->0;
    assert(u.exact =~= seq![low, ':', '\\']);
    assert(u.prefix == u.exact);
    assert(under_of(root)->0.exact =~= u.exact);
    assert(under_of(root)->0.prefix == u.prefix);
    let p = text::lower(path);
    if path.len() >= 3 {
        text::lowering_changes_capitals_only(path, 0);
        text::lowering_changes_capitals_only(path, 1);
        text::lowering_changes_capitals_only(path, 2);
        assert(p.subrange(0, 3) =~= seq![p[0], p[1], p[2]]);
        if text::starts_with(p, u.prefix) {
            assert(p.subrange(0, 3)[0] == low);
            assert(p.subrange(0, 3)[1] == ':');
            assert(p.subrange(0, 3)[2] == '\\');
        }
        if p == u.exact {
            assert(p.subrange(0, 3) =~= p);
        }
    }
}

/// A blank directory admits every path, as does none at all.
pub proof fn blank_directories_admit_everything(d: Seq<char>, path: Seq<char>)
    requires
        forall|i: int| 0 <= i < d.len() ==> text::is_space(#[trigger] d[i]),
    ensures
        in_directory(Some(d), path),
        in_directory(None, path),
{
    let none = Seq::<char>::empty();
    text::trimming_takes_the_spaces(d, none, none);
    assert(d + none + none =~= d);
    text::replace_one_by_one(none, '/', '\\');
    assert(text::replace(none, '/', seq!['\\']) =~= none);
    assert(text::lower(none) =~= none);
}

/// What lies below an admitted path is admitted too, at any depth.
pub proof fn everything_below_is_admitted(d: Seq<char>, path: Seq<char>, rest: Seq<char>)
    requires
        in_directory(Some(d), path),
    ensures
        in_directory(Some(d), path + seq!['\\'] + rest),
{
    if let Some(u) = under_of(d) {
        let p = text::lower(path);
        let q = text::lower(path + seq!['\\'] + rest);
        text::lowering_goes_by_pieces(path, seq!['\\']);
        text::lowering_goes_by_pieces(path + seq!['\\'], rest);
        assert(text::lower(seq!['\\']) =~= seq!['\\']);
        assert(q =~= p.push('\\') + text::lower(rest));
        if text::starts_with(p, u.prefix) {
            assert(q.subrange(0, u.prefix.len() as int) =~= p.subrange(0, u.prefix.len() as int));
        } else if u.exact.last() == '\\' {
            assert(q.subrange(0, u.prefix.len() as int) =~= u.prefix);
        } else {
            assert(q.subrange(0, u.prefix.len() as int) =~= u.prefix);
        }
    }
}

/// An entry is admitted wherever the directory that it is in is admitted, and so
/// is everything below it.
pub proof fn entries_below_an_admitted_one_are_admitted(
    ix: Index,
    d: Seq<char>,
    frn: u64,
    n: nat,
)
    requires
        ix.entries.dom().finite(),
        ix.entries.contains_key(frn),
        !index::root_reference(frn),
        ix.entries[frn].parent_frn != 0,
        ix.entries[frn].parent_frn != frn,
        index::ends_after(ix.entries, ix.entries[frn].parent_frn, n),
        in_directory(
            Some(d),
            index::path_of(ix.drive, ix.entries, ix.entries[frn].parent_frn),
        ),
    ensures
        in_directory(Some(d), index::path_of(ix.drive, ix.entries, frn)),
{
    let up = index::path_of(ix.drive, ix.entries, ix.entries[frn].parent_frn);
    let name = ix.entries[frn].name;
    let path = index::path_of(ix.drive, ix.entries, frn);
    index::path_is_below_parent(ix.drive, ix.entries, frn, n);
    if path == up.push('\\') + name {
        assert(up.push('\\') + name =~= up + seq!['\\'] + name);
        everything_below_is_admitted(d, up, name);
    } else if let Some(u) = under_of(d) {
        let p = text::lower(up);
        let q = text::lower(path);
        assert(path == up + name || path == up);
        if path == up + name {
            text::lowering_goes_by_pieces(up, name);
            assert(p.last() == '\\') by {
                assert(up.last() == '\\');
                assert(p[p.len() - 1] == text::lower_char(up[up.len() - 1]));
            }
            if text::starts_with(p, u.prefix) {
                assert(q.subrange(0, u.prefix.len() as int) =~= p.subrange(
                    0,
                    u.prefix.len() as int,
                ));
            } else {
                assert(p == u.exact);
                assert(u.prefix == u.exact);
                assert(q.subrange(0, u.prefix.len() as int) =~= u.prefix);
            }
        }
    }
}

/// A name has an extension exactly where it ends in a dot and the extension, in
/// any case of its letters, and something stands before the dot.
pub proof fn extensions_go_by_the_end(w: Seq<char>, name: Seq<char>)
    requires
        path::plain_name(name),
        !w.contains('.'),
    ensures
        has_extension(Some(w), name) <==> name.len() > w.len() + 1 && name[name.len() - w.len() - 1]
            == '.' && forall|i: int|
            0 <= i < w.len() ==> text::same_letter(
                name[name.len() - w.len() + i],
                #[trigger] w[i],
            ),
{
    lemma_no_dots(w);
    path::names_alone(name);
    let n = name.len() - w.len() - 1;
    if has_extension(Some(w), name) {
        let x = path::extension(name)->0;
        let at = path::dot_of(name)->0;
        let end = text::after_last(name, CharSet::One('.'));
        lemma_dot(name);
        text::case_is_ignored(x, w);
        assert(at == n);
        assert forall|i: int| 0 <= i < w.len() implies text::same_letter(
            name[name.len() - w.len() + i],
            #[trigger] w[i],
        ) by {
            assert(text::same_letter(x[i], w[i]));
            assert(x[i] == name[at + 1 + i]);
        }
    }
    if name.len() > w.len() + 1 && name[n] == '.' && forall|i: int|
        0 <= i < w.len() ==> text::same_letter(name[name.len() - w.len() + i], #[trigger] w[i]) {
        let stem = name.take(n);
        let x = name.skip(n + 1);
        assert(name =~= stem + seq!['.'] + x);
        assert forall|i: int| 0 <= i < x.len() implies text::same_letter(#[trigger] x[i], w[i])
            && x[i] != '.' by {
            assert(x[i] == name[name.len() - w.len() + i]);
            assert(w.contains(w[i]));
        }
        text::case_is_ignored(x, w);
        path::extensions_stand_behind_the_last_dot(stem, x);
    }
}

/// A dot before the extension that is asked for makes no difference; where none
/// is asked for, every name has it.
pub proof fn dots_before_an_extension_are_passed_over(w: Seq<char>, name: Seq<char>)
    requires
        !w.contains('.'),
    ensures
        has_extension(Some(seq!['.'] + w), name) == has_extension(Some(w), name),
        has_extension(None, name),
{
    lemma_no_dots(w);
    let set = CharSet::One('.');
    assert forall|i: int| 0 <= i < seq!['.'].len() implies set.has(#[trigger] seq!['.'][i]) by {}
    text::stripping_takes_the_run(seq!['.'], w, set);
}

proof fn lemma_no_dots(w: Seq<char>)
    requires
        !w.contains('.'),
    ensures
        text::strip_start(w, CharSet::One('.')) == w,
        w.len() > 0 ==> w[0] != '.',
{
    if w.len() > 0 {
        assert(w.contains(w[0]));
    }
}

proof fn lemma_dot(name: Seq<char>)
    requires
        path::dot_of(name) is Some,
    ensures
        path::dot_of(name) matches Some(at) && 0 < at < name.len() && name[at] == '.',
{
    let set = CharSet::One('.');
    let n = lemma_last_dot(name);
    text::after_last_at(name, set, n);
}

proof fn lemma_last_dot(name: Seq<char>) -> (n: int)
    ensures
        0 <= n <= name.len(),
        forall|i: int| n <= i < name.len() ==> !CharSet::One('.').has(#[trigger] name[i]),
        n > 0 ==> CharSet::One('.').has(name[n - 1]),
    decreases name.len(),
{
    if name.len() == 0 || name.last() == '.' {
        name.len() as int
    } else {
        let rest = name.drop_last();
        let n = lemma_last_dot(rest);
        assert forall|i: int| n <= i < name.len() implies !CharSet::One('.').has(
            #[trigger] name[i],
        ) by {
            if i < rest.len() {
                assert(rest[i] == name[i]);
            }
        }
        n
    }
}

/// What is found under a number is the entry of that number under its path, and
/// it is found exactly where it passes each filter.
pub proof fn filters_decide(ix: Index, o: SearchOptions, frn: u64, h: Hit)
    requires
        index::keyed(ix.entries),
    ensures
        hit_of(ix, o, frn) == Some(h) <==> {
            &&& ix.entries.contains_key(frn)
            &&& h.frn == frn
            &&& h.path == index::path_of(ix.drive, ix.entries, frn)
            &&& h.is_directory == (ix.entries[frn].attributes / 16 % 2 == 1)
            &&& o.directories_only ==> h.is_directory
            &&& o.files_only ==> !h.is_directory
            &&& o.extension matches Some(w) ==> has_extension(Some(w@), ix.entries[frn].name)
            &&& o.under_dir matches Some(d) ==> in_directory(Some(d@), h.path)
        },
{
    if ix.entries.contains_key(frn) {
        let a = ix.entries[frn].attributes;
        assert((a & 0x10 != 0) == (a / 16 % 2 == 1)) by (bit_vector);
    }
}

/// The characters of a query stand in a name from `k` on, in any case of their
/// letters.
pub open spec fn stands_at(name: Seq<char>, query: Seq<char>, k: int) -> bool {
    &&& 0 <= k <= k + query.len() <= name.len()
    &&& forall|i: int|
        0 <= i < query.len() ==> text::same_letter(name[k + i], #[trigger] query[i])
}

/// A name holds a query exactly where the characters of the query stand in it
/// one behind the other, in any case of their letters.
pub proof fn names_hold_queries_in_any_case(
    entries: Map<u64, Entry>,
    query: Seq<char>,
    frn: u64,
)
    requires
        entries.contains_key(frn),
    ensures
        holds_query(entries, bytes::utf8(text::lower(query)), frn) <==> exists|k: int|
            stands_at(entries[frn].name, query, k),
{
    let name = entries[frn].name;
    bytes::lower_commutes_with_utf8(name);
    texts_hold_texts_in_any_case(name, query);
}

/// A text in lower case holds another one in lower case exactly where its
/// characters stand in it one behind the other, in any case of their letters.
pub proof fn texts_hold_texts_in_any_case(name: Seq<char>, query: Seq<char>)
    ensures
        bytes::contains(bytes::utf8(text::lower(name)), bytes::utf8(text::lower(query)))
            <==> exists|k: int| stands_at(name, query, k),
{
    let low = text::lower(name);
    let q = text::lower(query);
    bytes::contains_by_characters(low, q);
    if bytes::contains(bytes::utf8(low), bytes::utf8(q)) {
        let k = choose|k: int|
            0 <= k <= k + q.len() <= low.len() && #[trigger] low.subrange(k, k + q.len()) == q;
        let part = name.subrange(k, k + query.len());
        assert(text::lower(part) =~= low.subrange(k, k + q.len()));
        text::case_is_ignored(part, query);
        assert forall|i: int| 0 <= i < query.len() implies text::same_letter(
            name[k + i],
            #[trigger] query[i],
        ) by {
            assert(text::same_letter(part[i], query[i]));
        }
        assert(stands_at(name, query, k));
    }
    if exists|k: int| stands_at(name, query, k) {
        let k = choose|k: int| stands_at(name, query, k);
        let part = name.subrange(k, k + query.len());
        assert forall|i: int| 0 <= i < part.len() implies text::same_letter(
            #[trigger] part[i],
            query[i],
        ) by {
            assert(text::same_letter(name[k + i], query[i]));
        }
        text::case_is_ignored(part, query);
        assert(low.subrange(k, k + q.len()) =~= text::lower(part));
    }
}

/// As many results are given as are asked for, at least one; and eight times as
/// many entries that hold the query are looked at, at least.
pub proof fn limits_are_as_asked(ix: Index, o: SearchOptions)
    ensures
        o.limit > 0 ==> result_limit(o) == o.limit,
        o.limit == 0 ==> result_limit(o) == 1,
        all_candidates(ix, o).len() <= 8 * result_limit(o) && 8 * result_limit(o) <= usize::MAX
            ==> candidate_list(ix, o) == all_candidates(ix, o),
{
    let n = times(result_limit(o), 8);
    assert(n <= usize::MAX ==> n <= times(n, 32)) by (nonlinear_arith);
}

/// The patterns see every separator as a slash and every other character as it
/// is.
pub proof fn patterns_see_slashes(path: Seq<char>, i: int)
    requires
        0 <= i < path.len(),
    ensures
        slashed(path).len() == path.len(),
        slashed(path)[i] == if path[i] == '\\' {
            '/'
        } else {
            path[i]
        },
{
    text::replace_one_by_one(path, '\\', '/');
}

/// How many braces open in a text.
pub open spec fn opening_braces(s: Seq<char>) -> nat
    decreases s.len(),
{
    if s.len() == 0 {
        0
    } else {
        opening_braces(s.drop_first()) + if s[0] == '{' {
            1nat
        } else {
            0nat
        }
    }
}

proof fn lemma_depth_bound(s: Seq<char>, from: int, depth: nat, escapes: bool)
    requires
        0 <= from,
    ensures
        deepest(s, from, depth, escapes) <= depth + if from <= s.len() {
            opening_braces(s.skip(from))
        } else {
            0
        },
    decreases s.len() + 2 - from,
{
    if from < s.len() {
        let rest = s.skip(from);
        assert(rest.drop_first() =~= s.skip(from + 1));
        assert(rest[0] == s[from]);
        if s[from] == '\\' && escapes {
            lemma_depth_bound(s, from + 2, depth, escapes);
            lemma_braces_behind(s, from, from + 2);
        } else if s[from] == '[' {
            lemma_behind_bracket(s, from + 2);
            lemma_behind_bracket(s, from + 3);
            lemma_depth_bound(s, behind_class(s, from + 1), depth, escapes);
            lemma_braces_behind(s, from, behind_class(s, from + 1));
        } else if s[from] == '{' {
            lemma_depth_bound(s, from + 1, depth + 1, escapes);
        } else if s[from] == '}' {
            if depth > 0 {
                lemma_depth_bound(s, from + 1, (depth - 1) as nat, escapes);
            }
        } else {
            lemma_depth_bound(s, from + 1, depth, escapes);
        }
    }
}

proof fn lemma_braces_behind(s: Seq<char>, a: int, b: int)
    requires
        0 <= a <= b,
        a <= s.len(),
    ensures
        b <= s.len() ==> opening_braces(s.skip(b)) <= opening_braces(s.skip(a)),
    decreases b - a,
{
    if a < b && b <= s.len() {
        lemma_braces_behind(s, a + 1, b);
        assert(s.skip(a).drop_first() =~= s.skip(a + 1));
    }
}

/// A pattern with no more than two hundred and fifty opening braces is asked, as
/// far as it can be compiled at all.
pub proof fn usual_patterns_are_asked(pattern: Seq<char>, backslash_separates: bool)
    requires
        opening_braces(pattern) <= 250,
    ensures
        asked_set(pattern, backslash_separates) == compiled_on(pattern, backslash_separates),
        glob_valid(pattern, backslash_separates) <==> compiled_on(pattern, backslash_separates)
            is Some,
{
    lemma_depth_bound(pattern, 0, 0, true);
    lemma_depth_bound(pattern, 0, 0, false);
    assert(pattern.skip(0) =~= pattern);
}

/// With a pattern, what is left of the rows are those whose path, with slashes,
/// it accepts; without one, or with one that cannot be compiled, all of them.
pub proof fn patterns_choose_among_the_rows(
    o: SearchOptions,
    backslash_separates: bool,
    rows: Seq<Hit>,
    h: Hit,
)
    requires
        o.glob matches Some(pattern) ==> opening_braces(pattern@) <= 250,
    ensures
        left_by(rows, verdicts_for(o, backslash_separates, rows)).contains(h) <==> rows.contains(h)
            && (o.glob matches Some(pattern) ==> (compiled_on(
            pattern@,
            backslash_separates,
        ) matches Some(set) ==> set_accepts(
            set,
            h.path.map_values(
                |c: char|
                    if c == '\\' {
                        '/'
                    } else {
                        c
                    },
            ),
        ))),
{
    text::replace_one_by_one(h.path, '\\', '/');
    if let Some(pattern) = o.glob {
        usual_patterns_are_asked(pattern@, backslash_separates);
    }
    if let Some(v) = verdicts_for(o, backslash_separates, rows) {
        lemma_kept_verdict(rows, v, h);
        if rows.contains(h) {
            let i = choose|i: int| 0 <= i < rows.len() && rows[i] == h;
            assert(v[i] == glob_accepts(o.glob->0@, backslash_separates, slashed(rows[i].path)));
        }
        if kept(rows, v).contains(h) {
            let i = choose|i: int| 0 <= i < rows.len() && #[trigger] rows[i] == h && v[i];
            assert(rows.contains(h));
        }
    }
}

/// The trigram index is asked for queries of eight bytes or more, where it is
/// there and wanted.
pub proof fn long_queries_use_trigrams(ix: Index, o: SearchOptions)
    ensures
        uses_trigrams(ix, o) <==> o.prefer_trigram && ix.lists is Some && bytes::utf8(
            text::lower(o.query@),
        ).len() >= 8,
{
}

} // verus!
