//! The service: what it answers to a request, what it counts, and how it
//! follows the drives of the machine.

use vstd::prelude::*;
use crate::arena;
use crate::content::ContentMatch;
use crate::content::ContentSearchOptions;
use crate::content;
use crate::index::FileIndex;
use crate::numbers;
use crate::search;
use crate::search::GlobPattern;
use crate::search::Hit;
use crate::search::SearchOptions;
use crate::search::SearchResult;
use crate::text;

verus! {

// ---------------------------------------------------------------------------
// Requests and responses
// ---------------------------------------------------------------------------

/// What a client asks for.
#[derive(Debug, Clone)]
pub struct QueryRequest {
    pub query: String,
    pub extension: Option<String>,
    pub under_dir: Option<String>,
    pub glob: Option<String>,
    pub mode: Option<String>,
    pub timeout_ms: Option<u64>,
    pub directories_only: bool,
    pub files_only: bool,
    /// Whether the client would take names that are only close to the query.
    /// Names are matched exactly either way.
    pub fuzzy: bool,
    pub metrics: bool,
    pub limit: Option<usize>,
}

/// One result of a response.
#[derive(Debug, Clone)]
pub struct QueryResultDto {
    pub path: String,
    pub is_directory: bool,
    pub line_number: Option<u64>,
    pub line_text: Option<String>,
}

/// The value of a [`QueryResultDto`].
pub struct ResultRow {
    pub path: Seq<char>,
    pub is_directory: bool,
    pub line_number: Option<u64>,
    pub line_text: Option<Seq<char>>,
}

impl View for QueryResultDto {
    type V = ResultRow;

    open spec fn view(&self) -> ResultRow {
        ResultRow {
            path: self.path@,
            is_directory: self.is_directory,
            line_number: self.line_number,
            line_text: text::text_of(self.line_text),
        }
    }
}

/// The values of a list of results.
pub open spec fn rows_of(v: Seq<QueryResultDto>) -> Seq<ResultRow> {
    Seq::new(v.len(), |i: int| v[i]@)
}

/// What the service counts.
#[derive(Debug, Clone, Copy)]
pub struct ServiceMetrics {
    pub requests_total: u64,
    pub total_took_ms: u128,
    pub last_took_ms: u128,
    pub max_took_ms: u128,
}

/// What the service tells of its counters, with the number of entries that it
/// knows. The average time is the total time over the number of requests.
#[derive(Debug, Clone, Copy)]
pub struct QueryMetricsDto {
    pub requests_total: u64,
    pub total_took_ms: u128,
    pub last_took_ms: u128,
    pub max_took_ms: u128,
    pub indexed_entries: usize,
}

/// What the service answers.
#[derive(Debug, Clone)]
pub struct QueryResponse {
    pub took_ms: u128,
    pub total_entries: usize,
    pub results: Vec<QueryResultDto>,
    /// Whether the service is still starting.
    pub starting: bool,
    pub indexed_entries: Option<usize>,
    pub metrics: Option<QueryMetricsDto>,
}

impl QueryResponse {
    /// The answer with results.
    pub fn from_results(took_ms: u128, total_entries: usize, results: Vec<QueryResultDto>) -> (r:
        QueryResponse)
        ensures
            r.took_ms == took_ms,
            r.total_entries == total_entries,
            r.results == results,
            !r.starting,
            r.indexed_entries is None,
            r.metrics is None,
    {
        QueryResponse {
            took_ms,
            total_entries,
            results,
            starting: false,
            indexed_entries: None,
            metrics: None,
        }
    }

    /// The answer of a service that is still starting.
    pub fn starting(indexed_entries: usize) -> (r: QueryResponse)
        ensures
            r.took_ms == 0,
            r.total_entries == indexed_entries,
            r.results@.len() == 0,
            r.starting,
            r.indexed_entries == Some(indexed_entries),
            r.metrics is None,
    {
        QueryResponse {
            took_ms: 0,
            total_entries: indexed_entries,
            results: Vec::new(),
            starting: true,
            indexed_entries: Some(indexed_entries),
            metrics: None,
        }
    }
}

/// What a request searches.
#[derive(Debug, Clone, Copy, PartialEq, Eq, Structural)]
pub enum RequestMode {
    Name,
    Content,
}

/// The mode of a request: content where it says so, in any case, else names.
pub open spec fn mode_of(value: Option<Seq<char>>) -> RequestMode {
    match value {
        Some(mode) => if text::lower(mode) == text::lower("content"@) {
            RequestMode::Content
        } else {
            RequestMode::Name
        },
        None => RequestMode::Name,
    }
}

impl RequestMode {
    /// The mode of a request.
    pub fn from_request(value: &Option<String>) -> (r: RequestMode)
        ensures
            r == mode_of(text::text_of(*value)),
    {
        match value {
            Some(mode) => {
                if text::same_ignoring_case(mode.as_str(), "content") {
                    RequestMode::Content
                } else {
                    RequestMode::Name
                }
            },
            None => RequestMode::Name,
        }
    }
}

// ---------------------------------------------------------------------------
// Decisions on a request
// ---------------------------------------------------------------------------

/// The number of results that a request asks for: at least one.
pub open spec fn limit_of(request: QueryRequest, default_limit: usize) -> usize {
    let asked = match request.limit {
        Some(limit) => limit,
        None => default_limit,
    };
    if asked == 0 {
        1
    } else {
        asked
    }
}

/// The time that a search of contents may take, in milliseconds: three seconds
/// where the request does not say, at least a fifth of a second.
pub open spec fn timeout_of(request: QueryRequest) -> u64 {
    let asked = match request.timeout_ms {
        Some(ms) => ms,
        None => 3000,
    };
    if asked < 200 {
        200
    } else {
        asked
    }
}

/// How a request is answered.
#[derive(Debug, Clone, Copy, PartialEq, Eq, Structural)]
pub enum Plan {
    /// With what the service counts; the flag says that it is still starting.
    Metrics(bool),
    /// That the service is still starting.
    Starting,
    /// With entries whose name matches.
    Names,
    /// With lines of files.
    Contents,
    /// With nothing.
    Nothing,
}

/// How a request is answered: counters are always at hand; a service without
/// indexes is still starting; a blank query finds nothing in contents.
pub open spec fn plan_of(request: QueryRequest, ready: bool, index_count: nat) -> Plan {
    if request.metrics {
        Plan::Metrics(!ready)
    } else if !ready || index_count == 0 {
        Plan::Starting
    } else {
        match mode_of(text::text_of(request.mode)) {
            RequestMode::Name => Plan::Names,
            RequestMode::Content => if text::trim(request.query@).len() == 0 {
                Plan::Nothing
            } else {
                Plan::Contents
            },
        }
    }
}

impl QueryRequest {
    /// The number of results that the request asks for.
    pub fn effective_limit(&self, default_limit: usize) -> (r: usize)
        ensures
            r == limit_of(*self, default_limit),
            r > 0,
    {
        let asked = match self.limit {
            Some(limit) => limit,
            None => default_limit,
        };
        if asked == 0 {
            1
        } else {
            asked
        }
    }

    /// The time that a search of contents may take, in milliseconds.
    pub fn effective_timeout_ms(&self) -> (r: u64)
        ensures
            r == timeout_of(*self),
    {
        let asked = match self.timeout_ms {
            Some(ms) => ms,
            None => 3000,
        };
        if asked < 200 {
            200
        } else {
            asked
        }
    }

    /// How the request is answered.
    pub fn plan(&self, ready: bool, index_count: usize) -> (r: Plan)
        ensures
            r == plan_of(*self, ready, index_count as nat),
    {
        if self.metrics {
            return Plan::Metrics(!ready);
        }
        if !ready || index_count == 0 {
            return Plan::Starting;
        }
        match RequestMode::from_request(&self.mode) {
            RequestMode::Name => Plan::Names,
            RequestMode::Content => {
                let query = text::trimmed(self.query.as_str());
                proof {
                    text::byte_len_zero(query@);
                }
                if text::len_in_bytes(query.as_str()) == 0 {
                    Plan::Nothing
                } else {
                    Plan::Contents
                }
            },
        }
    }

    /// The options with which the files of a scope are read for the request, as
    /// far as the allowance goes.
    pub fn content_options(&self, scope: String, allowance: Allowance) -> (r: ContentSearchOptions)
        ensures
            r.query@ == text::trim(self.query@),
            text::text_of(r.under_dir) == Some(scope@),
            text::text_of(r.extension) == text::text_of(self.extension),
            r.limit == allowance.limit,
            r.timeout_nanos == allowance.timeout_nanos,
    {
        ContentSearchOptions {
            query: text::trimmed(self.query.as_str()),
            under_dir: Some(scope),
            extension: text::copy_option(&self.extension),
            limit: allowance.limit,
            timeout_nanos: allowance.timeout_nanos,
        }
    }

    /// The options with which an index is searched for the request.
    pub fn name_options(&self, limit: usize, prefer_trigram: bool) -> (r: SearchOptions)
        ensures
            asks(r, *self, limit, prefer_trigram),
    {
        SearchOptions {
            query: text::copy_text(self.query.as_str()),
            extension: text::copy_option(&self.extension),
            under_dir: text::copy_option(&self.under_dir),
            glob: text::copy_option(&self.glob),
            directories_only: self.directories_only,
            files_only: self.files_only,
            limit,
            prefer_trigram,
        }
    }
}

/// The options ask for what the request asks for.
pub open spec fn asks(
    o: SearchOptions,
    request: QueryRequest,
    limit: usize,
    prefer_trigram: bool,
) -> bool {
    &&& o.query@ == request.query@
    &&& text::text_of(o.extension) == text::text_of(request.extension)
    &&& text::text_of(o.under_dir) == text::text_of(request.under_dir)
    &&& text::text_of(o.glob) == text::text_of(request.glob)
    &&& o.directories_only == request.directories_only
    &&& o.files_only == request.files_only
    &&& o.limit == limit
    &&& o.prefer_trigram == prefer_trigram
}

/// What the service tells of its counters.
pub open spec fn snapshot(metrics: ServiceMetrics, indexed_entries: usize) -> QueryMetricsDto {
    QueryMetricsDto {
        requests_total: metrics.requests_total,
        total_took_ms: metrics.total_took_ms,
        last_took_ms: metrics.last_took_ms,
        max_took_ms: metrics.max_took_ms,
        indexed_entries,
    }
}

/// What the service tells of its counters.
pub fn snapshot_metrics(metrics: &ServiceMetrics, indexed_entries: usize) -> (r: QueryMetricsDto)
    ensures
        r == snapshot(*metrics, indexed_entries),
{
    QueryMetricsDto {
        requests_total: metrics.requests_total,
        total_took_ms: metrics.total_took_ms,
        last_took_ms: metrics.last_took_ms,
        max_took_ms: metrics.max_took_ms,
        indexed_entries,
    }
}

/// The answer to a request for counters.
pub fn metrics_response(metrics: ServiceMetrics, indexed_entries: usize, starting: bool) -> (r:
    QueryResponse)
    ensures
        r.took_ms == 0,
        r.total_entries == indexed_entries,
        r.results@.len() == 0,
        r.starting == starting,
        r.indexed_entries == if starting {
            Some(indexed_entries)
        } else {
            None
        },
        r.metrics == Some(snapshot(metrics, indexed_entries)),
{
    let mut response = QueryResponse::from_results(0, indexed_entries, Vec::new());
    response.metrics = Some(snapshot_metrics(&metrics, indexed_entries));
    if starting {
        response.starting = true;
        response.indexed_entries = Some(indexed_entries);
    }
    response
}

// ---------------------------------------------------------------------------
// Counters
// ---------------------------------------------------------------------------

impl Default for ServiceMetrics {
    fn default() -> (r: ServiceMetrics)
        ensures
            r == (ServiceMetrics {
                requests_total: 0,
                total_took_ms: 0,
                last_took_ms: 0,
                max_took_ms: 0,
            }),
    {
        ServiceMetrics { requests_total: 0, total_took_ms: 0, last_took_ms: 0, max_took_ms: 0 }
    }
}

impl ServiceMetrics {
    /// Counts a request and the time it took. Counters stop at their largest
    /// value.
    pub fn record(&mut self, took_ms: u128)
        ensures
            *final(self) == recorded(*old(self), took_ms),
    {
        self.requests_total = self.requests_total.saturating_add(1);
        self.total_took_ms = self.total_took_ms.saturating_add(took_ms);
        self.last_took_ms = took_ms;
        if self.max_took_ms < took_ms {
            self.max_took_ms = took_ms;
        }
    }
}

/// The counters with one more request.
pub open spec fn recorded(m: ServiceMetrics, took_ms: u128) -> ServiceMetrics {
    ServiceMetrics {
        requests_total: if m.requests_total < u64::MAX {
            (m.requests_total + 1) as u64
        } else {
            m.requests_total
        },
        total_took_ms: if m.total_took_ms + took_ms <= u128::MAX {
            (m.total_took_ms + took_ms) as u128
        } else {
            u128::MAX
        },
        last_took_ms: took_ms,
        max_took_ms: if m.max_took_ms < took_ms {
            took_ms
        } else {
            m.max_took_ms
        },
    }
}

/// The longest time never falls, and is at least the last one.
pub proof fn longest_time_is_kept(m: ServiceMetrics, took_ms: u128)
    ensures
        recorded(m, took_ms).max_took_ms >= m.max_took_ms,
        recorded(m, took_ms).max_took_ms >= recorded(m, took_ms).last_took_ms,
{
}

/// Counts a request and gives its answer, with the counters as they are then.
pub fn answer(
    metrics: &mut ServiceMetrics,
    took_ms: u128,
    total_entries: usize,
    results: Vec<QueryResultDto>,
) -> (r: QueryResponse)
    ensures
        *final(metrics) == recorded(*old(metrics), took_ms),
        r.took_ms == took_ms,
        r.total_entries == total_entries,
        r.results == results,
        !r.starting,
        r.indexed_entries is None,
        r.metrics == Some(snapshot(*final(metrics), total_entries)),
{
    metrics.record(took_ms);
    let mut response = QueryResponse::from_results(took_ms, total_entries, results);
    response.metrics = Some(snapshot_metrics(metrics, total_entries));
    response
}

// ---------------------------------------------------------------------------
// Names
// ---------------------------------------------------------------------------

/// The sum of the sizes, up to the largest number of a machine word.
pub open spec fn total_size(sizes: Seq<nat>) -> nat
    decreases sizes.len(),
{
    if sizes.len() == 0 {
        0
    } else {
        let sum = total_size(sizes.drop_last()) + sizes.last();
        if sum > usize::MAX {
            usize::MAX as nat
        } else {
            sum
        }
    }
}

/// The number of entries of each index.
pub open spec fn entry_counts(indexes: Seq<&FileIndex>) -> Seq<nat> {
    Seq::new(indexes.len(), |i: int| indexes[i].entries@.len())
}

/// The number of entries of all indexes.
pub fn count_entries(indexes: &Vec<&FileIndex>) -> (r: usize)
    ensures
        r == total_size(entry_counts(indexes@)),
{
    broadcast use vstd::std_specs::hash::group_hash_axioms;

    let ghost sizes = entry_counts(indexes@);
    let mut total: usize = 0;
    let mut i: usize = 0;
    assert(sizes.take(0) =~= seq![]);
    while i < indexes.len()
        invariant
            i <= indexes@.len() == sizes.len(),
            sizes == entry_counts(indexes@),
            total == total_size(sizes.take(i as int)),
        decreases indexes@.len() - i,
    {
        total = total.saturating_add(indexes[i].entries.len());
        i += 1;
        assert(sizes.take(i as int).drop_last() =~= sizes.take(i - 1));
        assert(sizes.take(i as int).last() == sizes[i - 1]);
    }
    assert(sizes.take(i as int) =~= sizes);
    total
}

/// What the indexes answer, one behind the other.
pub open spec fn chained(parts: Seq<Seq<Hit>>) -> Seq<Hit>
    decreases parts.len(),
{
    if parts.len() == 0 {
        seq![]
    } else {
        chained(parts.drop_last()) + parts.last()
    }
}

/// A result of the search for names as the client sees it.
pub open spec fn shown(hit: Hit) -> ResultRow {
    ResultRow {
        path: hit.path,
        is_directory: hit.is_directory,
        line_number: None,
        line_text: None,
    }
}

/// The results of the search for names as the client sees them.
pub open spec fn all_shown(hits: Seq<Hit>) -> Seq<ResultRow> {
    Seq::new(hits.len(), |i: int| shown(hits[i]))
}

/// `parts` is what each index answers to the request, on a system where a
/// backslash separates the parts of a path or does not.
pub open spec fn parts_answer(
    parts: Seq<Seq<Hit>>,
    indexes: Seq<&FileIndex>,
    request: QueryRequest,
    limit: usize,
    backslash_separates: bool,
) -> bool {
    &&& parts.len() == indexes.len()
    &&& forall|i: int|
        0 <= i < parts.len() ==> part_answers(
            #[trigger] parts[i],
            indexes[i],
            request,
            limit,
            backslash_separates,
        )
}

/// `part` is what the index answers to the request; it uses trigrams where it
/// has them.
pub open spec fn part_answers(
    part: Seq<Hit>,
    index: &FileIndex,
    request: QueryRequest,
    limit: usize,
    backslash_separates: bool,
) -> bool {
    exists|o: SearchOptions| #[trigger]
        asks(o, request, limit, index@.lists is Some) && search::answers_on(
            index@,
            o,
            backslash_separates,
            part,
        )
}

/// `rows` are the most relevant of what the indexes answer to the request.
pub open spec fn answers_request(
    rows: Seq<ResultRow>,
    indexes: Seq<&FileIndex>,
    request: QueryRequest,
    limit: usize,
    backslash_separates: bool,
) -> bool {
    exists|parts: Seq<Seq<Hit>>| #[trigger]
        parts_answer(parts, indexes, request, limit, backslash_separates) && rows == all_shown(
            arena::first_n(
                search::ranked(chained(parts), text::lower(request.query@)),
                limit as nat,
            ),
        )
}

/// Searches every index for the request and gives the most relevant results of
/// all of them. Only for a pattern with a backslash does it make a difference
/// whether a backslash separates the parts of a path on the system.
pub fn search_names(indexes: &Vec<&FileIndex>, request: &QueryRequest, limit: usize) -> (r: Vec<
    QueryResultDto,
>)
    requires
        forall|i: int| 0 <= i < indexes@.len() ==> (#[trigger] indexes@[i]).wf(),
    ensures
        exists|b: bool| answers_request(rows_of(r@), indexes@, *request, limit, b),
        search::plain_pattern(text::text_of(request.glob)) ==> answers_request(
            rows_of(r@),
            indexes@,
            *request,
            limit,
            false,
        ),
{
    let query = text::to_lower(request.query.as_str());
    let pattern = GlobPattern::new(&request.glob);
    let ghost glob = text::text_of(request.glob);
    let ghost separates = pattern.separates();
    let mut merged: Vec<SearchResult> = Vec::new();
    let ghost mut parts: Seq<Seq<Hit>> = seq![];
    let mut i: usize = 0;
    assert(search::hits_of(merged@) =~= chained(parts));
    while i < indexes.len()
        invariant
            i <= indexes@.len(),
            forall|k: int| 0 <= k < indexes@.len() ==> (#[trigger] indexes@[k]).wf(),
            parts.len() == i,
            glob == text::text_of(request.glob),
            separates == pattern.separates(),
            pattern.reads(glob, separates),
            forall|b: bool, k: int|
                #![trigger pattern.reads(glob, b), parts[k]]
                pattern.reads(glob, b) && 0 <= k < i ==> part_answers(
                    parts[k],
                    indexes@[k],
                    *request,
                    limit,
                    b,
                ),
            search::hits_of(merged@) == chained(parts),
        decreases indexes@.len() - i,
    {
        let index = indexes[i];
        let options = request.name_options(limit, index.trigram_enabled());
        let mut found = index.search_with(&options, &pattern);
        let ghost part = search::hits_of(found@);
        let ghost had = search::hits_of(merged@);
        merged.append(&mut found);
        proof {
            let more = parts.push(part);
            assert(search::hits_of(merged@) =~= had + part);
            assert(more.drop_last() =~= parts);
            assert forall|b: bool, k: int|
                #![trigger pattern.reads(glob, b), more[k]]
                pattern.reads(glob, b) && 0 <= k < i + 1 implies part_answers(
                more[k],
                indexes@[k],
                *request,
                limit,
                b,
            ) by {
                if k < i {
                    assert(more[k] == parts[k]);
                } else {
                    assert(asks(options, *request, limit, index@.lists is Some));
                }
            }
            parts = more;
        }
        i += 1;
    }
    assert forall|b: bool| #[trigger] pattern.reads(glob, b) implies parts_answer(
        parts,
        indexes@,
        *request,
        limit,
        b,
    ) by {
        assert forall|k: int| 0 <= k < parts.len() implies part_answers(
            #[trigger] parts[k],
            indexes@[k],
            *request,
            limit,
            b,
        ) by {
            assert(pattern.reads(glob, b));
        }
    }
    let top = search::rank_rows(&merged, query.as_str(), limit);
    let ghost want = search::hits_of(top@);
    let mut rows: Vec<QueryResultDto> = Vec::with_capacity(top.len());
    let mut k: usize = 0;
    while k < top.len()
        invariant
            k <= top@.len(),
            want == search::hits_of(top@),
            rows@.len() == k,
            forall|j: int| 0 <= j < k ==> (#[trigger] rows@[j])@ == shown(want[j]),
        decreases top@.len() - k,
    {
        rows.push(
            QueryResultDto {
                path: text::copy_text(top[k].path.as_str()),
                is_directory: top[k].is_directory,
                line_number: None,
                line_text: None,
            },
        );
        k += 1;
    }
    assert(rows_of(rows@) =~= all_shown(want));
    proof {
        assert(parts_answer(parts, indexes@, *request, limit, separates));
        assert(answers_request(rows_of(rows@), indexes@, *request, limit, separates));
        if search::plain_pattern(glob) {
            assert(pattern.reads(glob, false));
            assert(parts_answer(parts, indexes@, *request, limit, false));
        }
    }
    rows
}

// ---------------------------------------------------------------------------
// Contents
// ---------------------------------------------------------------------------

/// The roots of the drives, each drive once, in the order of first mention.
pub open spec fn drive_roots(drives: Seq<Seq<char>>) -> Seq<Seq<char>>
    decreases drives.len(),
{
    if drives.len() == 0 {
        seq![]
    } else {
        let before = drive_roots(drives.drop_last());
        let root = drives.last().push('\\');
        if before.contains(root) {
            before
        } else {
            before.push(root)
        }
    }
}

/// The directories that a request for contents searches: the one that it
/// names, else the roots of the drives.
pub fn content_scopes(under_dir: &Option<String>, drives: &Vec<String>) -> (r: Vec<String>)
    ensures
        text::texts(r@) == match *under_dir {
            Some(dir) => seq![dir@],
            None => drive_roots(text::texts(drives@)),
        },
{
    let mut scopes: Vec<String> = Vec::new();
    if let Some(dir) = under_dir {
        scopes.push(text::copy_text(dir.as_str()));
        assert(text::texts(scopes@) =~= seq![dir@]);
        return scopes;
    }
    let ghost all = text::texts(drives@);
    let mut i: usize = 0;
    assert(all.take(0) =~= seq![]);
    assert(text::texts(scopes@) =~= seq![]);
    while i < drives.len()
        invariant
            i <= drives@.len() == all.len(),
            all == text::texts(drives@),
            text::texts(scopes@) == drive_roots(all.take(i as int)),
        decreases drives@.len() - i,
    {
        let ghost had = text::texts(scopes@);
        let mut root = text::copy_text(drives[i].as_str());
        root.push('\\');
        let ghost one = root@;
        if !text::listed(&scopes, root.as_str()) {
            scopes.push(root);
            assert(text::texts(scopes@) =~= had.push(one));
        }
        i += 1;
        assert(all.take(i as int).drop_last() =~= all.take(i - 1));
        assert(all.take(i as int).last() == all[i - 1]);
    }
    assert(all.take(i as int) =~= all);
    scopes
}

/// A line of a file as the client sees it.
pub open spec fn line_shown(line: content::Line) -> ResultRow {
    ResultRow {
        path: line.path,
        is_directory: false,
        line_number: Some(line.line_number),
        line_text: Some(line.line_text),
    }
}

/// A search of contents that goes from directory to directory.
#[derive(Debug)]
pub struct ContentRun {
    pub limit: usize,
    pub timeout_nanos: u128,
    pub collected: Vec<QueryResultDto>,
}

/// What the next directory may still give: how many lines, and in what time.
#[derive(Debug, Clone, Copy, PartialEq, Eq, Structural)]
pub struct Allowance {
    pub limit: usize,
    pub timeout_nanos: u128,
}

impl ContentRun {
    /// A search that has not begun.
    pub fn start(limit: usize, timeout_ms: u64) -> (r: ContentRun)
        ensures
            r.limit == limit,
            r.timeout_nanos == timeout_ms as int * 1_000_000,
            r.collected@.len() == 0,
    {
        ContentRun {
            limit,
            timeout_nanos: timeout_ms as u128 * 1_000_000,
            collected: Vec::new(),
        }
    }

    /// What the next directory may give; nothing where there are enough lines
    /// or the time is up.
    pub fn allowance(&self, elapsed_nanos: u128) -> (r: Option<Allowance>)
        ensures
            r == if self.collected@.len() >= self.limit || elapsed_nanos >= self.timeout_nanos {
                None
            } else {
                Some(
                    Allowance {
                        limit: (self.limit - self.collected@.len()) as usize,
                        timeout_nanos: (self.timeout_nanos - elapsed_nanos) as u128,
                    },
                )
            },
    {
        if self.collected.len() >= self.limit || elapsed_nanos >= self.timeout_nanos {
            return None;
        }
        Some(
            Allowance {
                limit: self.limit - self.collected.len(),
                timeout_nanos: self.timeout_nanos - elapsed_nanos,
            },
        )
    }

    /// Takes in the lines of a directory, as many as are still wanted.
    pub fn accept(&mut self, matches: &Vec<ContentMatch>)
        requires
            old(self).collected@.len() <= old(self).limit,
        ensures
            final(self).limit == old(self).limit,
            final(self).timeout_nanos == old(self).timeout_nanos,
            final(self).collected@.len() <= final(self).limit,
            rows_of(final(self).collected@) == arena::first_n(
                rows_of(old(self).collected@) + Seq::new(
                    matches@.len(),
                    |i: int| line_shown(matches@[i]@),
                ),
                old(self).limit as nat,
            ),
    {
        let ghost had = rows_of(self.collected@);
        let ghost lines = Seq::new(matches@.len(), |i: int| line_shown(matches@[i]@));
        let mut i: usize = 0;
        assert(rows_of(self.collected@) =~= had + lines.take(0));
        while i < matches.len() && self.collected.len() < self.limit
            invariant
                i <= matches@.len() == lines.len(),
                lines == Seq::new(matches@.len(), |i: int| line_shown(matches@[i]@)),
                self.limit == old(self).limit,
                self.timeout_nanos == old(self).timeout_nanos,
                self.collected@.len() <= self.limit,
                rows_of(self.collected@) == had + lines.take(i as int),
            decreases matches@.len() - i,
        {
            let ghost before = rows_of(self.collected@);
            let item = &matches[i];
            let row = QueryResultDto {
                path: text::copy_text(item.path.as_str()),
                is_directory: false,
                line_number: Some(item.line_number),
                line_text: Some(text::copy_text(item.line_text.as_str())),
            };
            assert(row@ == line_shown(item@));
            self.collected.push(row);
            assert(rows_of(self.collected@) =~= before.push(lines[i as int]));
            i += 1;
            assert(rows_of(self.collected@) =~= had + lines.take(i as int));
        }
        assert(rows_of(self.collected@).len() == self.collected@.len());
        assert(rows_of(self.collected@) =~= arena::first_n(had + lines, self.limit as nat));
    }
}

// ---------------------------------------------------------------------------
// Indexes and drives
// ---------------------------------------------------------------------------

/// Whether a stored index is one of the drive.
pub fn index_is_for(index: &FileIndex, drive: &str) -> (r: bool)
    ensures
        r == (text::lower(index@.drive) == text::lower(drive@)),
{
    text::same_ignoring_case(index.drive.as_str(), drive)
}

/// Those of a list that are not in another list.
pub open spec fn missing_from(list: Seq<Seq<char>>, other: Seq<Seq<char>>) -> Seq<Seq<char>>
    decreases list.len(),
{
    if list.len() == 0 {
        seq![]
    } else {
        let before = missing_from(list.drop_last(), other);
        if other.contains(list.last()) {
            before
        } else {
            before.push(list.last())
        }
    }
}

/// Those of a list that are not in another list.
fn not_in(list: &Vec<String>, other: &Vec<String>) -> (r: Vec<String>)
    ensures
        text::texts(r@) == missing_from(text::texts(list@), text::texts(other@)),
{
    let ghost all = text::texts(list@);
    let mut r: Vec<String> = Vec::new();
    let mut i: usize = 0;
    assert(all.take(0) =~= seq![]);
    assert(text::texts(r@) =~= seq![]);
    while i < list.len()
        invariant
            i <= list@.len() == all.len(),
            all == text::texts(list@),
            text::texts(r@) == missing_from(all.take(i as int), text::texts(other@)),
        decreases list@.len() - i,
    {
        let ghost had = text::texts(r@);
        let item = list[i].as_str();
        if !text::listed(other, item) {
            r.push(text::copy_text(item));
            assert(text::texts(r@) =~= had.push(item@));
        }
        i += 1;
        assert(all.take(i as int).drop_last() =~= all.take(i - 1));
        assert(all.take(i as int).last() == all[i - 1]);
    }
    assert(all.take(i as int) =~= all);
    r
}

/// What changed between the drives that are known and those that are there.
#[derive(Debug)]
pub struct DriveChanges {
    pub added: Vec<String>,
    pub removed: Vec<String>,
}

/// What changed between the drives that are known and those that are there.
pub fn drive_changes(known: &Vec<String>, detected: &Vec<String>) -> (r: DriveChanges)
    ensures
        text::texts(r.added@) == missing_from(text::texts(detected@), text::texts(known@)),
        text::texts(r.removed@) == missing_from(text::texts(known@), text::texts(detected@)),
{
    DriveChanges { added: not_in(detected, known), removed: not_in(known, detected) }
}

proof fn lemma_missing(list: Seq<Seq<char>>, other: Seq<Seq<char>>, x: Seq<char>)
    ensures
        missing_from(list, other).contains(x) <==> list.contains(x) && !other.contains(x),
    decreases list.len(),
{
    let m = missing_from(list, other);
    if list.len() > 0 {
        let rest = list.drop_last();
        let before = missing_from(rest, other);
        lemma_missing(rest, other, x);
        if m.contains(x) {
            let k = choose|k: int| 0 <= k < m.len() && m[k] == x;
            if k < before.len() {
                assert(before[k] == x);
                let j = choose|j: int| 0 <= j < rest.len() && rest[j] == x;
                assert(list[j] == x);
            } else {
                assert(list[list.len() - 1] == x);
            }
        }
        if list.contains(x) && !other.contains(x) {
            let j = choose|j: int| 0 <= j < list.len() && list[j] == x;
            if j < rest.len() {
                assert(rest[j] == x);
                let k = choose|k: int| 0 <= k < before.len() && before[k] == x;
                assert(m[k] == x);
            } else {
                assert(m[before.len() as int] == x);
            }
        }
    }
}

/// Adding what was added, and taking away what was removed, makes the known
/// drives those that are there.
pub proof fn drive_changes_are_enough(
    known: Seq<Seq<char>>,
    detected: Seq<Seq<char>>,
    drive: Seq<char>,
)
    ensures
        detected.contains(drive) <==> (known.contains(drive) || missing_from(
            detected,
            known,
        ).contains(drive)) && !missing_from(known, detected).contains(drive),
{
    lemma_missing(detected, known, drive);
    lemma_missing(known, detected, drive);
}

/// Those of a list that are in another list.
pub open spec fn present_in(list: Seq<Seq<char>>, other: Seq<Seq<char>>) -> Seq<Seq<char>>
    decreases list.len(),
{
    if list.len() == 0 {
        seq![]
    } else {
        let before = present_in(list.drop_last(), other);
        if other.contains(list.last()) {
            before.push(list.last())
        } else {
            before
        }
    }
}

/// Appends those of a list that are in another list.
fn push_present(r: &mut Vec<String>, list: &Vec<String>, other: &Vec<String>)
    ensures
        text::texts(final(r)@) == text::texts(old(r)@) + present_in(
            text::texts(list@),
            text::texts(other@),
        ),
{
    let ghost all = text::texts(list@);
    let ghost first = text::texts(r@);
    let mut i: usize = 0;
    assert(all.take(0) =~= seq![]);
    assert(first + present_in(all.take(0), text::texts(other@)) =~= first);
    while i < list.len()
        invariant
            i <= list@.len() == all.len(),
            all == text::texts(list@),
            text::texts(r@) == first + present_in(all.take(i as int), text::texts(other@)),
        decreases list@.len() - i,
    {
        let ghost had = text::texts(r@);
        let ghost before = present_in(all.take(i as int), text::texts(other@));
        let item = list[i].as_str();
        assert(all.take(i + 1).drop_last() =~= all.take(i as int));
        assert(all.take(i + 1).last() == all[i as int]);
        if text::listed(other, item) {
            r.push(text::copy_text(item));
            assert(text::texts(r@) =~= had.push(item@));
            assert(had.push(item@) =~= first + before.push(item@));
        }
        i += 1;
    }
    assert(all.take(i as int) =~= all);
}

/// The drives that are known after a look at which there are, and whether the
/// service has to be told.
#[derive(Debug)]
pub struct DriveStep {
    pub known: Vec<String>,
    pub publish: bool,
}

/// The drives that are known after a look at which there are: the known ones
/// that are still there, and behind them the new ones whose index is ready.
pub open spec fn known_after(
    known: Seq<Seq<char>>,
    detected: Seq<Seq<char>>,
    ready: Seq<Seq<char>>,
) -> Seq<Seq<char>> {
    present_in(known, detected) + present_in(missing_from(detected, known), ready)
}

/// What a look at which drives there are leads to, once the indexes of the new
/// ones were loaded or built: those that were are `ready`. The service is told
/// exactly where a drive came or went.
pub fn drive_step(known: &Vec<String>, detected: &Vec<String>, ready: &Vec<String>) -> (r:
    DriveStep)
    ensures
        text::texts(r.known@) == known_after(
            text::texts(known@),
            text::texts(detected@),
            text::texts(ready@),
        ),
        r.publish == (missing_from(text::texts(known@), text::texts(detected@)).len() > 0
            || present_in(
            missing_from(text::texts(detected@), text::texts(known@)),
            text::texts(ready@),
        ).len() > 0),
{
    let changes = drive_changes(known, detected);
    let mut list: Vec<String> = Vec::new();
    assert(text::texts(list@) =~= seq![]);
    push_present(&mut list, known, detected);
    let kept = list.len();
    let ghost had = text::texts(list@);
    assert(had =~= present_in(text::texts(known@), text::texts(detected@)));
    push_present(&mut list, &changes.added, ready);
    assert(text::texts(list@).len() == list@.len());
    assert(had.len() == kept);
    assert(text::texts(changes.removed@).len() == changes.removed@.len());
    DriveStep { publish: changes.removed.len() > 0 || list.len() > kept, known: list }
}

proof fn lemma_present(list: Seq<Seq<char>>, other: Seq<Seq<char>>, x: Seq<char>)
    ensures
        present_in(list, other).contains(x) <==> list.contains(x) && other.contains(x),
        missing_from(list, other).len() == 0 ==> present_in(list, other) == list,
    decreases list.len(),
{
    let p = present_in(list, other);
    if list.len() > 0 {
        let rest = list.drop_last();
        let before = present_in(rest, other);
        lemma_present(rest, other, x);
        assert(list =~= rest.push(list.last()));
        if p.contains(x) {
            let k = choose|k: int| 0 <= k < p.len() && p[k] == x;
            if k < before.len() {
                assert(before[k] == x);
                let j = choose|j: int| 0 <= j < rest.len() && rest[j] == x;
                assert(list[j] == x);
            } else {
                assert(list[list.len() - 1] == x);
            }
        }
        if list.contains(x) && other.contains(x) {
            let j = choose|j: int| 0 <= j < list.len() && list[j] == x;
            if j < rest.len() {
                assert(rest[j] == x);
                let k = choose|k: int| 0 <= k < before.len() && before[k] == x;
                assert(p[k] == x);
            } else {
                assert(p[before.len() as int] == x);
            }
        }
    }
}

/// After a look at which drives there are, a drive is known exactly where it is
/// there and was known or has become ready; where the service is not told,
/// the known drives are those from before.
pub proof fn known_drives_are_there(
    known: Seq<Seq<char>>,
    detected: Seq<Seq<char>>,
    ready: Seq<Seq<char>>,
    drive: Seq<char>,
)
    ensures
        known_after(known, detected, ready).contains(drive) <==> detected.contains(drive) && (
        known.contains(drive) || ready.contains(drive)),
        missing_from(known, detected).len() == 0 && present_in(
            missing_from(detected, known),
            ready,
        ).len() == 0 ==> known_after(known, detected, ready) == known,
{
    let added = missing_from(detected, known);
    let a = present_in(known, detected);
    let b = present_in(added, ready);
    let all = known_after(known, detected, ready);
    lemma_present(known, detected, drive);
    lemma_present(added, ready, drive);
    lemma_missing(detected, known, drive);
    assert(all.contains(drive) <==> a.contains(drive) || b.contains(drive)) by {
        if all.contains(drive) {
            let k = choose|k: int| 0 <= k < all.len() && all[k] == drive;
            if k < a.len() {
                assert(a[k] == drive);
            } else {
                assert(b[k - a.len()] == drive);
            }
        }
        if a.contains(drive) {
            let k = choose|k: int| 0 <= k < a.len() && a[k] == drive;
            assert(all[k] == drive);
        }
        if b.contains(drive) {
            let k = choose|k: int| 0 <= k < b.len() && b[k] == drive;
            assert(all[a.len() + k] == drive);
        }
    }
    if missing_from(known, detected).len() == 0 && b.len() == 0 {
        assert(all =~= known);
    }
}

/// Makes a loaded or built index the index of a drive, with or without
/// trigrams.
pub fn adopt_index(index: &mut FileIndex, drive: &str, trigram: bool)
    requires
        old(index).wf(),
    ensures
        final(index).wf(),
        final(index)@.drive == drive@,
        final(index)@.entries == old(index)@.entries,
        final(index)@.slots == old(index)@.slots,
        final(index)@.journal_id == old(index)@.journal_id,
        final(index)@.next_usn == old(index)@.next_usn,
        final(index)@.indexed_at_epoch_secs == old(index)@.indexed_at_epoch_secs,
        trigram ==> (final(index)@.lists matches Some(l) && crate::trigram::indexes(
            l,
            final(index)@.entries.values(),
        )),
        !trigram ==> final(index)@.lists == old(index)@.lists,
{
    if trigram {
        index.set_trigram_enabled(true);
    }
    index.drive = text::copy_text(drive);
}

/// How many changes have been applied since an index was last written.
#[derive(Debug)]
pub struct WatchState {
    pub since_persist: usize,
    pub persist_every: usize,
}

impl WatchState {
    /// A watch that has seen no change, and has the index written after at
    /// least one.
    pub fn start(persist_every: usize) -> (r: WatchState)
        ensures
            r.since_persist == 0,
            r.persist_every == if persist_every == 0 {
                1
            } else {
                persist_every
            },
    {
        WatchState {
            since_persist: 0,
            persist_every: if persist_every == 0 {
                1
            } else {
                persist_every
            },
        }
    }

    /// Counts changes, and says whether the index is to be written now.
    pub fn on_changes(&mut self, changed: usize) -> (r: bool)
        ensures
            final(self).persist_every == old(self).persist_every,
            (final(self).since_persist as nat, r) == watched(
                old(self).since_persist as nat,
                old(self).persist_every as nat,
                changed as nat,
            ),
    {
        if changed == 0 {
            return false;
        }
        if changed >= self.persist_every || self.since_persist >= self.persist_every - changed {
            self.since_persist = 0;
            true
        } else {
            self.since_persist = self.since_persist + changed;
            false
        }
    }
}

/// The changes that are not yet written after some more have come, and whether
/// they are written now: where there are enough of them.
pub open spec fn watched(since: nat, every: nat, changed: nat) -> (nat, bool) {
    if changed > 0 && since + changed >= every {
        (0, true)
    } else {
        (since + changed, false)
    }
}

/// What is not yet written stays below the bound, and no change is lost: it is
/// written now or counted.
pub proof fn unwritten_changes_stay_few(since: nat, every: nat, changed: nat)
    requires
        since < every,
    ensures
        watched(since, every, changed).0 < every,
        watched(since, every, changed).1 || watched(since, every, changed).0 == since + changed,
{
}

// ---------------------------------------------------------------------------
// The log
// ---------------------------------------------------------------------------

/// A number with zeros in front, so that it has at least `width` digits.
pub open spec fn padded(n: nat, width: nat) -> Seq<char> {
    let d = numbers::decimal(n);
    if d.len() >= width {
        d
    } else {
        Seq::new((width - d.len()) as nat, |i: int| '0') + d
    }
}

fn push_padded(s: &mut String, n: u16, width: usize)
    ensures
        final(s)@ == old(s)@ + padded(n as nat, width as nat),
{
    let ghost before = s@;
    let digits = numbers::number_text(n as u128);
    let len = text::chars_of(digits.as_str()).len();
    let mut k: usize = len;
    while k < width
        invariant
            k >= len,
            k <= width || k == len,
            s@ == before + Seq::new((k - len) as nat, |i: int| '0'),
        decreases width - k,
    {
        s.push('0');
        k += 1;
        assert(s@ =~= before + Seq::new((k - len) as nat, |i: int| '0'));
    }
    text::push_text(s, digits.as_str());
    assert(s@ =~= before + padded(n as nat, width as nat));
}

/// A point in time, as the system gives it.
#[derive(Debug, Clone, Copy)]
pub struct LocalTime {
    pub year: u16,
    pub month: u16,
    pub day: u16,
    pub hour: u16,
    pub minute: u16,
    pub second: u16,
}

/// A point in time as it stands in front of a line of the log.
pub open spec fn stamp(t: LocalTime) -> Seq<char> {
    "["@ + padded(t.year as nat, 4) + "-"@ + padded(t.month as nat, 2) + "-"@ + padded(
        t.day as nat,
        2,
    ) + " "@ + padded(t.hour as nat, 2) + ":"@ + padded(t.minute as nat, 2) + ":"@ + padded(
        t.second as nat,
        2,
    ) + "]"@
}

/// A line of the log: the time, and the message.
pub fn log_line(time: &LocalTime, message: &str) -> (r: String)
    ensures
        r@ == stamp(*time) + " "@ + message@,
{
    let mut s = text::copy_text("[");
    push_padded(&mut s, time.year, 4);
    text::push_text(&mut s, "-");
    push_padded(&mut s, time.month, 2);
    text::push_text(&mut s, "-");
    push_padded(&mut s, time.day, 2);
    text::push_text(&mut s, " ");
    push_padded(&mut s, time.hour, 2);
    text::push_text(&mut s, ":");
    push_padded(&mut s, time.minute, 2);
    text::push_text(&mut s, ":");
    push_padded(&mut s, time.second, 2);
    text::push_text(&mut s, "]");
    text::push_text(&mut s, " ");
    text::push_text(&mut s, message);
    s
}

// ---------------------------------------------------------------------------
// Laws of requests and answers
// ---------------------------------------------------------------------------

/// Contents are searched where the mode says so, in any case of its letters, and
/// names in every other mode and without one.
pub proof fn modes_are_named(mode: Seq<char>)
    ensures
        mode_of(Some(mode)) == RequestMode::Content <==> text::lower(mode) == seq![
            'c',
            'o',
            'n',
            't',
            'e',
            'n',
            't',
        ],
        mode_of(None) == RequestMode::Name,
{
    reveal_strlit("content");
    let word = "content"@;
    assert(word =~= seq!['c', 'o', 'n', 't', 'e', 'n', 't']);
    assert(text::lower(word) =~= word);
}

/// The number of results is the one asked for, or the usual one, and at least
/// one; the time is the one asked for, or three seconds, and at least a fifth of
/// one.
pub proof fn requests_are_bounded(request: QueryRequest, default_limit: usize)
    ensures
        request.limit matches Some(n) ==> n > 0 ==> limit_of(request, default_limit) == n,
        request.limit is None && default_limit > 0 ==> limit_of(request, default_limit)
            == default_limit,
        limit_of(request, default_limit) >= 1,
        request.limit == Some(0usize) ==> limit_of(request, default_limit) == 1,
        request.timeout_ms matches Some(ms) ==> ms >= 200 ==> timeout_of(request) == ms,
        request.timeout_ms matches Some(ms) ==> ms < 200 ==> timeout_of(request) == 200,
        request.timeout_ms is None ==> timeout_of(request) == 3000,
{
}

/// A request for counters is answered with them at any time; any other is put
/// off while the service starts; then names and contents are searched as asked,
/// contents only for a query that is not blank.
pub proof fn requests_are_answered_as_asked(request: QueryRequest, ready: bool, index_count: nat)
    ensures
        request.metrics ==> plan_of(request, ready, index_count) == Plan::Metrics(!ready),
        !request.metrics && (!ready || index_count == 0) ==> plan_of(request, ready, index_count)
            == Plan::Starting,
        !request.metrics && ready && index_count > 0 && request.mode is None ==> plan_of(
            request,
            ready,
            index_count,
        ) == Plan::Names,
        !request.metrics && ready && index_count > 0 && request.mode is Some && mode_of(
            Some(request.mode->0@),
        ) == RequestMode::Name ==> plan_of(request, ready, index_count) == Plan::Names,
        !request.metrics && ready && index_count > 0 && request.mode is Some && mode_of(
            Some(request.mode->0@),
        ) == RequestMode::Content ==> plan_of(request, ready, index_count) == if (forall|i: int|
            0 <= i < request.query@.len() ==> text::is_space(#[trigger] request.query@[i])) {
            Plan::Nothing
        } else {
            Plan::Contents
        },
{
    lemma_blank(request.query@);
}

proof fn lemma_blank(s: Seq<char>)
    ensures
        text::trim(s).len() == 0 <==> forall|i: int|
            0 <= i < s.len() ==> text::is_space(#[trigger] s[i]),
{
    let none = Seq::<char>::empty();
    if forall|i: int| 0 <= i < s.len() ==> text::is_space(#[trigger] s[i]) {
        text::trimming_takes_the_spaces(s, none, none);
        assert(s + none + none =~= s);
    }
    if text::trim(s).len() == 0 {
        let a = text::strip_start(s, text::CharSet::Space);
        lemma_all_spaces(a);
        text::strip_start_shape(s, text::CharSet::Space);
        if a.len() > 0 {
            assert(text::is_space(a[0]));
        }
        lemma_start_spaces(s);
    }
}

proof fn lemma_all_spaces(s: Seq<char>)
    requires
        text::strip_end(s, text::CharSet::Space).len() == 0,
    ensures
        forall|i: int| 0 <= i < s.len() ==> text::is_space(#[trigger] s[i]),
    decreases s.len(),
{
    if s.len() > 0 {
        let rest = s.drop_last();
        lemma_all_spaces(rest);
        assert forall|i: int| 0 <= i < s.len() implies text::is_space(#[trigger] s[i]) by {
            if i < rest.len() {
                assert(rest[i] == s[i]);
            }
        }
    }
}

proof fn lemma_start_spaces(s: Seq<char>)
    requires
        text::strip_start(s, text::CharSet::Space).len() == 0,
    ensures
        forall|i: int| 0 <= i < s.len() ==> text::is_space(#[trigger] s[i]),
    decreases s.len(),
{
    if s.len() > 0 {
        let rest = s.drop_first();
        lemma_start_spaces(rest);
        assert forall|i: int| 0 <= i < s.len() implies text::is_space(#[trigger] s[i]) by {
            if i > 0 {
                assert(rest[i - 1] == s[i]);
            }
        }
    }
}

/// Every request that is answered counts once, and its time is added up; the
/// last and the longest time are kept.
pub proof fn requests_are_counted(m: ServiceMetrics, took_ms: u128)
    requires
        m.requests_total < u64::MAX,
        m.total_took_ms + took_ms <= u128::MAX,
    ensures
        recorded(m, took_ms).requests_total == m.requests_total + 1,
        recorded(m, took_ms).total_took_ms == m.total_took_ms + took_ms,
        recorded(m, took_ms).last_took_ms == took_ms,
        recorded(m, took_ms).max_took_ms == m.max_took_ms || recorded(m, took_ms).max_took_ms
            == took_ms,
        recorded(m, took_ms).max_took_ms >= m.max_took_ms,
        recorded(m, took_ms).max_took_ms >= took_ms,
{
}

/// The counters are shown as they are.
pub proof fn counters_are_shown(m: ServiceMetrics, indexed_entries: usize)
    ensures
        snapshot(m, indexed_entries).requests_total == m.requests_total,
        snapshot(m, indexed_entries).total_took_ms == m.total_took_ms,
        snapshot(m, indexed_entries).last_took_ms == m.last_took_ms,
        snapshot(m, indexed_entries).max_took_ms == m.max_took_ms,
        snapshot(m, indexed_entries).indexed_entries == indexed_entries,
{
}

/// The entries of all indexes are counted, each index with as many as it has.
pub proof fn entries_of_all_indexes_are_counted(sizes: Seq<nat>, more: nat)
    ensures
        total_size(sizes) + more <= usize::MAX ==> total_size(sizes.push(more)) == total_size(sizes)
            + more,
        total_size(sizes) + more > usize::MAX ==> total_size(sizes.push(more)) == usize::MAX,
        total_size(seq![]) == 0,
{
    assert(sizes.push(more).drop_last() =~= sizes);
}

/// What is merged is what the indexes found, all of it.
pub proof fn merging_loses_nothing(parts: Seq<Seq<Hit>>, h: Hit)
    ensures
        chained(parts).contains(h) <==> exists|i: int|
            0 <= i < parts.len() && (#[trigger] parts[i]).contains(h),
    decreases parts.len(),
{
    if parts.len() > 0 {
        let rest = parts.drop_last();
        let before = chained(rest);
        let all = chained(parts);
        merging_loses_nothing(rest, h);
        if all.contains(h) {
            let k = choose|k: int| 0 <= k < all.len() && all[k] == h;
            if k < before.len() {
                assert(before[k] == h);
                assert(before.contains(h));
                let i = choose|i: int| 0 <= i < rest.len() && (#[trigger] rest[i]).contains(h);
                assert(parts[i].contains(h));
            } else {
                assert(parts.last()[k - before.len()] == h);
                assert(parts[parts.len() - 1].contains(h));
            }
        }
        if exists|i: int| 0 <= i < parts.len() && (#[trigger] parts[i]).contains(h) {
            let i = choose|i: int| 0 <= i < parts.len() && (#[trigger] parts[i]).contains(h);
            if i < rest.len() {
                assert(rest[i].contains(h));
                let k = choose|k: int| 0 <= k < before.len() && before[k] == h;
                assert(all[k] == h);
            } else {
                let k = choose|k: int| 0 <= k < parts[i].len() && parts[i][k] == h;
                assert(all[before.len() + k] == h);
            }
        }
    }
}

/// What is shown of an entry is its path and its kind, with no line.
pub proof fn names_are_shown_without_lines(hits: Seq<Hit>, i: int)
    requires
        0 <= i < hits.len(),
    ensures
        all_shown(hits).len() == hits.len(),
        all_shown(hits)[i].path == hits[i].path,
        all_shown(hits)[i].is_directory == hits[i].is_directory,
        all_shown(hits)[i].line_number is None,
        all_shown(hits)[i].line_text is None,
{
}

/// What is shown of a line is the file it stands in, its number and its text.
pub proof fn lines_are_shown_whole(line: content::Line)
    ensures
        line_shown(line).path == line.path,
        line_shown(line).line_number == Some(line.line_number),
        line_shown(line).line_text == Some(line.line_text),
        !line_shown(line).is_directory,
{
}

/// The answer to a request is the best of what the indexes found: as many rows
/// as are asked for, or all; each is one of theirs; and a better one stands
/// before a worse one.
pub proof fn answers_are_the_best_of_all(parts: Seq<Seq<Hit>>, query: Seq<char>, limit: nat)
    ensures
        ({
            let all = chained(parts);
            let r = arena::first_n(search::ranked(all, query), limit);
            &&& r.len() == if all.len() < limit {
                all.len()
            } else {
                limit
            }
            &&& forall|h: Hit| #[trigger] r.contains(h) ==> all.contains(h)
            &&& all.len() <= limit ==> forall|h: Hit| #[trigger] all.contains(h) ==> r.contains(h)
            &&& forall|i: int, j: int|
                0 <= i < j < r.len() ==> !crate::order::key_less(
                    crate::relevance::relevance(#[trigger] r[j].path, query),
                    crate::relevance::relevance(#[trigger] r[i].path, query),
                )
        }),
{
    let all = chained(parts);
    let sorted = search::ranked(all, query);
    let r = arena::first_n(sorted, limit);
    search::lemma_ranked(all, query);
    assert forall|h: Hit| #[trigger] r.contains(h) implies all.contains(h) by {
        search::lemma_first_n(sorted, limit, h);
        assert(sorted.contains(h));
    }
    assert forall|i: int, j: int| 0 <= i < j < r.len() implies !crate::order::key_less(
        crate::relevance::relevance(#[trigger] r[j].path, query),
        crate::relevance::relevance(#[trigger] r[i].path, query),
    ) by {
        assert(r[i] == sorted[i] && r[j] == sorted[j]);
    }
}

/// Where no directory is asked for, the roots of the drives are read: each once,
/// with a separator behind the drive.
pub proof fn every_drive_has_one_root(drives: Seq<Seq<char>>, root: Seq<char>)
    ensures
        drive_roots(drives).no_duplicates(),
        drive_roots(drives).contains(root) <==> exists|i: int|
            0 <= i < drives.len() && root == #[trigger] drives[i] + seq!['\\'],
    decreases drives.len(),
{
    if drives.len() > 0 {
        let rest = drives.drop_last();
        let before = drive_roots(rest);
        let all = drive_roots(drives);
        let last = drives.last().push('\\');
        every_drive_has_one_root(rest, root);
        assert(last =~= drives.last() + seq!['\\']);
        if !before.contains(last) {
            assert(all =~= before.push(last));
            assert(all.no_duplicates()) by {
                assert forall|a: int, b: int| 0 <= a < all.len() && 0 <= b < all.len() && a
                    != b implies all[a] != all[b] by {
                    if a < before.len() {
                        assert(before.contains(before[a]));
                    }
                    if b < before.len() {
                        assert(before.contains(before[b]));
                    }
                }
            }
        }
        if all.contains(root) {
            let k = choose|k: int| 0 <= k < all.len() && all[k] == root;
            if k < before.len() {
                assert(before[k] == root);
                assert(before.contains(root));
                let i = choose|i: int|
                    0 <= i < rest.len() && root == #[trigger] rest[i] + seq!['\\'];
                assert(drives[i] == rest[i]);
            } else {
                assert(drives[drives.len() - 1] == drives.last());
            }
        }
        if exists|i: int| 0 <= i < drives.len() && root == #[trigger] drives[i] + seq!['\\'] {
            let i = choose|i: int| 0 <= i < drives.len() && root == #[trigger] drives[i] + seq![
                '\\',
            ];
            if i < rest.len() {
                assert(rest[i] == drives[i]);
                let k = choose|k: int| 0 <= k < before.len() && before[k] == root;
                assert(all[k] == root);
            } else if before.contains(last) {
                let k = choose|k: int| 0 <= k < before.len() && before[k] == last;
                assert(all[k] == root);
            } else {
                assert(all[before.len() as int] == root);
            }
        }
    }
}

/// The index is written exactly when changes came and enough of them have come
/// since it was written last.
pub proof fn changes_are_written_in_time(since: nat, every: nat, changed: nat)
    ensures
        watched(since, every, changed).1 <==> changed > 0 && since + changed >= every,
        watched(since, every, changed).1 ==> watched(since, every, changed).0 == 0,
        !watched(since, every, changed).1 ==> watched(since, every, changed).0 == since + changed,
{
}

/// A number with zeros before it has the width, unless it is longer, and the
/// value.
pub proof fn padded_numbers_keep_their_value(n: u64, width: nat)
    ensures
        padded(n as nat, width).len() >= width,
        padded(n as nat, width).len() > width ==> padded(n as nat, width) == numbers::decimal(
            n as nat,
        ),
        numbers::parse(padded(n as nat, width)) == Some(n as nat),
{
    let d = numbers::decimal(n as nat);
    numbers::decimal_round_trip(n);
    if d.len() < width {
        numbers::zeros_change_nothing(
            Seq::new((width - d.len()) as nat, |i: int| '0'),
            d,
            n,
        );
    }
}

/// Each index is searched for what the request asks, with every one of its
/// filters.
pub proof fn requests_are_passed_on(
    o: SearchOptions,
    request: QueryRequest,
    limit: usize,
    prefer_trigram: bool,
)
    requires
        asks(o, request, limit, prefer_trigram),
    ensures
        o.query@ == request.query@,
        o.limit == limit,
        o.directories_only == request.directories_only,
        o.files_only == request.files_only,
        o.extension is Some == request.extension is Some,
        o.extension matches Some(x) ==> x@ == request.extension->0@,
        o.under_dir is Some == request.under_dir is Some,
        o.under_dir matches Some(x) ==> x@ == request.under_dir->0@,
        o.glob is Some == request.glob is Some,
        o.glob matches Some(x) ==> x@ == request.glob->0@,
        o.prefer_trigram == prefer_trigram,
{
}

/// A time is written with its year, month and day, and its hour, minute and
/// second, in brackets.
pub proof fn times_are_written_out(t: LocalTime)
    ensures
        stamp(t) == seq!['['] + padded(t.year as nat, 4) + seq!['-'] + padded(t.month as nat, 2)
            + seq!['-'] + padded(t.day as nat, 2) + seq![' '] + padded(t.hour as nat, 2) + seq![':']
            + padded(t.minute as nat, 2) + seq![':'] + padded(t.second as nat, 2) + seq![']'],
{
    reveal_strlit("[");
    reveal_strlit("-");
    reveal_strlit(" ");
    reveal_strlit(":");
    reveal_strlit("]");
    assert("["@ =~= seq!['[']);
    assert("-"@ =~= seq!['-']);
    assert(" "@ =~= seq![' ']);
    assert(":"@ =~= seq![':']);
    assert("]"@ =~= seq![']']);
}

/// The rows show the best of what was found: as many as are asked for, or all;
/// each with the path and the kind of something found; and nothing is left out
/// that is better than what is shown.
pub open spec fn shows_the_best(
    rows: Seq<ResultRow>,
    found: Seq<Hit>,
    query: Seq<char>,
    limit: nat,
) -> bool {
    &&& rows.len() == if found.len() < limit {
        found.len()
    } else {
        limit
    }
    &&& forall|i: int| 0 <= i < rows.len() ==> #[trigger] shows_one_of(rows[i], found)
    &&& forall|h: Hit, i: int|
        #![trigger found.contains(h), rows[i]]
        found.contains(h) && 0 <= i < rows.len() ==> is_shown(rows, h) || !crate::order::key_less(
            crate::relevance::relevance(h.path, query),
            crate::relevance::relevance(rows[i].path, query),
        )
}

/// The row has the path and the kind of something that was found.
pub open spec fn shows_one_of(row: ResultRow, found: Seq<Hit>) -> bool {
    exists|h: Hit| #[trigger]
        found.contains(h) && row.path == h.path && row.is_directory == h.is_directory
            && row.line_number is None && row.line_text is None
}

/// One of the rows has the path of what was found.
pub open spec fn is_shown(rows: Seq<ResultRow>, h: Hit) -> bool {
    exists|j: int| 0 <= j < rows.len() && (#[trigger] rows[j]).path == h.path
}

/// What answers a request is the best of what its indexes answer, the better
/// before the worse.
pub proof fn requests_get_the_best_of_all(
    rows: Seq<ResultRow>,
    indexes: Seq<&FileIndex>,
    request: QueryRequest,
    limit: usize,
    backslash_separates: bool,
)
    requires
        answers_request(rows, indexes, request, limit, backslash_separates),
    ensures
        exists|parts: Seq<Seq<Hit>>| #[trigger]
            parts_answer(parts, indexes, request, limit, backslash_separates) && shows_the_best(
                rows,
                chained(parts),
                text::lower(request.query@),
                limit as nat,
            ),
        forall|i: int, j: int|
            0 <= i < j < rows.len() ==> !crate::order::key_less(
                crate::relevance::relevance(
                    #[trigger] rows[j].path,
                    text::lower(request.query@),
                ),
                crate::relevance::relevance(
                    #[trigger] rows[i].path,
                    text::lower(request.query@),
                ),
            ),
{
    let query = text::lower(request.query@);
    let parts = choose|parts: Seq<Seq<Hit>>| #[trigger]
        parts_answer(parts, indexes, request, limit, backslash_separates) && rows == all_shown(
            arena::first_n(search::ranked(chained(parts), query), limit as nat),
        );
    let all = chained(parts);
    let sorted = search::ranked(all, query);
    let best = arena::first_n(sorted, limit as nat);
    search::lemma_ranked(all, query);
    answers_are_the_best_of_all(parts, query, limit as nat);
    assert forall|i: int| 0 <= i < rows.len() implies #[trigger] shows_one_of(rows[i], all) by {
        assert(best.contains(best[i]));
        assert(all.contains(best[i]));
    }
    assert forall|h: Hit, i: int|
        #![trigger all.contains(h), rows[i]]
        all.contains(h) && 0 <= i < rows.len() implies is_shown(rows, h) || !crate::order::key_less(
        crate::relevance::relevance(h.path, query),
        crate::relevance::relevance(rows[i].path, query),
    ) by {
        assert(sorted.contains(h));
        let k = choose|k: int| 0 <= k < sorted.len() && sorted[k] == h;
        if k < rows.len() {
            assert(rows[k].path == h.path);
        } else {
            assert(rows[i].path == sorted[i].path);
            assert(!crate::order::key_less(
                crate::relevance::relevance(sorted[k].path, query),
                crate::relevance::relevance(sorted[i].path, query),
            ));
        }
    }
    assert(shows_the_best(rows, all, query, limit as nat));
    assert forall|i: int, j: int| 0 <= i < j < rows.len() implies !crate::order::key_less(
        crate::relevance::relevance(#[trigger] rows[j].path, query),
        crate::relevance::relevance(#[trigger] rows[i].path, query),
    ) by {
        assert(rows[j].path == best[j].path && rows[i].path == best[i].path);
    }
}

} // verus!
