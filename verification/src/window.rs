//! The window: what it asks the service for, and the rows that it shows.

use vstd::prelude::*;
use crate::arena;
use crate::bytes;
use crate::content::ContentMatch;
use crate::content;
use crate::numbers;
use crate::path;
use crate::search;
use crate::search::SearchOptions;
use crate::search::SearchResult;
use crate::service;
use crate::service::QueryRequest;
use crate::settings;
use crate::settings::GuiSettings;
use crate::text;
use crate::text::CharSet;

verus! {

/// A result, from wherever it comes.
#[derive(Debug, Clone)]
pub struct GuiResult {
    pub path: String,
    pub is_directory: bool,
    pub is_app: bool,
    pub line_number: Option<u64>,
    pub line_text: Option<String>,
}

/// The value of a [`GuiResult`].
pub struct Row {
    pub path: Seq<char>,
    pub is_directory: bool,
    pub is_app: bool,
    pub line_number: Option<u64>,
    pub line_text: Option<Seq<char>>,
}

impl View for GuiResult {
    type V = Row;

    open spec fn view(&self) -> Row {
        Row {
            path: self.path@,
            is_directory: self.is_directory,
            is_app: self.is_app,
            line_number: self.line_number,
            line_text: text::text_of(self.line_text),
        }
    }
}

/// The values of a list of results.
pub open spec fn row_seq(v: Seq<GuiResult>) -> Seq<Row> {
    Seq::new(v.len(), |i: int| v[i]@)
}

impl GuiResult {
    /// A result with the same contents.
    pub fn copy(&self) -> (r: GuiResult)
        ensures
            r@ == self@,
    {
        GuiResult {
            path: text::copy_text(self.path.as_str()),
            is_directory: self.is_directory,
            is_app: self.is_app,
            line_number: self.line_number,
            line_text: text::copy_option(&self.line_text),
        }
    }
}

// ---------------------------------------------------------------------------
// Asking
// ---------------------------------------------------------------------------

/// Why the window does not search.
#[derive(Debug, Clone, Copy, PartialEq, Eq, Structural)]
pub enum Idle {
    /// Contents are searched in a folder only.
    NeedsScope,
    /// The query is too short.
    TooShort,
}

/// Why the window does not search: without a folder, contents are not
/// searched, nor names for less than two characters.
pub open spec fn idle_reason(s: settings::Settings, query: Seq<char>) -> Option<Idle> {
    if s.content_mode && s.under_dir is None {
        Some(Idle::NeedsScope)
    } else if text::trim(query).len() < 2 && s.under_dir is None {
        Some(Idle::TooShort)
    } else {
        None
    }
}

/// Why the window does not search.
pub fn why_idle(settings: &GuiSettings, query: &str) -> (r: Option<Idle>)
    ensures
        r == idle_reason(settings@, query@),
{
    if settings.content_mode && settings.under_dir.is_none() {
        return Some(Idle::NeedsScope);
    }
    if text::chars_of(text::trimmed(query).as_str()).len() < 2 && settings.under_dir.is_none() {
        return Some(Idle::TooShort);
    }
    None
}

/// What the user is told where the window does not search.
pub open spec fn idle_text(reason: Idle) -> Seq<char> {
    match reason {
        Idle::NeedsScope => "Content mode needs scope folder in Settings."@,
        Idle::TooShort => "Type at least 2 characters to search."@,
    }
}

/// What the user is told where the window does not search.
pub fn idle_status(reason: Idle) -> (r: String)
    ensures
        r@ == idle_text(reason),
{
    match reason {
        Idle::NeedsScope => text::copy_text("Content mode needs scope folder in Settings."),
        Idle::TooShort => text::copy_text("Type at least 2 characters to search."),
    }
}

/// The request of the window to the service.
pub fn service_request(settings: &GuiSettings, query: &str) -> (r: QueryRequest)
    ensures
        r.query@ == text::trim(query@),
        text::text_of(r.extension) == settings@.extension,
        text::text_of(r.under_dir) == settings@.under_dir,
        r.glob is None,
        text::text_of(r.mode) == Some(
            if settings.content_mode {
                "content"@
            } else {
                "name"@
            },
        ),
        r.timeout_ms == if settings.content_mode {
            Some(3000u64)
        } else {
            None
        },
        r.directories_only == settings.directories_only,
        r.files_only == settings.files_only,
        r.fuzzy == settings.fuzzy_mode,
        !r.metrics,
        r.limit == Some(settings.limit),
{
    QueryRequest {
        query: text::trimmed(query),
        extension: text::copy_option(&settings.extension),
        under_dir: text::copy_option(&settings.under_dir),
        glob: None,
        mode: if settings.content_mode {
            Some(text::copy_text("content"))
        } else {
            Some(text::copy_text("name"))
        },
        timeout_ms: if settings.content_mode {
            Some(3000)
        } else {
            None
        },
        directories_only: settings.directories_only,
        files_only: settings.files_only,
        fuzzy: settings.fuzzy_mode,
        metrics: false,
        limit: Some(settings.limit),
    }
}

/// The service reads the request of the window as the settings say: its mode,
/// its limit and its time.
pub proof fn service_reads_the_settings(s: settings::Settings, r: QueryRequest, default_limit: usize)
    requires
        text::text_of(r.mode) == Some(
            if s.content_mode {
                "content"@
            } else {
                "name"@
            },
        ),
        r.timeout_ms == if s.content_mode {
            Some(3000u64)
        } else {
            None
        },
        r.limit == Some(s.limit),
        s.limit > 0,
    ensures
        service::mode_of(text::text_of(r.mode)) == if s.content_mode {
            service::RequestMode::Content
        } else {
            service::RequestMode::Name
        },
        service::limit_of(r, default_limit) == s.limit,
        service::timeout_of(r) == 3000,
{
    reveal_strlit("content");
    reveal_strlit("name");
    assert("content"@.len() == 7);
    assert("name"@.len() == 4);
    assert(text::lower("name"@).len() == 4);
    assert(text::lower("content"@).len() == 7);
}

/// The options with which the window searches an index of its own, where the
/// service does not answer.
pub fn fallback_options(settings: &GuiSettings, query: &str) -> (r: SearchOptions)
    ensures
        r.query@ == text::trim(query@),
        text::text_of(r.extension) == settings@.extension,
        text::text_of(r.under_dir) == settings@.under_dir,
        r.glob is None,
        r.directories_only == settings.directories_only,
        r.files_only == settings.files_only,
        r.limit == settings.limit,
        !r.prefer_trigram,
{
    SearchOptions {
        query: text::trimmed(query),
        extension: text::copy_option(&settings.extension),
        under_dir: text::copy_option(&settings.under_dir),
        glob: None,
        directories_only: settings.directories_only,
        files_only: settings.files_only,
        limit: settings.limit,
        prefer_trigram: false,
    }
}

/// The options with which the window searches contents itself.
pub fn fallback_content_options(settings: &GuiSettings, query: &str) -> (r:
    content::ContentSearchOptions)
    ensures
        r.query@ == text::trim(query@),
        text::text_of(r.extension) == settings@.extension,
        text::text_of(r.under_dir) == settings@.under_dir,
        r.limit == settings.limit,
        r.timeout_nanos == 3_000_000_000,
{
    content::ContentSearchOptions {
        query: text::trimmed(query),
        under_dir: text::copy_option(&settings.under_dir),
        extension: text::copy_option(&settings.extension),
        limit: settings.limit,
        timeout_nanos: 3_000_000_000,
    }
}

/// An entry of an index as a result.
pub open spec fn hit_row(h: search::Hit) -> Row {
    Row {
        path: h.path,
        is_directory: h.is_directory,
        is_app: false,
        line_number: None,
        line_text: None,
    }
}

/// Entries of an index as results.
pub fn rows_of_hits(hits: &Vec<SearchResult>) -> (r: Vec<GuiResult>)
    ensures
        row_seq(r@) == Seq::new(hits@.len(), |i: int| hit_row(hits@[i]@)),
{
    let mut r: Vec<GuiResult> = Vec::with_capacity(hits.len());
    let mut i: usize = 0;
    while i < hits.len()
        invariant
            i <= hits@.len(),
            r@.len() == i,
            forall|k: int| 0 <= k < i ==> (#[trigger] r@[k])@ == hit_row(hits@[k]@),
        decreases hits@.len() - i,
    {
        r.push(
            GuiResult {
                path: text::copy_text(hits[i].path.as_str()),
                is_directory: hits[i].is_directory,
                is_app: false,
                line_number: None,
                line_text: None,
            },
        );
        i += 1;
    }
    assert(row_seq(r@) =~= Seq::new(hits@.len(), |i: int| hit_row(hits@[i]@)));
    r
}

/// A line of a file as a result.
pub open spec fn line_row(line: content::Line) -> Row {
    Row {
        path: line.path,
        is_directory: false,
        is_app: false,
        line_number: Some(line.line_number),
        line_text: Some(line.line_text),
    }
}

/// Lines of files as results.
pub fn rows_of_lines(lines: &Vec<ContentMatch>) -> (r: Vec<GuiResult>)
    ensures
        row_seq(r@) == Seq::new(lines@.len(), |i: int| line_row(lines@[i]@)),
{
    let mut r: Vec<GuiResult> = Vec::with_capacity(lines.len());
    let mut i: usize = 0;
    while i < lines.len()
        invariant
            i <= lines@.len(),
            r@.len() == i,
            forall|k: int| 0 <= k < i ==> (#[trigger] r@[k])@ == line_row(lines@[k]@),
        decreases lines@.len() - i,
    {
        r.push(
            GuiResult {
                path: text::copy_text(lines[i].path.as_str()),
                is_directory: false,
                is_app: false,
                line_number: Some(lines[i].line_number),
                line_text: Some(text::copy_text(lines[i].line_text.as_str())),
            },
        );
        i += 1;
    }
    assert(row_seq(r@) =~= Seq::new(lines@.len(), |i: int| line_row(lines@[i]@)));
    r
}

// ---------------------------------------------------------------------------
// Applications among results
// ---------------------------------------------------------------------------

/// Two results, then an application, and so on.
pub open spec fn woven(base: Seq<Row>, apps: Seq<Row>) -> Seq<Row>
    decreases base.len() + apps.len(),
{
    if base.len() == 0 && apps.len() == 0 {
        seq![]
    } else {
        let two = arena::first_n(base, 2);
        let one = arena::first_n(apps, 1);
        two + one + woven(base.skip(two.len() as int), apps.skip(one.len() as int))
    }
}

proof fn lemma_woven_alone(base: Seq<Row>)
    ensures
        woven(base, seq![]) == base,
    decreases base.len(),
{
    if base.len() > 0 {
        let two = arena::first_n(base, 2);
        let none = Seq::<Row>::empty();
        lemma_woven_alone(base.skip(two.len() as int));
        assert(none.skip(0) =~= none);
        assert(two + arena::first_n(none, 1) + base.skip(two.len() as int) =~= base);
    }
}

/// Adds results while there are fewer than `limit`.
fn add_upto(output: &mut Vec<GuiResult>, list: &Vec<GuiResult>, from: usize, count: usize, limit: usize)
    requires
        from + count <= list@.len(),
        old(output)@.len() <= limit,
    ensures
        row_seq(final(output)@) == arena::first_n(
            row_seq(old(output)@) + row_seq(list@).subrange(from as int, from + count),
            limit as nat,
        ),
        final(output)@.len() <= limit,
{
    let ghost had = row_seq(output@);
    let ghost all = row_seq(list@);
    let size = list.len();
    let mut k: usize = 0;
    assert(row_seq(output@) =~= had + all.subrange(from as int, from as int));
    while k < count && output.len() < limit
        invariant
            k <= count,
            from + count <= size == list@.len() == all.len(),
            all == row_seq(list@),
            row_seq(output@) == had + all.subrange(from as int, from + k),
            output@.len() <= limit,
        decreases count - k,
    {
        let ghost before = row_seq(output@);
        output.push(list[from + k].copy());
        assert(row_seq(output@) =~= before.push(all[from + k]));
        k += 1;
        assert(row_seq(output@) =~= had + all.subrange(from as int, from + k));
    }
    assert(row_seq(output@).len() == output@.len());
    assert(row_seq(output@) =~= arena::first_n(
        had + all.subrange(from as int, from + count),
        limit as nat,
    ));
}

/// The results with an application behind every second one, at most `limit` of
/// them.
pub fn interleave_app_results(base: &Vec<GuiResult>, apps: &Vec<GuiResult>, limit: usize) -> (r: Vec<
    GuiResult,
>)
    ensures
        row_seq(r@) == arena::first_n(woven(row_seq(base@), row_seq(apps@)), limit as nat),
{
    let ghost b = row_seq(base@);
    let ghost a = row_seq(apps@);
    let ghost whole = woven(b, a);
    let mut output: Vec<GuiResult> = Vec::new();
    let mut i: usize = 0;
    let mut j: usize = 0;
    proof {
        assert(b.skip(0) =~= b);
        assert(a.skip(0) =~= a);
        assert(row_seq(output@) =~= seq![]);
        assert(row_seq(output@) + whole =~= whole);
    }
    while output.len() < limit && (i < base.len() || j < apps.len())
        invariant
            i <= base@.len() == b.len(),
            j <= apps@.len() == a.len(),
            b == row_seq(base@),
            a == row_seq(apps@),
            output@.len() <= limit,
            arena::first_n(whole, limit as nat) == arena::first_n(
                row_seq(output@) + woven(b.skip(i as int), a.skip(j as int)),
                limit as nat,
            ),
        decreases base@.len() - i + apps@.len() - j,
    {
        let ghost had = row_seq(output@);
        let ghost left = b.skip(i as int);
        let ghost right = a.skip(j as int);
        let two: usize = if base.len() - i >= 2 {
            2
        } else {
            base.len() - i
        };
        let one: usize = if apps.len() - j >= 1 {
            1
        } else {
            0
        };
        add_upto(&mut output, base, i, two, limit);
        let ghost mid = row_seq(output@);
        add_upto(&mut output, apps, j, one, limit);
        proof {
            let x = b.subrange(i as int, i + two);
            let y = a.subrange(j as int, j + one);
            let rest = woven(b.skip(i + two), a.skip(j + one));
            assert(x =~= arena::first_n(left, 2));
            assert(y =~= arena::first_n(right, 1));
            assert(left.skip(x.len() as int) =~= b.skip(i + two));
            assert(right.skip(y.len() as int) =~= a.skip(j + one));
            assert(woven(left, right) == x + y + rest);
            assert(row_seq(output@).len() == output@.len());
            lemma_cut(had, x, y, rest, mid, row_seq(output@), limit as nat);
        }
        i += two;
        j += one;
    }
    proof {
        assert(row_seq(output@).len() == output@.len());
        if i == base@.len() && j == apps@.len() {
            assert(woven(b.skip(i as int), a.skip(j as int)) =~= seq![]);
            assert(arena::first_n(row_seq(output@) + Seq::<Row>::empty(), limit as nat)
                =~= row_seq(output@));
        } else {
            assert(arena::first_n(
                row_seq(output@) + woven(b.skip(i as int), a.skip(j as int)),
                limit as nat,
            ) =~= row_seq(output@));
        }
    }
    output
}

proof fn lemma_cut(
    had: Seq<Row>,
    x: Seq<Row>,
    y: Seq<Row>,
    rest: Seq<Row>,
    mid: Seq<Row>,
    now: Seq<Row>,
    limit: nat,
)
    requires
        had.len() <= limit,
        mid == arena::first_n(had + x, limit),
        now == arena::first_n(mid + y, limit),
    ensures
        arena::first_n(had + (x + y + rest), limit) == arena::first_n(now + rest, limit),
{
    assert(arena::first_n(had + (x + y + rest), limit) =~= arena::first_n(now + rest, limit));
}

/// Without applications the results stay as they are, up to the limit.
pub proof fn no_apps_change_nothing(base: Seq<Row>, limit: nat)
    ensures
        arena::first_n(woven(base, seq![]), limit) == arena::first_n(base, limit),
{
    lemma_woven_alone(base);
}

/// Nothing is lost between results and applications.
pub proof fn weaving_keeps_everything(base: Seq<Row>, apps: Seq<Row>)
    ensures
        woven(base, apps).len() == base.len() + apps.len(),
        woven(base, apps).to_multiset() == base.to_multiset().add(apps.to_multiset()),
    decreases base.len() + apps.len(),
{
    broadcast use vstd::seq_lib::group_to_multiset_ensures;

    if base.len() == 0 && apps.len() == 0 {
        assert(base =~= seq![]);
        assert(apps =~= seq![]);
        assert(woven(base, apps).to_multiset() =~= base.to_multiset().add(apps.to_multiset()));
    } else {
        let two = arena::first_n(base, 2);
        let one = arena::first_n(apps, 1);
        let b = base.skip(two.len() as int);
        let a = apps.skip(one.len() as int);
        weaving_keeps_everything(b, a);
        assert(base =~= two + b);
        assert(apps =~= one + a);
        vstd::seq_lib::lemma_multiset_commutative(two, b);
        vstd::seq_lib::lemma_multiset_commutative(one, a);
        vstd::seq_lib::lemma_multiset_commutative(two + one, woven(b, a));
        vstd::seq_lib::lemma_multiset_commutative(two, one);
        assert(woven(base, apps).to_multiset() =~= base.to_multiset().add(apps.to_multiset()));
    }
}

/// The paths of results in lower case.
pub open spec fn lower_paths(rows: Seq<Row>) -> Seq<Seq<char>> {
    Seq::new(rows.len(), |i: int| text::lower(rows[i].path))
}

/// The paths of results in lower case.
pub fn seen_paths(results: &Vec<GuiResult>) -> (r: Vec<String>)
    ensures
        text::texts(r@) == lower_paths(row_seq(results@)),
{
    let mut r: Vec<String> = Vec::with_capacity(results.len());
    let mut i: usize = 0;
    while i < results.len()
        invariant
            i <= results@.len(),
            r@.len() == i,
            forall|k: int| 0 <= k < i ==> (#[trigger] r@[k])@ == text::lower(results@[k].path@),
        decreases results@.len() - i,
    {
        r.push(text::to_lower(results[i].path.as_str()));
        i += 1;
    }
    assert(text::texts(r@) =~= lower_paths(row_seq(results@)));
    r
}

/// The results with those applications of the catalog that answer the query;
/// as they are where contents are searched or applications are not wanted.
pub open spec fn joined_by_apps(
    results: Seq<Row>,
    settings: GuiSettings,
    query: Seq<char>,
    catalog: Seq<crate::apps::App>,
) -> Seq<Row> {
    if settings.content_mode || !settings.apps_mode {
        results
    } else {
        arena::first_n(
            woven(
                results,
                crate::apps::found_apps(
                    catalog,
                    text::trim(query),
                    crate::apps::app_share(settings.limit) as nat,
                    lower_paths(results),
                ),
            ),
            settings.limit as nat,
        )
    }
}

/// Applications may answer the query, so that the catalog is needed.
pub open spec fn apps_wanted(settings: GuiSettings, query: Seq<char>) -> bool {
    settings.apps_mode && !settings.content_mode && text::trim(query).len() >= 2
}

/// Whether the catalog of applications is needed.
pub fn wants_apps(settings: &GuiSettings, query: &str) -> (r: bool)
    ensures
        r == apps_wanted(*settings, query@),
{
    settings.apps_mode && !settings.content_mode && text::chars_of(
        text::trimmed(query).as_str(),
    ).len() >= 2
}

/// Where the catalog is not needed, it makes no difference what it holds.
pub proof fn unwanted_catalog_changes_nothing(
    results: Seq<Row>,
    settings: GuiSettings,
    query: Seq<char>,
    one: Seq<crate::apps::App>,
    other: Seq<crate::apps::App>,
)
    requires
        !apps_wanted(settings, query),
    ensures
        joined_by_apps(results, settings, query, one) == joined_by_apps(
            results,
            settings,
            query,
            other,
        ),
{
    text::trim_is_idempotent(query);
}

/// The results with those applications of the catalog that answer the query;
/// as they are where contents are searched or applications are not wanted.
pub fn with_apps(
    results: Vec<GuiResult>,
    settings: &GuiSettings,
    query: &str,
    catalog: &Vec<crate::apps::AppEntry>,
) -> (r: Vec<GuiResult>)
    ensures
        row_seq(r@) == joined_by_apps(
            row_seq(results@),
            *settings,
            query@,
            crate::apps::app_seq(catalog@),
        ),
{
    if settings.content_mode || !settings.apps_mode {
        return results;
    }
    let seen = seen_paths(&results);
    let trimmed = text::trimmed(query);
    let apps = crate::apps::search_apps(
        trimmed.as_str(),
        crate::apps::app_limit(settings.limit),
        &seen,
        catalog,
    );
    interleave_app_results(&results, &apps, settings.limit)
}

// ---------------------------------------------------------------------------
// Rows
// ---------------------------------------------------------------------------

/// A row of the window.
#[derive(Debug, Clone)]
pub struct UiRowData {
    pub kind: String,
    pub name: String,
    pub path: String,
    pub subtitle: String,
    pub is_directory: bool,
    pub is_app: bool,
    pub line_match: bool,
}

/// The value of a [`UiRowData`].
pub struct UiRow {
    pub kind: Seq<char>,
    pub name: Seq<char>,
    pub path: Seq<char>,
    pub subtitle: Seq<char>,
    pub is_directory: bool,
    pub is_app: bool,
    pub line_match: bool,
}

impl View for UiRowData {
    type V = UiRow;

    open spec fn view(&self) -> UiRow {
        UiRow {
            kind: self.kind@,
            name: self.name@,
            path: self.path@,
            subtitle: self.subtitle@,
            is_directory: self.is_directory,
            is_app: self.is_app,
            line_match: self.line_match,
        }
    }
}

/// What a line shows: its text, or that it is empty.
pub open spec fn excerpt(line_text: Option<Seq<char>>) -> Seq<char> {
    match line_text {
        Some(line) => if text::trim(line).len() == 0 {
            "<empty>"@
        } else {
            text::trim(line)
        },
        None => "<empty>"@,
    }
}

/// The second line of a row.
pub open spec fn subtitle_of(r: Row) -> Seq<char> {
    match r.line_number {
        Some(n) => r.path + ":"@ + numbers::decimal(n as nat) + "  "@ + excerpt(r.line_text),
        None => if r.is_app {
            match r.line_text {
                Some(line) => line,
                None => "App • "@ + r.path,
            }
        } else {
            r.path
        },
    }
}

/// A result as a row of the window.
pub open spec fn ui_row(r: Row) -> UiRow {
    UiRow {
        kind: if r.is_app {
            "APP"@
        } else if r.line_number is Some {
            "LINE"@
        } else if r.is_directory {
            "DIR"@
        } else {
            "FILE"@
        },
        name: match path::file_name(r.path) {
            Some(name) => name,
            None => r.path,
        },
        path: r.path,
        subtitle: subtitle_of(r),
        is_directory: r.is_directory,
        is_app: r.is_app,
        line_match: r.line_number is Some,
    }
}

fn row_subtitle(item: &GuiResult) -> (r: String)
    ensures
        r@ == subtitle_of(item@),
{
    match item.line_number {
        Some(n) => {
            let mut s = text::copy_text(item.path.as_str());
            text::push_text(&mut s, ":");
            text::push_text(&mut s, numbers::number_text(n as u128).as_str());
            text::push_text(&mut s, "  ");
            let shown = match &item.line_text {
                Some(line) => {
                    let t = text::trimmed(line.as_str());
                    proof {
                        text::byte_len_zero(t@);
                    }
                    if text::len_in_bytes(t.as_str()) == 0 {
                        text::copy_text("<empty>")
                    } else {
                        t
                    }
                },
                None => text::copy_text("<empty>"),
            };
            text::push_text(&mut s, shown.as_str());
            s
        },
        None => {
            if item.is_app {
                match &item.line_text {
                    Some(line) => text::copy_text(line.as_str()),
                    None => {
                        let mut s = text::copy_text("App • ");
                        text::push_text(&mut s, item.path.as_str());
                        s
                    },
                }
            } else {
                text::copy_text(item.path.as_str())
            }
        },
    }
}

/// A result as a row of the window.
pub fn row_of(item: &GuiResult) -> (r: UiRowData)
    ensures
        r@ == ui_row(item@),
{
    let name = match path::name_of(item.path.as_str()) {
        Some(name) => name,
        None => text::copy_text(item.path.as_str()),
    };
    let kind = if item.is_app {
        "APP"
    } else if item.line_number.is_some() {
        "LINE"
    } else if item.is_directory {
        "DIR"
    } else {
        "FILE"
    };
    UiRowData {
        kind: text::copy_text(kind),
        name,
        path: text::copy_text(item.path.as_str()),
        subtitle: row_subtitle(item),
        is_directory: item.is_directory,
        is_app: item.is_app,
        line_match: item.line_number.is_some(),
    }
}

/// What the window shows.
#[derive(Debug)]
pub struct UiPayload {
    pub rows: Vec<UiRowData>,
    pub paths: Vec<String>,
    pub status_text: String,
    pub mode_text: String,
}

/// What the window shows where there is nothing but a message.
pub fn message_payload(status_text: String, mode_text: &str) -> (r: UiPayload)
    ensures
        r.rows@.len() == 0,
        r.paths@.len() == 0,
        r.status_text == status_text,
        r.mode_text@ == mode_text@,
{
    UiPayload {
        rows: Vec::new(),
        paths: Vec::new(),
        status_text,
        mode_text: text::copy_text(mode_text),
    }
}

/// What the window shows for results: a row and a path for each, how many there
/// are and how long it took, and where they come from.
pub fn result_payload(
    results: &Vec<GuiResult>,
    took_ms: u128,
    total_entries: usize,
    source: &str,
) -> (r: UiPayload)
    ensures
        r.rows@.len() == results@.len(),
        forall|i: int| 0 <= i < results@.len() ==> (#[trigger] r.rows@[i])@ == ui_row(results@[i]@),
        text::texts(r.paths@) == Seq::new(results@.len(), |i: int| results@[i].path@),
        r.status_text@ == numbers::decimal(results@.len()) + " results in "@ + numbers::decimal(
            took_ms as nat,
        ) + " ms"@,
        r.mode_text@ == source@ + " | indexed="@ + numbers::decimal(total_entries as nat),
{
    let mut rows: Vec<UiRowData> = Vec::with_capacity(results.len());
    let mut paths: Vec<String> = Vec::with_capacity(results.len());
    let mut i: usize = 0;
    while i < results.len()
        invariant
            i <= results@.len(),
            rows@.len() == i,
            paths@.len() == i,
            forall|k: int| 0 <= k < i ==> (#[trigger] rows@[k])@ == ui_row(results@[k]@),
            forall|k: int| 0 <= k < i ==> (#[trigger] paths@[k])@ == results@[k].path@,
        decreases results@.len() - i,
    {
        rows.push(row_of(&results[i]));
        paths.push(text::copy_text(results[i].path.as_str()));
        i += 1;
    }
    assert(text::texts(paths@) =~= Seq::new(results@.len(), |i: int| results@[i].path@));
    let mut status_text = numbers::number_text(rows.len() as u128);
    text::push_text(&mut status_text, " results in ");
    text::push_text(&mut status_text, numbers::number_text(took_ms).as_str());
    text::push_text(&mut status_text, " ms");
    let mut mode_text = text::copy_text(source);
    text::push_text(&mut mode_text, " | indexed=");
    text::push_text(&mut mode_text, numbers::number_text(total_entries as u128).as_str());
    UiPayload { rows, paths, status_text, mode_text }
}

/// Where the window turns after it asked the service.
#[derive(Debug, Clone, Copy, PartialEq, Eq, Structural)]
pub enum NextSource {
    /// To the index of its own.
    LoadIndex,
    /// Nowhere: the service starts.
    Starting,
    /// Nowhere: the service answered.
    Show,
}

/// Where the window turns after it asked the service: to the index of its own
/// only where no answer came. An answer says whether the service starts.
pub fn after_service(starting: Option<bool>) -> (r: NextSource)
    ensures
        r == match starting {
            None => NextSource::LoadIndex,
            Some(true) => NextSource::Starting,
            Some(false) => NextSource::Show,
        },
{
    match starting {
        None => NextSource::LoadIndex,
        Some(true) => NextSource::Starting,
        Some(false) => NextSource::Show,
    }
}

/// What the window shows while the service starts.
pub fn starting_payload(indexed_entries: Option<usize>) -> (r: UiPayload)
    ensures
        r.rows@.len() == 0,
        r.paths@.len() == 0,
        r.status_text@ == "Service starting... indexed="@ + numbers::decimal(
            match indexed_entries {
                Some(n) => n as nat,
                None => 0,
            },
        ),
        r.mode_text@ == "service (starting)"@,
{
    let scanned: usize = match indexed_entries {
        Some(n) => n,
        None => 0,
    };
    let mut status = text::copy_text("Service starting... indexed=");
    text::push_text(&mut status, numbers::number_text(scanned as u128).as_str());
    message_payload(status, "service (starting)")
}

/// What the window shows where neither the service nor the search of its own
/// gives an answer.
pub fn failure_payload(service_error: &str, content_mode: bool, error: &str) -> (r: UiPayload)
    ensures
        r.rows@.len() == 0,
        r.paths@.len() == 0,
        r.status_text@ == "Service unavailable ("@ + service_error@ + "). "@ + (if content_mode {
            "Content fallback failed: "@
        } else {
            "Fallback failed: "@
        }) + error@,
        r.mode_text@ == "error"@,
{
    let mut status = text::copy_text("Service unavailable (");
    text::push_text(&mut status, service_error);
    text::push_text(&mut status, "). ");
    text::push_text(
        &mut status,
        if content_mode {
            "Content fallback failed: "
        } else {
            "Fallback failed: "
        },
    );
    text::push_text(&mut status, error);
    message_payload(status, "error")
}

/// Where results come from that the window found itself, and why.
pub fn fallback_source(content_mode: bool, service_error: &str) -> (r: String)
    ensures
        r@ == (if content_mode {
            "fallback-content ("@
        } else {
            "fallback ("@
        }) + service_error@ + ")"@,
{
    let mut s = text::copy_text(
        if content_mode {
            "fallback-content ("
        } else {
            "fallback ("
        },
    );
    text::push_text(&mut s, service_error);
    text::push_text(&mut s, ")");
    s
}

/// The path of the selected row, where one is selected.
pub fn selected_path(selected_index: i32, paths: &Vec<String>) -> (r: Option<String>)
    ensures
        text::text_of(r) == if 0 <= selected_index < paths@.len() {
            Some(paths@[selected_index as int]@)
        } else {
            None
        },
{
    if selected_index < 0 {
        return None;
    }
    let i = selected_index as usize;
    if i < paths.len() {
        Some(text::copy_text(paths[i].as_str()))
    } else {
        None
    }
}

/// The key under which the picture of a row is kept: by its kind and extension.
pub open spec fn icon_key(path: Seq<char>, is_directory: bool, is_app: bool, line_match: bool) -> Seq<
    char,
> {
    let x = path::extension(path);
    if is_app {
        "app:"@ + text::lower(
            match x {
                Some(x) => x,
                None => "app"@,
            },
        )
    } else if is_directory {
        "dir"@
    } else if line_match {
        "line:"@ + text::lower(
            match x {
                Some(x) => x,
                None => "line"@,
            },
        )
    } else {
        "file:"@ + text::lower(
            match x {
                Some(x) => x,
                None => "file"@,
            },
        )
    }
}

/// The key under which the picture of a row is kept.
pub fn icon_cache_key(path: &str, is_directory: bool, is_app: bool, line_match: bool) -> (r: String)
    ensures
        r@ == icon_key(path@, is_directory, is_app, line_match),
{
    if !is_app && is_directory {
        return text::copy_text("dir");
    }
    let (prefix, default) = if is_app {
        ("app:", "app")
    } else if line_match {
        ("line:", "line")
    } else {
        ("file:", "file")
    };
    let extension = match path::extension_of(path) {
        Some(x) => x,
        None => text::copy_text(default),
    };
    let mut key = text::copy_text(prefix);
    text::push_text(&mut key, text::to_lower(extension.as_str()).as_str());
    key
}

// ---------------------------------------------------------------------------
// Preview
// ---------------------------------------------------------------------------

/// The title of a preview: the file name, or the path where it has none.
pub fn preview_title(path: &str) -> (r: String)
    ensures
        r@ == match path::file_name(path@) {
            Some(name) => name,
            None => path@,
        },
{
    match path::name_of(path) {
        Some(name) => name,
        None => text::copy_text(path),
    }
}

/// The extension is that of a picture, in any case.
pub open spec fn is_picture(path: Seq<char>) -> bool {
    match path::extension(path) {
        Some(x) => {
            let x = text::lower(x);
            x == "png"@ || x == "jpg"@ || x == "jpeg"@ || x == "gif"@ || x == "bmp"@ || x == "webp"@
                || x == "ico"@
        },
        None => false,
    }
}

/// Whether a file is shown as a picture, by its extension.
pub fn is_image_path(path: &str) -> (r: bool)
    ensures
        r == is_picture(path@),
{
    match path::extension_of(path) {
        Some(extension) => {
            let lower = text::to_lower(extension.as_str());
            let x = lower.as_str();
            text::same_text(x, "png") || text::same_text(x, "jpg") || text::same_text(x, "jpeg")
                || text::same_text(x, "gif") || text::same_text(x, "bmp") || text::same_text(
                x,
                "webp",
            ) || text::same_text(x, "ico")
        },
        None => false,
    }
}

/// The lines of a text: what stands between line ends, and what stands behind
/// the last one where there is something.
pub open spec fn lines(s: Seq<char>) -> Seq<Seq<char>> {
    let parts = text::split(s, '\n');
    if parts.last().len() == 0 {
        parts.drop_last()
    } else {
        parts
    }
}

/// The most lines that a preview shows.
pub const PREVIEW_LINES: usize = 100;

/// The lines that a preview shows: the first ones, without the space at their
/// end.
pub open spec fn preview_lines(s: Seq<char>) -> Seq<Seq<char>> {
    let first = arena::first_n(lines(s), PREVIEW_LINES as nat);
    Seq::new(first.len(), |i: int| text::strip_end(first[i], CharSet::Space))
}

/// What a preview shows of a text.
pub open spec fn preview_of(s: Seq<char>) -> Seq<char> {
    let shown = text::join(preview_lines(s), "\n"@);
    if shown.len() == 0 {
        "<empty file>"@
    } else {
        shown
    }
}

proof fn lemma_split_not_empty(s: Seq<char>, sep: char)
    ensures
        text::split(s, sep).len() > 0,
    decreases s.len(),
{
    if s.len() > 0 {
        lemma_split_not_empty(s.drop_last(), sep);
    }
}

/// What a preview shows of a text: its first lines.
pub fn preview_text(s: &str) -> (r: String)
    ensures
        r@ == preview_of(s@),
{
    let parts = text::split_text(s, '\n');
    let ghost all = text::texts(parts@);
    let ghost wanted = lines(s@);
    proof {
        lemma_split_not_empty(s@, '\n');
        text::byte_len_zero(all.last());
    }
    let mut count: usize = parts.len();
    assert(all.last() == parts@[count - 1]@);
    if text::len_in_bytes(parts[count - 1].as_str()) == 0 {
        count -= 1;
    }
    assert(wanted =~= all.take(count as int));
    if count > PREVIEW_LINES {
        count = PREVIEW_LINES;
    }
    assert(arena::first_n(wanted, PREVIEW_LINES as nat) =~= all.take(count as int));
    let mut shown: Vec<String> = Vec::with_capacity(count);
    let mut i: usize = 0;
    while i < count
        invariant
            i <= count <= parts@.len() == all.len(),
            all == text::texts(parts@),
            shown@.len() == i,
            forall|k: int|
                0 <= k < i ==> (#[trigger] shown@[k])@ == text::strip_end(all[k], CharSet::Space),
        decreases count - i,
    {
        assert(all[i as int] == parts@[i as int]@);
        shown.push(text::without_end(parts[i].as_str(), CharSet::Space));
        i += 1;
    }
    assert(text::texts(shown@) =~= preview_lines(s@));
    let joined = text::joined(&shown, "\n");
    proof {
        text::byte_len_zero(joined@);
    }
    if text::len_in_bytes(joined.as_str()) == 0 {
        text::copy_text("<empty file>")
    } else {
        joined
    }
}

/// What `String::from_utf8_lossy` makes of the bytes.
pub uninterp spec fn lossy(data: Seq<u8>) -> Seq<char>;

/// `String::from_utf8_lossy` reads the bytes as UTF-8; what is none becomes a
/// replacement character. Of bytes that are the UTF-8 form of a text, it gives
/// that text.
#[verifier::external_body]
fn read_lossy(data: &[u8]) -> (r: String)
    ensures
        r@ == lossy(data@),
        forall|s: Seq<char>| #[trigger] bytes::utf8(s) == data@ ==> r@ == s,
{
    String::from_utf8_lossy(data).into_owned()
}

/// What a preview shows of the start of a file: its first lines, or that it is
/// not text.
pub fn preview_bytes(sample: &[u8], path: &str) -> (r: String)
    ensures
        r@ == if sample@.contains(0u8) {
            "Binary file preview not available.\n"@ + path@
        } else {
            preview_of(lossy(sample@))
        },
        forall|s: Seq<char>| #[trigger]
            bytes::utf8(s) == sample@ && !sample@.contains(0u8) ==> r@ == preview_of(s),
{
    if bytes::has_byte(sample, 0) {
        let mut s = text::copy_text("Binary file preview not available.\n");
        text::push_text(&mut s, path);
        return s;
    }
    let content = read_lossy(sample);
    preview_text(content.as_str())
}

// ---------------------------------------------------------------------------
// Laws of what is shown
// ---------------------------------------------------------------------------

/// Nothing is searched where contents are wanted and no folder is given, nor, in
/// all folders, for a query of fewer than two characters; everything else is.
pub proof fn queries_are_searched_unless_idle(
    s: settings::Settings,
    before: Seq<char>,
    query: Seq<char>,
    behind: Seq<char>,
)
    requires
        forall|i: int| 0 <= i < before.len() ==> text::is_space(#[trigger] before[i]),
        forall|i: int| 0 <= i < behind.len() ==> text::is_space(#[trigger] behind[i]),
        query.len() > 0 ==> !text::is_space(query[0]) && !text::is_space(query.last()),
    ensures
        s.under_dir is Some ==> idle_reason(s, before + query + behind) is None,
        s.under_dir is None && s.content_mode ==> idle_reason(s, before + query + behind) == Some(
            Idle::NeedsScope,
        ),
        s.under_dir is None && !s.content_mode && query.len() < 2 ==> idle_reason(
            s,
            before + query + behind,
        ) == Some(Idle::TooShort),
        s.under_dir is None && !s.content_mode && query.len() >= 2 ==> idle_reason(
            s,
            before + query + behind,
        ) is None,
{
    text::trimming_takes_the_spaces(before, query, behind);
}

/// A row of a name shows its entry; a row of a line shows its file, its number
/// and its text.
pub proof fn rows_show_what_was_found(h: search::Hit, line: content::Line)
    ensures
        hit_row(h).path == h.path,
        hit_row(h).is_directory == h.is_directory,
        !hit_row(h).is_app && hit_row(h).line_number is None && hit_row(h).line_text is None,
        line_row(line).path == line.path,
        line_row(line).line_number == Some(line.line_number),
        line_row(line).line_text == Some(line.line_text),
        !line_row(line).is_app && !line_row(line).is_directory,
{
}

/// As long as both last, two results and then one application follow each other,
/// each in its own order.
pub proof fn two_results_then_one_application(base: Seq<Row>, apps: Seq<Row>, k: int)
    requires
        0 <= k < apps.len(),
        2 * k + 2 <= base.len(),
    ensures
        woven(base, apps).len() >= 3 * k + 3,
        woven(base, apps)[3 * k] == base[2 * k],
        woven(base, apps)[3 * k + 1] == base[2 * k + 1],
        woven(base, apps)[3 * k + 2] == apps[k],
    decreases k,
{
    let two = arena::first_n(base, 2);
    let one = arena::first_n(apps, 1);
    let rest = woven(base.skip(2), apps.skip(1));
    assert(two =~= base.take(2));
    assert(one =~= apps.take(1));
    assert(woven(base, apps) == two + one + rest);
    if k > 0 {
        two_results_then_one_application(base.skip(2), apps.skip(1), k - 1);
        assert((two + one + rest)[3 * k] == rest[3 * (k - 1)]);
        assert((two + one + rest)[3 * k + 1] == rest[3 * (k - 1) + 1]);
        assert((two + one + rest)[3 * k + 2] == rest[3 * (k - 1) + 2]);
    }
}

/// Once the results are used up, the applications follow alone, and the other
/// way round.
pub proof fn what_is_left_follows_alone(rows: Seq<Row>)
    ensures
        woven(rows, seq![]) == rows,
        woven(seq![], rows) == rows,
    decreases rows.len(),
{
    lemma_woven_alone(rows);
    if rows.len() > 0 {
        let none = Seq::<Row>::empty();
        assert(none.skip(0) =~= none);
        what_is_left_follows_alone(rows.skip(1));
        assert(arena::first_n(none, 2) =~= none);
        assert(arena::first_n(rows, 1) =~= rows.take(1));
        assert(none + rows.take(1) + rows.skip(1) =~= rows);
    } else {
        assert(rows =~= seq![]);
    }
}

/// A row of the window is named after the file, keeps its path and its kind, and
/// tells lines, applications, directories and files apart.
pub proof fn rows_are_named_after_their_file(dir: Seq<char>, name: Seq<char>, r: Row)
    requires
        dir.len() >= 3,
        'a' <= dir[0] <= 'z' || 'A' <= dir[0] <= 'Z',
        dir[1] == ':',
        dir.last() == '\\',
        path::plain_name(name),
        r.path == dir + name,
    ensures
        ui_row(r).name == name,
        ui_row(r).path == r.path,
        ui_row(r).is_directory == r.is_directory,
        ui_row(r).is_app == r.is_app,
        ui_row(r).line_match == (r.line_number is Some),
        !r.is_app && r.line_number is None ==> ui_row(r).subtitle == r.path,
        r.is_app ==> ui_row(r).kind == seq!['A', 'P', 'P'],
        !r.is_app && r.line_number is Some ==> ui_row(r).kind == seq!['L', 'I', 'N', 'E'],
        !r.is_app && r.line_number is None && r.is_directory ==> ui_row(r).kind == seq![
            'D',
            'I',
            'R',
        ],
        !r.is_app && r.line_number is None && !r.is_directory ==> ui_row(r).kind == seq![
            'F',
            'I',
            'L',
            'E',
        ],
{
    path::names_stand_behind_the_last_separator(dir, name);
    reveal_strlit("APP");
    reveal_strlit("LINE");
    reveal_strlit("DIR");
    reveal_strlit("FILE");
    assert("APP"@ =~= seq!['A', 'P', 'P']);
    assert("LINE"@ =~= seq!['L', 'I', 'N', 'E']);
    assert("DIR"@ =~= seq!['D', 'I', 'R']);
    assert("FILE"@ =~= seq!['F', 'I', 'L', 'E']);
}

/// Below a line stand its path, its number and its text.
pub proof fn lines_are_shown_with_their_place(r: Row, n: u64)
    requires
        r.line_number == Some(n),
    ensures
        subtitle_of(r) == r.path + seq![':'] + numbers::decimal(n as nat) + seq![' ', ' ']
            + excerpt(r.line_text),
        r.line_text matches Some(t) ==> text::trim(t).len() > 0 ==> excerpt(r.line_text)
            == text::trim(t),
{
    reveal_strlit(":");
    reveal_strlit("  ");
    assert(":"@ =~= seq![':']);
    assert("  "@ =~= seq![' ', ' ']);
}

/// A file is shown as a picture by its extension, in any case of its letters.
pub proof fn pictures_go_by_their_extension(stem: Seq<char>, ext: Seq<char>)
    requires
        path::plain_name(stem + seq!['.'] + ext),
        stem.len() > 0,
        !ext.contains('.'),
    ensures
        is_picture(stem + seq!['.'] + ext) <==> text::lower(ext) == seq!['p', 'n', 'g']
            || text::lower(ext) == seq!['j', 'p', 'g'] || text::lower(ext) == seq![
            'j',
            'p',
            'e',
            'g',
        ] || text::lower(ext) == seq!['g', 'i', 'f'] || text::lower(ext) == seq!['b', 'm', 'p']
            || text::lower(ext) == seq!['w', 'e', 'b', 'p'] || text::lower(ext) == seq![
            'i',
            'c',
            'o',
        ],
{
    path::extensions_stand_behind_the_last_dot(stem, ext);
    reveal_strlit("png");
    reveal_strlit("jpg");
    reveal_strlit("jpeg");
    reveal_strlit("gif");
    reveal_strlit("bmp");
    reveal_strlit("webp");
    reveal_strlit("ico");
    assert("png"@ =~= seq!['p', 'n', 'g']);
    assert("jpg"@ =~= seq!['j', 'p', 'g']);
    assert("jpeg"@ =~= seq!['j', 'p', 'e', 'g']);
    assert("gif"@ =~= seq!['g', 'i', 'f']);
    assert("bmp"@ =~= seq!['b', 'm', 'p']);
    assert("webp"@ =~= seq!['w', 'e', 'b', 'p']);
    assert("ico"@ =~= seq!['i', 'c', 'o']);
}

/// The lines of a text are what stands between the ends of lines; an end of a
/// line at the end of the text starts no line.
pub proof fn lines_stand_between_their_ends(a: Seq<char>, b: Seq<char>)
    requires
        b.len() > 0,
        !b.contains('\n'),
    ensures
        lines(a + seq!['\n'] + b) == text::split(a, '\n').push(b),
        lines(a + seq!['\n']) == text::split(a, '\n'),
        lines(b) == seq![b],
        lines(seq![]) == Seq::<Seq<char>>::empty(),
{
    let none = Seq::<char>::empty();
    text::pieces_add_up(a, b, '\n');
    text::pieces_add_up(a, none, '\n');
    text::pieces_add_up(none, none, '\n');
    assert(a + seq!['\n'] + none =~= a + seq!['\n']);
    assert(text::split(a, '\n') + seq![b] =~= text::split(a, '\n').push(b));
    assert(text::split(a, '\n') + seq![none] =~= text::split(a, '\n').push(none));
    assert(text::split(a, '\n').push(none).drop_last() =~= text::split(a, '\n'));
    assert(seq![none].drop_last() =~= Seq::<Seq<char>>::empty());
}

/// A preview shows the first hundred lines of a text, each without the spaces at
/// its end.
pub proof fn previews_show_the_first_lines(s: Seq<char>, i: int)
    requires
        0 <= i < lines(s).len(),
        i < 100,
    ensures
        preview_lines(s).len() == if lines(s).len() < 100 {
            lines(s).len()
        } else {
            100
        },
        preview_lines(s)[i].len() <= lines(s)[i].len(),
        preview_lines(s)[i] == lines(s)[i].take(preview_lines(s)[i].len() as int),
        preview_lines(s)[i].len() > 0 ==> !text::is_space(preview_lines(s)[i].last()),
        text::join(preview_lines(s), seq!['\n']).len() > 0 ==> preview_of(s) == text::join(
            preview_lines(s),
            seq!['\n'],
        ),
{
    text::strip_end_shape(lines(s)[i], CharSet::Space);
    reveal_strlit("\n");
    assert("\n"@ =~= seq!['\n']);
}

/// Applications join the results, within the limit, where they are wanted; all
/// that is shown was found. Where they are not, the results stay as they are.
pub proof fn applications_join_the_results(
    results: Seq<Row>,
    settings: GuiSettings,
    query: Seq<char>,
    catalog: Seq<crate::apps::App>,
    row: Row,
)
    ensures
        settings.content_mode || !settings.apps_mode ==> joined_by_apps(
            results,
            settings,
            query,
            catalog,
        ) == results,
        !settings.content_mode && settings.apps_mode ==> joined_by_apps(
            results,
            settings,
            query,
            catalog,
        ).len() <= settings.limit,
        joined_by_apps(results, settings, query, catalog).contains(row) ==> results.contains(row)
            || row.is_app,
        !row.is_app && results.contains(row) && results.len() + catalog.len() <= settings.limit
            ==> joined_by_apps(results, settings, query, catalog).contains(row),
{
    let apps = crate::apps::found_apps(
        catalog,
        text::trim(query),
        crate::apps::app_share(settings.limit) as nat,
        lower_paths(results),
    );
    let all = woven(results, apps);
    let shown = joined_by_apps(results, settings, query, catalog);
    if !settings.content_mode && settings.apps_mode {
        weaving_keeps_everything(results, apps);
        broadcast use vstd::seq_lib::group_to_multiset_ensures;

        crate::apps::applications_are_found(
            catalog,
            text::trim(query),
            crate::apps::app_share(settings.limit) as nat,
            lower_paths(results),
        );
        lemma_matching_len(catalog, text::trim(query), lower_paths(results));
        if shown.contains(row) {
            search::lemma_first_n(all, settings.limit as nat, row);
            assert(all.contains(row));
            assert(all.to_multiset().count(row) > 0);
            if !results.contains(row) {
                assert(results.to_multiset().count(row) == 0);
                assert(apps.to_multiset().count(row) > 0);
                assert(apps.contains(row));
                let k = choose|k: int| 0 <= k < apps.len() && apps[k] == row;
                assert(apps[k].is_app);
            }
        }
        if results.contains(row) && results.len() + catalog.len() <= settings.limit {
            assert(results.to_multiset().count(row) > 0);
            assert(all.to_multiset().count(row) > 0);
            assert(all.contains(row));
            assert(shown == all);
        }
    }
}

proof fn lemma_matching_len(
    apps: Seq<crate::apps::App>,
    query: Seq<char>,
    seen: Seq<Seq<char>>,
)
    ensures
        crate::apps::matching_apps(apps, query, seen).len() <= apps.len(),
    decreases apps.len(),
{
    if apps.len() > 0 {
        lemma_matching_len(apps.drop_last(), query, seen);
    }
}

/// The symbol of a file goes by its extension, in any case of its letters; that
/// of a directory is the same for all.
pub proof fn symbols_go_by_the_extension(stem: Seq<char>, ext: Seq<char>)
    requires
        path::plain_name(stem + seq!['.'] + ext),
        stem.len() > 0,
        !ext.contains('.'),
    ensures
        icon_key(stem + seq!['.'] + ext, false, false, false) == "file:"@ + text::lower(ext),
        icon_key(stem + seq!['.'] + ext, false, false, true) == "line:"@ + text::lower(ext),
        icon_key(stem + seq!['.'] + ext, false, true, false) == "app:"@ + text::lower(ext),
        icon_key(stem + seq!['.'] + ext, true, false, false) == "dir"@,
{
    path::extensions_stand_behind_the_last_dot(stem, ext);
}

/// The paths that are shown already are known in any case of their letters.
pub proof fn shown_paths_are_known_in_any_case(rows: Seq<Row>, path: Seq<char>)
    ensures
        lower_paths(rows).contains(text::lower(path)) <==> exists|i: int|
            0 <= i < rows.len() && (#[trigger] rows[i]).path.len() == path.len() && forall|k: int|
                0 <= k < path.len() ==> text::same_letter(rows[i].path[k], #[trigger] path[k]),
{
    let all = lower_paths(rows);
    if all.contains(text::lower(path)) {
        let i = choose|i: int| 0 <= i < all.len() && all[i] == text::lower(path);
        text::case_is_ignored(rows[i].path, path);
        assert forall|k: int| 0 <= k < path.len() implies text::same_letter(
            rows[i].path[k],
            #[trigger] path[k],
        ) by {
            assert(text::same_letter(rows[i].path[k], path[k]));
        }
        assert(rows[i].path.len() == path.len());
    }
    if exists|i: int|
        0 <= i < rows.len() && (#[trigger] rows[i]).path.len() == path.len() && forall|k: int|
            0 <= k < path.len() ==> text::same_letter(rows[i].path[k], #[trigger] path[k]) {
        let i = choose|i: int|
            0 <= i < rows.len() && (#[trigger] rows[i]).path.len() == path.len() && forall|k: int|
                0 <= k < path.len() ==> text::same_letter(rows[i].path[k], #[trigger] path[k]);
        let p = rows[i].path;
        assert forall|k: int| 0 <= k < p.len() implies text::same_letter(
            #[trigger] p[k],
            path[k],
        ) by {
            assert(text::same_letter(rows[i].path[k], path[k]));
        }
        text::case_is_ignored(p, path);
        assert(all[i] == text::lower(path));
    }
}

} // verus!
