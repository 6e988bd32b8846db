//! The applications of the machine: which files are applications, how they are
//! called, and which of them answer a query.

use vstd::prelude::*;
use crate::arena;
use crate::bytes;
use crate::order;
use crate::order::Key;
use crate::order::SortKey;
use crate::path;
use crate::text;
use crate::window;
use crate::window::GuiResult;

verus! {

/// An application: how it is called, and the file that starts it.
#[derive(Debug, Clone)]
pub struct AppEntry {
    pub display_name: String,
    pub launch_path: String,
}

/// The value of an [`AppEntry`].
pub struct App {
    pub display_name: Seq<char>,
    pub launch_path: Seq<char>,
}

impl View for AppEntry {
    type V = App;

    open spec fn view(&self) -> App {
        App { display_name: self.display_name@, launch_path: self.launch_path@ }
    }
}

/// The values of a list of applications.
pub open spec fn app_seq(v: Seq<AppEntry>) -> Seq<App> {
    Seq::new(v.len(), |i: int| v[i]@)
}

/// How long a catalog is used, in nanoseconds: ten minutes.
pub const APP_CATALOG_TTL_NANOS: u128 = 600_000_000_000;

// ---------------------------------------------------------------------------
// The catalog
// ---------------------------------------------------------------------------

/// The file starts an application, by its extension.
pub open spec fn is_app_file(path: Seq<char>) -> bool {
    match path::extension(path) {
        Some(x) => text::lower(x) == "lnk"@ || text::lower(x) == "appref-ms"@ || text::lower(x)
            == "exe"@,
        None => false,
    }
}

/// Whether a file starts an application.
pub fn should_include_app_file(path: &str) -> (r: bool)
    ensures
        r == is_app_file(path@),
{
    match path::extension_of(path) {
        Some(extension) => {
            let lower = text::to_lower(extension.as_str());
            let x = lower.as_str();
            text::same_text(x, "lnk") || text::same_text(x, "appref-ms") || text::same_text(
                x,
                "exe",
            )
        },
        None => false,
    }
}

/// How the application of a file is called: the name of the file without its
/// extension. What removes an application is none itself.
pub open spec fn app_name(path: Seq<char>) -> Option<Seq<char>> {
    match path::file_stem(path) {
        Some(stem) => {
            let name = text::trim(stem);
            if name.len() == 0 || text::starts_with(text::lower(name), "uninstall"@) {
                None
            } else {
                Some(name)
            }
        },
        None => None,
    }
}

/// How the application of a file is called.
pub fn app_display_name(path: &str) -> (r: Option<String>)
    ensures
        text::text_of(r) == app_name(path@),
{
    match path::stem_of(path) {
        Some(stem) => {
            let name = text::trimmed(stem.as_str());
            proof {
                text::byte_len_zero(name@);
            }
            if text::len_in_bytes(name.as_str()) == 0 || text::begins_with(
                text::to_lower(name.as_str()).as_str(),
                "uninstall",
            ) {
                None
            } else {
                Some(name)
            }
        },
        None => None,
    }
}

/// An application of the list is started by the file, in any case.
pub open spec fn has_path(apps: Seq<App>, path: Seq<char>) -> bool {
    exists|i: int|
        0 <= i < apps.len() && text::lower((#[trigger] apps[i]).launch_path) == text::lower(path)
}

/// The list with the application of a file, unless the file starts none or is
/// in the list.
pub open spec fn with_file(apps: Seq<App>, path: Seq<char>) -> Seq<App> {
    if is_app_file(path) && app_name(path) is Some && !has_path(apps, path) {
        apps.push(App { display_name: app_name(path)->0, launch_path: path })
    } else {
        apps
    }
}

/// Adds the application of a file to the list.
pub fn add_app_file(apps: &mut Vec<AppEntry>, path: &str)
    ensures
        app_seq(final(apps)@) == with_file(app_seq(old(apps)@), path@),
{
    if !should_include_app_file(path) {
        return;
    }
    let display_name = match app_display_name(path) {
        Some(name) => name,
        None => {
            return;
        },
    };
    let ghost had = app_seq(apps@);
    let mut i: usize = 0;
    while i < apps.len()
        invariant
            i <= apps@.len(),
            had == app_seq(apps@),
            had == app_seq(old(apps)@),
            forall|k: int|
                0 <= k < i ==> text::lower((#[trigger] had[k]).launch_path) != text::lower(path@),
        decreases apps@.len() - i,
    {
        if text::same_ignoring_case(apps[i].launch_path.as_str(), path) {
            assert(text::lower(had[i as int].launch_path) == text::lower(path@));
            return;
        }
        i += 1;
    }
    assert(!has_path(had, path@));
    let app = AppEntry { display_name, launch_path: text::copy_text(path) };
    let ghost one = app@;
    apps.push(app);
    assert(app_seq(apps@) =~= had.push(one));
}

/// No file starts two applications of the catalog.
pub proof fn catalog_has_no_duplicates(apps: Seq<App>, path: Seq<char>)
    requires
        forall|i: int, j: int|
            0 <= i < j < apps.len() ==> text::lower(#[trigger] apps[i].launch_path) != text::lower(
                #[trigger] apps[j].launch_path,
            ),
    ensures
        forall|i: int, j: int|
            0 <= i < j < with_file(apps, path).len() ==> text::lower(
                #[trigger] with_file(apps, path)[i].launch_path,
            ) != text::lower(#[trigger] with_file(apps, path)[j].launch_path),
{
    let after = with_file(apps, path);
    assert forall|i: int, j: int| 0 <= i < j < after.len() implies text::lower(
        #[trigger] after[i].launch_path,
    ) != text::lower(#[trigger] after[j].launch_path) by {
        assert(after[i] == apps[i]);
        if j < apps.len() {
            assert(after[j] == apps[j]);
        }
    }
}

/// The sort keys of applications by name, in any case.
pub open spec fn name_keys(apps: Seq<App>) -> Seq<Key> {
    Seq::new(
        apps.len(),
        |i: int|
            Key {
                group: 0,
                first: 0,
                second: 0,
                name: bytes::utf8(text::lower(apps[i].display_name)),
            },
    )
}

/// The applications by name, in any case.
pub open spec fn by_name(apps: Seq<App>) -> Seq<App> {
    Seq::new(apps.len(), |i: int| apps[order::order_of(name_keys(apps))[i]])
}

/// The applications by name, in any case.
pub fn sort_catalog(apps: &Vec<AppEntry>) -> (r: Vec<AppEntry>)
    ensures
        app_seq(r@) == by_name(app_seq(apps@)),
{
    let ghost all = app_seq(apps@);
    let mut keys: Vec<SortKey> = Vec::with_capacity(apps.len());
    let mut i: usize = 0;
    while i < apps.len()
        invariant
            i <= apps@.len() == all.len(),
            all == app_seq(apps@),
            keys@.len() == i,
            forall|k: int| 0 <= k < i ==> (#[trigger] keys@[k])@ == name_keys(all)[k],
        decreases apps@.len() - i,
    {
        let lower = text::to_lower(apps[i].display_name.as_str());
        keys.push(
            SortKey {
                group: 0,
                first: 0,
                second: 0,
                name: bytes::copy_bytes(lower.as_str().as_bytes()),
            },
        );
        i += 1;
    }
    assert(order::keys_of(keys@) =~= name_keys(all));
    let at = order::sorted_positions(&keys);
    let ghost places = Seq::new(at@.len(), |i: int| at@[i] as int);
    let mut r: Vec<AppEntry> = Vec::with_capacity(apps.len());
    let mut k: usize = 0;
    while k < at.len()
        invariant
            k <= at@.len() == all.len() == apps@.len(),
            all == app_seq(apps@),
            places == Seq::new(at@.len(), |i: int| at@[i] as int),
            places == order::order_of(name_keys(all)),
            forall|i: int| 0 <= i < at@.len() ==> #[trigger] at@[i] < apps@.len(),
            r@.len() == k,
            forall|j: int| 0 <= j < k ==> (#[trigger] r@[j])@ == by_name(all)[j],
        decreases at@.len() - k,
    {
        let app = &apps[at[k]];
        assert(places[k as int] == at@[k as int] as int);
        r.push(
            AppEntry {
                display_name: text::copy_text(app.display_name.as_str()),
                launch_path: text::copy_text(app.launch_path.as_str()),
            },
        );
        k += 1;
    }
    assert(app_seq(r@) =~= by_name(all));
    r
}

/// Whether a catalog is to be built: there is none, it is old, or it is empty.
pub fn catalog_is_stale(age_nanos: Option<u128>, entries: usize) -> (r: bool)
    ensures
        r == (age_nanos is None || age_nanos->0 >= APP_CATALOG_TTL_NANOS || entries == 0),
{
    match age_nanos {
        Some(age) => age >= APP_CATALOG_TTL_NANOS || entries == 0,
        None => true,
    }
}

// ---------------------------------------------------------------------------
// The search
// ---------------------------------------------------------------------------

/// The application answers the query: its name or its path holds it, in any
/// case, and its path is not shown already.
pub open spec fn app_matches(app: App, query: Seq<char>, seen: Seq<Seq<char>>) -> bool {
    &&& !seen.contains(text::lower(app.launch_path))
    &&& bytes::contains(bytes::utf8(text::lower(app.display_name)), bytes::utf8(text::lower(query)))
        || bytes::contains(
        bytes::utf8(text::lower(app.launch_path)),
        bytes::utf8(text::lower(query)),
    )
}

/// The applications that answer the query.
pub open spec fn matching_apps(apps: Seq<App>, query: Seq<char>, seen: Seq<Seq<char>>) -> Seq<App>
    decreases apps.len(),
{
    if apps.len() == 0 {
        seq![]
    } else if app_matches(apps.last(), query, seen) {
        matching_apps(apps.drop_last(), query, seen).push(apps.last())
    } else {
        matching_apps(apps.drop_last(), query, seen)
    }
}

/// What an application is ranked by: whether its name starts with the query,
/// how long its name is, and its path.
pub open spec fn app_key(app: App, query: Seq<char>) -> Key {
    Key {
        group: if text::starts_with(text::lower(app.display_name), text::lower(query)) {
            0
        } else {
            1
        },
        first: text::byte_len(app.display_name) as int,
        second: 0,
        name: bytes::utf8(app.launch_path),
    }
}

/// The sort keys of applications for a query.
pub open spec fn app_keys(apps: Seq<App>, query: Seq<char>) -> Seq<Key> {
    Seq::new(apps.len(), |i: int| app_key(apps[i], query))
}

/// The applications, the best answer first.
pub open spec fn best_first(apps: Seq<App>, query: Seq<char>) -> Seq<App> {
    Seq::new(apps.len(), |i: int| apps[order::order_of(app_keys(apps, query))[i]])
}

/// An application as a result.
pub open spec fn app_result(app: App) -> window::Row {
    window::Row {
        path: app.launch_path,
        is_directory: false,
        is_app: true,
        line_number: None,
        line_text: Some("App • "@ + app.display_name),
    }
}

/// Applications as results.
pub open spec fn app_results(apps: Seq<App>) -> Seq<window::Row> {
    Seq::new(apps.len(), |i: int| app_result(apps[i]))
}

/// What the search for applications gives: nothing for a query of less than
/// two characters, else the best answers up to the limit.
pub open spec fn found_apps(
    apps: Seq<App>,
    query: Seq<char>,
    limit: nat,
    seen: Seq<Seq<char>>,
) -> Seq<window::Row> {
    if text::trim(query).len() < 2 {
        seq![]
    } else {
        app_results(arena::first_n(best_first(matching_apps(apps, query, seen), query), limit))
    }
}

fn collect_matching(apps: &Vec<AppEntry>, query: &str, seen_paths: &Vec<String>) -> (r: Vec<
    AppEntry,
>)
    ensures
        app_seq(r@) == matching_apps(app_seq(apps@), query@, text::texts(seen_paths@)),
{
    let ghost all = app_seq(apps@);
    let lower_query = text::to_lower(query);
    let mut r: Vec<AppEntry> = Vec::new();
    let mut i: usize = 0;
    assert(all.take(0) =~= seq![]);
    assert(app_seq(r@) =~= seq![]);
    while i < apps.len()
        invariant
            i <= apps@.len() == all.len(),
            all == app_seq(apps@),
            lower_query@ == text::lower(query@),
            app_seq(r@) == matching_apps(
                all.take(i as int),
                query@,
                text::texts(seen_paths@),
            ),
        decreases apps@.len() - i,
    {
        let ghost had = app_seq(r@);
        let app = &apps[i];
        let lower_path = text::to_lower(app.launch_path.as_str());
        if !text::listed(seen_paths, lower_path.as_str()) && (bytes::holds_text(
            text::to_lower(app.display_name.as_str()).as_str(),
            lower_query.as_str(),
        ) || bytes::holds_text(lower_path.as_str(), lower_query.as_str())) {
            r.push(
                AppEntry {
                    display_name: text::copy_text(app.display_name.as_str()),
                    launch_path: text::copy_text(app.launch_path.as_str()),
                },
            );
            assert(app_seq(r@) =~= had.push(all[i as int]));
        }
        i += 1;
        assert(all.take(i as int).drop_last() =~= all.take(i - 1));
        assert(all.take(i as int).last() == all[i - 1]);
    }
    assert(all.take(i as int) =~= all);
    r
}

fn key_of(app: &AppEntry, lower_query: &str, Ghost(query): Ghost<Seq<char>>) -> (r: SortKey)
    requires
        lower_query@ == text::lower(query),
    ensures
        r@ == app_key(app@, query),
{
    let group: u8 = if text::begins_with(
        text::to_lower(app.display_name.as_str()).as_str(),
        lower_query,
    ) {
        0
    } else {
        1
    };
    SortKey {
        group,
        first: text::len_in_bytes(app.display_name.as_str()),
        second: 0,
        name: bytes::copy_bytes(app.launch_path.as_str().as_bytes()),
    }
}

/// The applications of the catalog that answer a query, the best answer first,
/// at most `limit` of them. Paths in `seen_paths`, which are in lower case, are
/// left out.
pub fn search_apps(
    query: &str,
    limit: usize,
    seen_paths: &Vec<String>,
    catalog: &Vec<AppEntry>,
) -> (r: Vec<GuiResult>)
    ensures
        window::row_seq(r@) == found_apps(
            app_seq(catalog@),
            query@,
            limit as nat,
            text::texts(seen_paths@),
        ),
{
    let mut r: Vec<GuiResult> = Vec::new();
    assert(window::row_seq(r@) =~= seq![]);
    if text::chars_of(text::trimmed(query).as_str()).len() < 2 {
        return r;
    }
    let apps = collect_matching(catalog, query, seen_paths);
    let ghost all = app_seq(apps@);
    let lower_query = text::to_lower(query);
    let mut keys: Vec<SortKey> = Vec::with_capacity(apps.len());
    let mut i: usize = 0;
    while i < apps.len()
        invariant
            i <= apps@.len() == all.len(),
            all == app_seq(apps@),
            lower_query@ == text::lower(query@),
            keys@.len() == i,
            forall|k: int| 0 <= k < i ==> (#[trigger] keys@[k])@ == app_key(all[k], query@),
        decreases apps@.len() - i,
    {
        keys.push(key_of(&apps[i], lower_query.as_str(), Ghost(query@)));
        i += 1;
    }
    assert(order::keys_of(keys@) =~= app_keys(all, query@));
    let at = order::sorted_positions(&keys);
    let ghost places = Seq::new(at@.len(), |i: int| at@[i] as int);
    let ghost want = best_first(all, query@);
    let mut k: usize = 0;
    assert(window::row_seq(r@) =~= app_results(want.take(0)));
    while k < at.len() && k < limit
        invariant
            k <= at@.len() == all.len() == apps@.len(),
            k <= limit,
            all == app_seq(apps@),
            want == best_first(all, query@),
            places == Seq::new(at@.len(), |i: int| at@[i] as int),
            places == order::order_of(app_keys(all, query@)),
            forall|i: int| 0 <= i < at@.len() ==> #[trigger] at@[i] < apps@.len(),
            window::row_seq(r@) == app_results(want.take(k as int)),
        decreases at@.len() - k,
    {
        let ghost had = window::row_seq(r@);
        let app = &apps[at[k]];
        assert(places[k as int] == at@[k as int] as int);
        assert(want[k as int] == app@);
        let mut line = text::copy_text("App • ");
        text::push_text(&mut line, app.display_name.as_str());
        let row = GuiResult {
            path: text::copy_text(app.launch_path.as_str()),
            is_directory: false,
            is_app: true,
            line_number: None,
            line_text: Some(line),
        };
        assert(row@ == app_result(app@));
        r.push(row);
        k += 1;
        assert(window::row_seq(r@) =~= had.push(app_result(want[k - 1])));
        assert(app_results(want.take(k as int)) =~= app_results(want.take(k - 1)).push(
            app_result(want[k - 1]),
        ));
    }
    assert(app_results(want.take(k as int)) =~= app_results(arena::first_n(want, limit as nat)));
    r
}

/// The number of applications that a search shows among other results.
pub open spec fn app_share(limit: usize) -> int {
    crate::settings::clamped(limit as int / 3, 3, 12)
}

/// The number of applications that a search shows: a third of the limit, from
/// three to twelve.
pub fn app_limit(limit: usize) -> (r: usize)
    ensures
        r == app_share(limit),
{
    let third = limit / 3;
    if third < 3 {
        3
    } else if third > 12 {
        12
    } else {
        third
    }
}

// ---------------------------------------------------------------------------
// Laws of the catalog and of its search
// ---------------------------------------------------------------------------

/// A file is an application by its extension, in any case of its letters.
pub proof fn applications_go_by_their_extension(stem: Seq<char>, ext: Seq<char>)
    requires
        path::plain_name(stem + seq!['.'] + ext),
        stem.len() > 0,
        !ext.contains('.'),
    ensures
        is_app_file(stem + seq!['.'] + ext) <==> text::lower(ext) == seq!['l', 'n', 'k']
            || text::lower(ext) == seq!['e', 'x', 'e'] || text::lower(ext) == seq![
            'a',
            'p',
            'p',
            'r',
            'e',
            'f',
            '-',
            'm',
            's',
        ],
{
    path::extensions_stand_behind_the_last_dot(stem, ext);
    reveal_strlit("lnk");
    reveal_strlit("exe");
    reveal_strlit("appref-ms");
    assert("lnk"@ =~= seq!['l', 'n', 'k']);
    assert("exe"@ =~= seq!['e', 'x', 'e']);
    assert("appref-ms"@ =~= seq!['a', 'p', 'p', 'r', 'e', 'f', '-', 'm', 's']);
}

/// An application is called by the name of its file without the extension and
/// without spaces around it, unless that is blank or starts with the word for
/// taking it away.
pub proof fn applications_are_called_by_their_file(
    before: Seq<char>,
    called: Seq<char>,
    behind: Seq<char>,
    ext: Seq<char>,
)
    requires
        path::plain_name(before + called + behind + seq!['.'] + ext),
        (before + called + behind).len() > 0,
        !ext.contains('.'),
        forall|i: int| 0 <= i < before.len() ==> text::is_space(#[trigger] before[i]),
        forall|i: int| 0 <= i < behind.len() ==> text::is_space(#[trigger] behind[i]),
        called.len() > 0 ==> !text::is_space(called[0]) && !text::is_space(called.last()),
    ensures
        called.len() == 0 ==> app_name(before + called + behind + seq!['.'] + ext) is None,
        called.len() > 0 && !(called.len() >= 9 && text::lower(called).take(9) == seq![
            'u',
            'n',
            'i',
            'n',
            's',
            't',
            'a',
            'l',
            'l',
        ]) ==> app_name(before + called + behind + seq!['.'] + ext) == Some(called),
        called.len() >= 9 && text::lower(called).take(9) == seq![
            'u',
            'n',
            'i',
            'n',
            's',
            't',
            'a',
            'l',
            'l',
        ] ==> app_name(before + called + behind + seq!['.'] + ext) is None,
{
    let stem = before + called + behind;
    path::extensions_stand_behind_the_last_dot(stem, ext);
    text::trimming_takes_the_spaces(before, called, behind);
    reveal_strlit("uninstall");
    assert("uninstall"@ =~= seq!['u', 'n', 'i', 'n', 's', 't', 'a', 'l', 'l']);
    if called.len() >= 9 {
        assert(text::lower(called).subrange(0, 9) =~= text::lower(called).take(9));
    }
}

/// A file joins the catalog at its end, under its path, where it is an
/// application with a name and no other has that path, in any case of its
/// letters.
pub proof fn applications_join_once(apps: Seq<App>, path: Seq<char>)
    ensures
        is_app_file(path) && app_name(path) is Some && (forall|i: int|
            0 <= i < apps.len() ==> text::lower((#[trigger] apps[i]).launch_path) != text::lower(
                path,
            )) ==> with_file(apps, path).drop_last() == apps && with_file(
            apps,
            path,
        ).last().launch_path == path && Some(with_file(apps, path).last().display_name)
            == app_name(path),
        !is_app_file(path) || app_name(path) is None || (exists|i: int|
            0 <= i < apps.len() && text::lower((#[trigger] apps[i]).launch_path) == text::lower(
                path,
            )) ==> with_file(apps, path) == apps,
{
    assert(apps.push(
        App { display_name: app_name(path)->0, launch_path: path },
    ).drop_last() =~= apps);
}

/// An application answers a query where its name or its path holds the query, in
/// any case of its letters, and its path is not among the results already.
pub proof fn applications_answer_by_name_or_path(app: App, query: Seq<char>, seen: Seq<Seq<char>>)
    ensures
        app_matches(app, query, seen) <==> (forall|i: int|
            0 <= i < seen.len() ==> #[trigger] seen[i] != text::lower(app.launch_path)) && ((
        exists|k: int| crate::search::stands_at(app.display_name, query, k)) || (exists|k: int|
            crate::search::stands_at(app.launch_path, query, k))),
{
    crate::search::texts_hold_texts_in_any_case(app.display_name, query);
    crate::search::texts_hold_texts_in_any_case(app.launch_path, query);
    if !seen.contains(text::lower(app.launch_path)) {
        assert forall|i: int| 0 <= i < seen.len() implies #[trigger] seen[i] != text::lower(
            app.launch_path,
        ) by {
            assert(seen.contains(seen[i]));
        }
    }
}

/// The applications that answer are those of the catalog that match.
pub proof fn matching_applications_are_kept(
    apps: Seq<App>,
    query: Seq<char>,
    seen: Seq<Seq<char>>,
    app: App,
)
    ensures
        matching_apps(apps, query, seen).contains(app) <==> apps.contains(app) && app_matches(
            app,
            query,
            seen,
        ),
    decreases apps.len(),
{
    let all = matching_apps(apps, query, seen);
    if apps.len() > 0 {
        let rest = apps.drop_last();
        let before = matching_apps(rest, query, seen);
        matching_applications_are_kept(rest, query, seen, app);
        if all.contains(app) {
            let k = choose|k: int| 0 <= k < all.len() && all[k] == app;
            if k < before.len() {
                assert(before[k] == app);
                assert(before.contains(app));
                let i = choose|i: int| 0 <= i < rest.len() && rest[i] == app;
                assert(apps[i] == app);
            } else {
                assert(apps[apps.len() - 1] == app);
            }
        }
        if apps.contains(app) && app_matches(app, query, seen) {
            let i = choose|i: int| 0 <= i < apps.len() && apps[i] == app;
            if i < rest.len() {
                assert(rest[i] == app);
                let k = choose|k: int| 0 <= k < before.len() && before[k] == app;
                assert(all[k] == app);
            } else {
                assert(all[before.len() as int] == app);
            }
        }
    }
}

/// Of two applications, the one whose name starts with the query comes first;
/// then the one with the shorter name; then the one whose path comes first.
pub proof fn better_applications_come_first(a: App, b: App, query: Seq<char>)
    ensures
        ({
            let q = text::lower(query);
            let x = text::starts_with(text::lower(a.display_name), q);
            let y = text::starts_with(text::lower(b.display_name), q);
            let m = bytes::utf8(a.display_name).len();
            let n = bytes::utf8(b.display_name).len();
            &&& x && !y ==> order::key_less(app_key(a, query), app_key(b, query))
            &&& x == y && m < n ==> order::key_less(app_key(a, query), app_key(b, query))
            &&& x == y && m == n && bytes::precedes(
                bytes::utf8(a.launch_path),
                bytes::utf8(b.launch_path),
            ) ==> order::key_less(app_key(a, query), app_key(b, query))
        }),
{
}

/// The sorted applications are the same ones, the better before the worse.
pub proof fn sorting_applications_loses_none(apps: Seq<App>, query: Seq<char>)
    ensures
        best_first(apps, query).len() == apps.len(),
        forall|app: App| #[trigger]
            best_first(apps, query).contains(app) <==> apps.contains(app),
        forall|i: int, j: int|
            0 <= i < j < apps.len() ==> !order::key_less(
                app_key(#[trigger] best_first(apps, query)[j], query),
                app_key(#[trigger] best_first(apps, query)[i], query),
            ),
{
    let keys = app_keys(apps, query);
    let at = order::order_of(keys);
    let r = best_first(apps, query);
    order::order_of_is_order(keys);
    assert forall|app: App| #[trigger] r.contains(app) <==> apps.contains(app) by {
        if r.contains(app) {
            let i = choose|i: int| 0 <= i < r.len() && r[i] == app;
            assert(at.contains(at[i]));
            assert(apps[at[i]] == app);
        }
        if apps.contains(app) {
            let k = choose|k: int| 0 <= k < apps.len() && apps[k] == app;
            assert(at.contains(k));
            let i = choose|i: int| 0 <= i < at.len() && at[i] == k;
            assert(r[i] == app);
        }
    }
    assert forall|i: int, j: int| 0 <= i < j < apps.len() implies !order::key_less(
        app_key(#[trigger] r[j], query),
        app_key(#[trigger] r[i], query),
    ) by {
        assert(order::item_before(keys, at[i], at[j]));
        assert(at.contains(at[i]) && at.contains(at[j]));
        order::key_order_is_total(keys[at[i]], keys[at[j]]);
    }
}

/// The catalog is sorted by the names, in any case of their letters, and loses
/// none.
pub proof fn catalog_is_sorted_by_name(apps: Seq<App>)
    ensures
        by_name(apps).len() == apps.len(),
        forall|app: App| #[trigger] by_name(apps).contains(app) <==> apps.contains(app),
        forall|i: int, j: int|
            0 <= i < j < apps.len() ==> !bytes::precedes(
                bytes::utf8(text::lower(#[trigger] by_name(apps)[j].display_name)),
                bytes::utf8(text::lower(#[trigger] by_name(apps)[i].display_name)),
            ),
{
    let keys = name_keys(apps);
    let at = order::order_of(keys);
    let r = by_name(apps);
    order::order_of_is_order(keys);
    assert forall|app: App| #[trigger] r.contains(app) <==> apps.contains(app) by {
        if r.contains(app) {
            let i = choose|i: int| 0 <= i < r.len() && r[i] == app;
            assert(at.contains(at[i]));
            assert(apps[at[i]] == app);
        }
        if apps.contains(app) {
            let k = choose|k: int| 0 <= k < apps.len() && apps[k] == app;
            assert(at.contains(k));
            let i = choose|i: int| 0 <= i < at.len() && at[i] == k;
            assert(r[i] == app);
        }
    }
    assert forall|i: int, j: int| 0 <= i < j < apps.len() implies !bytes::precedes(
        bytes::utf8(text::lower(#[trigger] r[j].display_name)),
        bytes::utf8(text::lower(#[trigger] r[i].display_name)),
    ) by {
        assert(order::item_before(keys, at[i], at[j]));
        assert(at.contains(at[i]) && at.contains(at[j]));
        order::key_order_is_total(keys[at[i]], keys[at[j]]);
        bytes::precedes_is_total(keys[at[i]].name, keys[at[j]].name);
    }
}

/// A query of two characters or more finds applications: as many as there is
/// room for, or all that match; each is opened by its path.
pub proof fn applications_are_found(
    apps: Seq<App>,
    query: Seq<char>,
    limit: nat,
    seen: Seq<Seq<char>>,
)
    ensures
        ({
            let r = found_apps(apps, query, limit, seen);
            let all = matching_apps(apps, query, seen);
            &&& text::trim(query).len() < 2 ==> r.len() == 0
            &&& text::trim(query).len() >= 2 ==> r.len() == if all.len() < limit {
                all.len()
            } else {
                limit
            }
            &&& forall|i: int|
                0 <= i < r.len() ==> (#[trigger] r[i]).is_app && !r[i].is_directory
                    && r[i].line_number is None && r[i].path == best_first(
                    all,
                    query,
                )[i].launch_path
        }),
{
}

/// Applications take a third of the results, but no fewer than three and no more
/// than twelve.
pub proof fn applications_take_their_share(limit: usize)
    ensures
        limit < 9 ==> app_share(limit) == 3,
        limit > 36 ==> app_share(limit) == 12,
        9 <= limit <= 36 ==> app_share(limit) == limit as int / 3,
{
}

/// An application is shown with its name.
pub proof fn applications_are_shown_by_name(app: App)
    ensures
        app_result(app).path == app.launch_path,
        app_result(app).line_text matches Some(line) && line.len() == 6 + app.display_name.len()
            && line.skip(6) == app.display_name && line[0] == 'A' && line[1] == 'p' && line[2]
            == 'p',
{
    reveal_strlit("App • ");
    let line = "App • "@ + app.display_name;
    assert(line.skip(6) =~= app.display_name);
}

} // verus!
