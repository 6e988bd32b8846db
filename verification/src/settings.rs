//! The settings of the window.

use vstd::prelude::*;
use crate::numbers;
use crate::path;
use crate::text;
use crate::text::CharSet;

verus! {

/// What the user has set.
#[derive(Debug, Clone)]
pub struct GuiSettings {
    pub under_dir: Option<String>,
    pub extension: Option<String>,
    pub files_only: bool,
    pub directories_only: bool,
    pub limit: usize,
    pub debounce_ms: u64,
    pub content_mode: bool,
    pub fuzzy_mode: bool,
    pub apps_mode: bool,
    pub theme_auto: bool,
    pub light_theme: bool,
}

/// The value of [`GuiSettings`].
pub struct Settings {
    pub under_dir: Option<Seq<char>>,
    pub extension: Option<Seq<char>>,
    pub files_only: bool,
    pub directories_only: bool,
    pub limit: usize,
    pub debounce_ms: u64,
    pub content_mode: bool,
    pub fuzzy_mode: bool,
    pub apps_mode: bool,
    pub theme_auto: bool,
    pub light_theme: bool,
}

impl View for GuiSettings {
    type V = Settings;

    open spec fn view(&self) -> Settings {
        Settings {
            under_dir: text::text_of(self.under_dir),
            extension: text::text_of(self.extension),
            files_only: self.files_only,
            directories_only: self.directories_only,
            limit: self.limit,
            debounce_ms: self.debounce_ms,
            content_mode: self.content_mode,
            fuzzy_mode: self.fuzzy_mode,
            apps_mode: self.apps_mode,
            theme_auto: self.theme_auto,
            light_theme: self.light_theme,
        }
    }
}

impl Default for GuiSettings {
    fn default() -> (r: GuiSettings)
        ensures
            r@ == (Settings {
                under_dir: None,
                extension: None,
                files_only: false,
                directories_only: false,
                limit: 200,
                debounce_ms: 10,
                content_mode: false,
                fuzzy_mode: false,
                apps_mode: true,
                theme_auto: true,
                light_theme: false,
            }),
    {
        GuiSettings {
            under_dir: None,
            extension: None,
            files_only: false,
            directories_only: false,
            limit: 200,
            debounce_ms: 10,
            content_mode: false,
            fuzzy_mode: false,
            apps_mode: true,
            theme_auto: true,
            light_theme: false,
        }
    }
}

/// A text without the space around it; none where nothing is left.
pub open spec fn optional(s: Seq<char>) -> Option<Seq<char>> {
    if text::trim(s).len() == 0 {
        None
    } else {
        Some(text::trim(s))
    }
}

/// A text without the space around it; none where nothing is left.
pub fn normalize_optional_text(input: &str) -> (r: Option<String>)
    ensures
        text::text_of(r) == optional(input@),
{
    let trimmed = text::trimmed(input);
    proof {
        text::byte_len_zero(trimmed@);
    }
    if text::len_in_bytes(trimmed.as_str()) == 0 {
        None
    } else {
        Some(trimmed)
    }
}

/// The value within the bounds.
pub open spec fn clamped(n: int, low: int, high: int) -> int {
    if n < low {
        low
    } else if n > high {
        high
    } else {
        n
    }
}

/// Settings as they are used: no blank filters, the extension in lower case
/// and without its dot, the numbers within their bounds, and not both files
/// only and directories only.
pub open spec fn sanitized(s: Settings) -> Settings {
    Settings {
        under_dir: match s.under_dir {
            Some(dir) => optional(dir),
            None => None,
        },
        extension: crate::content::wanted_extension(s.extension),
        directories_only: s.directories_only && !s.files_only,
        limit: clamped(s.limit as int, 10, 1000) as usize,
        debounce_ms: clamped(s.debounce_ms as int, 0, 500) as u64,
        ..s
    }
}

/// Makes the settings fit for use.
pub fn sanitize_settings(settings: &mut GuiSettings)
    ensures
        final(settings)@ == sanitized(old(settings)@),
{
    settings.under_dir = match &settings.under_dir {
        Some(dir) => normalize_optional_text(dir.as_str()),
        None => None,
    };
    settings.extension = crate::content::normalized_extension(&settings.extension);
    if settings.limit < 10 {
        settings.limit = 10;
    } else if settings.limit > 1000 {
        settings.limit = 1000;
    }
    if settings.debounce_ms > 500 {
        settings.debounce_ms = 500;
    }
    if settings.files_only && settings.directories_only {
        settings.directories_only = false;
    }
}

/// The extension that is left without its dots.
pub open spec fn undotted(extension: Seq<char>) -> Seq<char> {
    text::strip_start(text::trim(extension), CharSet::One('.'))
}

/// Settings that are fit for use stay as they are, unless a space stands
/// between the dot and the letters of the extension.
pub proof fn sanitizing_is_final(s: Settings)
    requires
        s.extension is Some && undotted(s.extension->0).len() > 0 ==> !text::is_space(
            undotted(s.extension->0)[0],
        ),
    ensures
        sanitized(sanitized(s)) == sanitized(s),
{
    if let Some(dir) = s.under_dir {
        text::trim_is_idempotent(dir);
    }
    if let Some(x) = s.extension {
        let t = text::trim(x);
        let u = text::strip_start(t, CharSet::One('.'));
        let w = text::lower(u);
        text::trim_shape(x);
        text::strip_start_shape(t, CharSet::One('.'));
        text::lowered_is_trimmed(t, u);
        assert(text::strip_start(w, CharSet::One('.')) == w);
        assert(text::lower(w) =~= w);
    }
}

/// The words of the line that sums the settings up.
pub open spec fn hint(s: Settings) -> Seq<char> {
    "search="@ + (if s.content_mode {
        "content"@
    } else {
        "name"@
    }) + " scope="@ + (match s.under_dir {
        Some(dir) => dir,
        None => "all"@,
    }) + " ext="@ + (match s.extension {
        Some(x) => x,
        None => "*"@,
    }) + " mode="@ + (if s.files_only {
        "files"@
    } else if s.directories_only {
        "folders"@
    } else {
        "all"@
    }) + " fuzzy="@ + (if s.fuzzy_mode {
        "on"@
    } else {
        "off"@
    }) + " apps="@ + (if s.apps_mode {
        "on"@
    } else {
        "off"@
    }) + " theme="@ + (if s.theme_auto {
        "auto"@
    } else if s.light_theme {
        "light"@
    } else {
        "dark"@
    }) + " limit="@ + numbers::decimal(s.limit as nat) + " debounce="@ + numbers::decimal(
        s.debounce_ms as nat,
    ) + "ms"@
}

/// The line that sums the settings up.
pub fn settings_hint(settings: &GuiSettings) -> (r: String)
    ensures
        r@ == hint(settings@),
{
    let mut s = text::copy_text("search=");
    text::push_text(
        &mut s,
        if settings.content_mode {
            "content"
        } else {
            "name"
        },
    );
    text::push_text(&mut s, " scope=");
    text::push_text(
        &mut s,
        match &settings.under_dir {
            Some(dir) => dir.as_str(),
            None => "all",
        },
    );
    text::push_text(&mut s, " ext=");
    text::push_text(
        &mut s,
        match &settings.extension {
            Some(x) => x.as_str(),
            None => "*",
        },
    );
    text::push_text(&mut s, " mode=");
    text::push_text(
        &mut s,
        if settings.files_only {
            "files"
        } else if settings.directories_only {
            "folders"
        } else {
            "all"
        },
    );
    text::push_text(&mut s, " fuzzy=");
    text::push_text(
        &mut s,
        if settings.fuzzy_mode {
            "on"
        } else {
            "off"
        },
    );
    text::push_text(&mut s, " apps=");
    text::push_text(
        &mut s,
        if settings.apps_mode {
            "on"
        } else {
            "off"
        },
    );
    text::push_text(&mut s, " theme=");
    text::push_text(
        &mut s,
        if settings.theme_auto {
            "auto"
        } else if settings.light_theme {
            "light"
        } else {
            "dark"
        },
    );
    text::push_text(&mut s, " limit=");
    text::push_text(&mut s, numbers::number_text(settings.limit as u128).as_str());
    text::push_text(&mut s, " debounce=");
    text::push_text(&mut s, numbers::number_text(settings.debounce_ms as u128).as_str());
    text::push_text(&mut s, "ms");
    s
}

/// A character that an extension may hold.
pub open spec fn extension_char(c: char) -> bool {
    text::is_ascii_letter(c) || text::is_digit(c) || c == '_' || c == '-'
}

/// What is wrong with the settings.
#[derive(Debug, Clone, Copy, PartialEq, Eq, Structural)]
pub enum SettingsFault {
    /// The extension holds another character than letters, digits, `_` and
    /// `-`.
    Extension,
    /// Both files only and directories only are set.
    FilesAndFolders,
}

/// What is wrong with the settings.
pub open spec fn fault_of(s: Settings) -> Option<SettingsFault> {
    if s.extension is Some && exists|i: int|
        0 <= i < s.extension->0.len() && !extension_char(#[trigger] s.extension->0[i]) {
        Some(SettingsFault::Extension)
    } else if s.files_only && s.directories_only {
        Some(SettingsFault::FilesAndFolders)
    } else {
        None
    }
}

/// What is wrong with the settings.
pub fn find_fault(settings: &GuiSettings) -> (r: Option<SettingsFault>)
    ensures
        r == fault_of(settings@),
{
    if let Some(extension) = &settings.extension {
        let v = text::chars_of(extension.as_str());
        let mut i: usize = 0;
        while i < v.len()
            invariant
                i <= v@.len(),
                v@ == extension@,
                Some(extension@) == settings@.extension,
                forall|k: int| 0 <= k < i ==> extension_char(#[trigger] v@[k]),
            decreases v@.len() - i,
        {
            let c = v[i];
            let allowed = (c >= 'a' && c <= 'z') || (c >= 'A' && c <= 'Z') || (c >= '0' && c <= '9')
                || c == '_' || c == '-';
            if !allowed {
                assert(!extension_char(settings@.extension->0[i as int]));
                return Some(SettingsFault::Extension);
            }
            i += 1;
        }
        assert(forall|k: int|
            0 <= k < settings@.extension->0.len() ==> extension_char(
                #[trigger] settings@.extension->0[k],
            ));
    }
    if settings.files_only && settings.directories_only {
        return Some(SettingsFault::FilesAndFolders);
    }
    None
}

/// What the user is told of a fault.
pub open spec fn fault_text(fault: SettingsFault) -> Seq<char> {
    match fault {
        SettingsFault::Extension => "Extension filter only allows letters, numbers, '_' and '-'."@,
        SettingsFault::FilesAndFolders => "Choose either Files only or Folders only."@,
    }
}

/// What the user is told where something is wrong with the settings.
pub fn validate_settings(settings: &GuiSettings) -> (r: Option<String>)
    ensures
        text::text_of(r) == match fault_of(settings@) {
            Some(fault) => Some(fault_text(fault)),
            None => None,
        },
{
    match find_fault(settings) {
        Some(fault) => Some(fault.message()),
        None => None,
    }
}

impl SettingsFault {
    /// What the user is told of the fault.
    pub fn message(self) -> (r: String)
        ensures
            r@ == fault_text(self),
    {
        match self {
            SettingsFault::Extension => text::copy_text(
                "Extension filter only allows letters, numbers, '_' and '-'.",
            ),
            SettingsFault::FilesAndFolders => text::copy_text(
                "Choose either Files only or Folders only.",
            ),
        }
    }
}

/// Settings that are fit for use never have both files only and directories
/// only.
pub proof fn sanitized_settings_choose(s: Settings)
    ensures
        fault_of(sanitized(s)) != Some(SettingsFault::FilesAndFolders),
{
}

/// Settings whose theme is that of the system, where they leave it to the
/// system.
pub open spec fn themed(s: Settings, system_is_light: bool) -> Settings {
    Settings {
        light_theme: if s.theme_auto {
            system_is_light
        } else {
            s.light_theme
        },
        ..s
    }
}

/// Makes settings fit for use, with the theme of the system where they leave it
/// to the system.
fn prepare(settings: &mut GuiSettings, system_is_light: bool)
    ensures
        final(settings)@ == themed(sanitized(old(settings)@), system_is_light),
{
    sanitize_settings(settings);
    if settings.theme_auto {
        settings.light_theme = system_is_light;
    }
}

/// The settings that are kept when the user saves a form: made fit for use, or
/// what is wrong with them.
pub fn settings_to_keep(form: GuiSettings, system_is_light: bool) -> (r: Result<
    GuiSettings,
    SettingsFault,
>)
    ensures
        match fault_of(themed(sanitized(form@), system_is_light)) {
            Some(fault) => r == Err::<GuiSettings, SettingsFault>(fault),
            None => r matches Ok(s) && s@ == themed(sanitized(form@), system_is_light),
        },
{
    let mut next = form;
    prepare(&mut next, system_is_light);
    match find_fault(&next) {
        Some(fault) => Err(fault),
        None => Ok(next),
    }
}

/// How long the window waits after a key, in milliseconds.
pub fn debounce_delay(settings: &GuiSettings) -> (r: u64)
    ensures
        r == if settings.content_mode && settings.debounce_ms < 500 {
            500
        } else {
            settings.debounce_ms
        },
{
    if settings.content_mode && settings.debounce_ms < 500 {
        500
    } else {
        settings.debounce_ms
    }
}

/// A number from a form: no less than zero.
pub fn form_number(n: i32) -> (r: u32)
    ensures
        r == if n < 0 {
            0
        } else {
            n as int
        },
{
    if n < 0 {
        0
    } else {
        n as u32
    }
}

// ---------------------------------------------------------------------------
// Start
// ---------------------------------------------------------------------------

/// The file name of a path as a query.
pub fn file_name_query(path: &str) -> (r: Option<String>)
    ensures
        text::text_of(r) == path::file_name(path@),
{
    path::name_of(path)
}

/// Sets the scope and the query to what was opened: a directory is the scope;
/// of a file, its directory is the scope and its name the query, unless there
/// is one.
pub fn apply_open_context(
    open_path: &str,
    is_dir: bool,
    under_dir: &mut Option<String>,
    query: &mut Option<String>,
)
    ensures
        text::text_of(*final(under_dir)) == if is_dir {
            Some(open_path@)
        } else if path::parent(open_path@) is Some {
            path::parent(open_path@)
        } else {
            text::text_of(*old(under_dir))
        },
        text::text_of(*final(query)) == if !is_dir && *old(query) is None {
            path::file_name(open_path@)
        } else {
            text::text_of(*old(query))
        },
{
    if is_dir {
        *under_dir = Some(text::copy_text(open_path));
        return;
    }
    if let Some(parent) = path::parent_of(open_path) {
        *under_dir = Some(parent);
    }
    if query.is_none() {
        *query = file_name_query(open_path);
    }
}

/// What the window is started with.
#[derive(Debug, Clone)]
pub struct Startup {
    /// The folder to search in.
    pub under: Option<String>,
    /// What was opened, and whether it is a directory.
    pub open: Option<(String, bool)>,
    pub query: Option<String>,
    pub limit: Option<usize>,
    pub debounce_ms: Option<u64>,
}

/// The scope that the window starts with: what was opened decides, then the
/// folder that was asked for, then the settings.
pub open spec fn start_scope(s: Settings, start: Startup) -> Option<Seq<char>> {
    let asked = match start.under {
        Some(under) => optional(under@),
        None => s.under_dir,
    };
    match start.open {
        Some((path, is_dir)) => if is_dir {
            Some(path@)
        } else if path::parent(path@) is Some {
            path::parent(path@)
        } else {
            asked
        },
        None => asked,
    }
}

/// The query that the window starts with: the one that was asked for, or the
/// name of the file that was opened.
pub open spec fn start_query(start: Startup) -> Option<Seq<char>> {
    match (start.query, start.open) {
        (Some(query), _) => Some(query@),
        (None, Some((path, is_dir))) => if is_dir {
            None
        } else {
            path::file_name(path@)
        },
        (None, None) => None,
    }
}

/// Settings with what the window is started with.
pub open spec fn started(s: Settings, start: Startup) -> Settings {
    Settings {
        under_dir: start_scope(s, start),
        limit: match start.limit {
            Some(limit) => limit,
            None => s.limit,
        },
        debounce_ms: match start.debounce_ms {
            Some(ms) => ms,
            None => s.debounce_ms,
        },
        ..s
    }
}

/// Applies what the window is started with to the settings, makes them fit for
/// use, and gives the query to start with.
pub fn start_window(settings: &mut GuiSettings, start: &Startup, system_is_light: bool) -> (r:
    Option<String>)
    ensures
        final(settings)@ == themed(sanitized(started(old(settings)@, *start)), system_is_light),
        text::text_of(r) == start_query(*start),
{
    let mut query = text::copy_option(&start.query);
    if let Some(under) = &start.under {
        settings.under_dir = normalize_optional_text(under.as_str());
    }
    if let Some((path, is_dir)) = &start.open {
        apply_open_context(path.as_str(), *is_dir, &mut settings.under_dir, &mut query);
    }
    if let Some(limit) = start.limit {
        settings.limit = limit;
    }
    if let Some(ms) = start.debounce_ms {
        settings.debounce_ms = ms;
    }
    prepare(settings, system_is_light);
    query
}

/// Settings are tidied within their bounds: between ten and a thousand results,
/// no more than half a second of waiting, never files only and directories only
/// at once. What lies within them stays, as do the switches.
pub proof fn sanitizing_keeps_what_is_in_bounds(s: Settings)
    ensures
        10 <= s.limit <= 1000 ==> sanitized(s).limit == s.limit,
        s.limit < 10 ==> sanitized(s).limit == 10,
        s.limit > 1000 ==> sanitized(s).limit == 1000,
        s.debounce_ms <= 500 ==> sanitized(s).debounce_ms == s.debounce_ms,
        s.debounce_ms > 500 ==> sanitized(s).debounce_ms == 500,
        sanitized(s).files_only == s.files_only,
        !s.files_only ==> sanitized(s).directories_only == s.directories_only,
        s.files_only ==> !sanitized(s).directories_only,
        sanitized(s).content_mode == s.content_mode,
        sanitized(s).fuzzy_mode == s.fuzzy_mode,
        sanitized(s).apps_mode == s.apps_mode,
        sanitized(s).theme_auto == s.theme_auto,
        sanitized(s).light_theme == s.light_theme,
        s.under_dir is None ==> sanitized(s).under_dir is None,
        s.extension is None ==> sanitized(s).extension is None,
{
}

/// A folder keeps its path without the spaces around it; a blank one is none.
pub proof fn folders_are_trimmed(
    s: Settings,
    before: Seq<char>,
    dir: Seq<char>,
    behind: Seq<char>,
)
    requires
        s.under_dir == Some(before + dir + behind),
        forall|i: int| 0 <= i < before.len() ==> text::is_space(#[trigger] before[i]),
        forall|i: int| 0 <= i < behind.len() ==> text::is_space(#[trigger] behind[i]),
        dir.len() > 0 ==> !text::is_space(dir[0]) && !text::is_space(dir.last()),
    ensures
        dir.len() > 0 ==> sanitized(s).under_dir == Some(dir),
        dir.len() == 0 ==> sanitized(s).under_dir is None,
{
    text::trimming_takes_the_spaces(before, dir, behind);
}

/// Settings are in order where the extension is made of letters, digits, `_` and
/// `-`, and not both files only and directories only are set.
pub proof fn faults_are_found(s: Settings)
    ensures
        fault_of(s) is None <==> !(s.files_only && s.directories_only) && (
        s.extension matches Some(x) ==> forall|i: int|
            0 <= i < x.len() ==> 'a' <= #[trigger] x[i] <= 'z' || 'A' <= x[i] <= 'Z' || '0' <= x[i]
                <= '9' || x[i] == '_' || x[i] == '-'),
{
    if let Some(x) = s.extension {
        if forall|i: int|
            0 <= i < x.len() ==> 'a' <= #[trigger] x[i] <= 'z' || 'A' <= x[i] <= 'Z' || '0' <= x[i]
                <= '9' || x[i] == '_' || x[i] == '-' {
            assert forall|i: int| 0 <= i < x.len() implies extension_char(#[trigger] x[i]) by {}
        }
        if fault_of(s) is None {
            assert forall|i: int| 0 <= i < x.len() implies 'a' <= #[trigger] x[i] <= 'z' || 'A'
                <= x[i] <= 'Z' || '0' <= x[i] <= '9' || x[i] == '_' || x[i] == '-' by {
                assert(extension_char(s.extension->0[i]));
            }
        }
    }
}

/// The theme follows the system where it is asked to, and nothing else changes.
pub proof fn themes_follow_the_system(s: Settings, system_is_light: bool)
    ensures
        s.theme_auto ==> themed(s, system_is_light).light_theme == system_is_light,
        !s.theme_auto ==> themed(s, system_is_light) == s,
        (Settings { light_theme: s.light_theme, ..themed(s, system_is_light) }) == s,
{
}

/// A window starts in the folder that was opened, or in that of the file that was
/// opened, which is then sought; else in the folder that is asked for.
pub proof fn windows_start_where_asked(s: Settings, start: Startup)
    ensures
        start.open matches Some((path, true)) ==> started(s, start).under_dir == Some(path@),
        start.open matches Some((path, false)) ==> path::parent(path@) is Some ==> started(
            s,
            start,
        ).under_dir == path::parent(path@),
        start.open is None && start.under is None ==> started(s, start).under_dir == s.under_dir,
        start.open is None && start.under is Some ==> started(s, start).under_dir == optional(
            start.under->0@,
        ),
        start.limit is None ==> started(s, start).limit == s.limit,
        start.limit matches Some(n) ==> started(s, start).limit == n,
        start.debounce_ms is None ==> started(s, start).debounce_ms == s.debounce_ms,
        start.debounce_ms matches Some(n) ==> started(s, start).debounce_ms == n,
        started(s, start).extension == s.extension,
        started(s, start).content_mode == s.content_mode,
        started(s, start).files_only == s.files_only,
        started(s, start).directories_only == s.directories_only,
        start.query matches Some(q) ==> start_query(start) == Some(q@),
        start.query is None && start.open is None ==> start_query(start) is None,
        start.query is None ==> (start.open matches Some((path, false)) ==> start_query(start)
            == path::file_name(path@)),
{
}

/// An extension is kept without spaces and dots before it, in lower case; a blank
/// one is none.
pub proof fn extensions_are_sanitized(
    s: Settings,
    before: Seq<char>,
    dots: Seq<char>,
    ext: Seq<char>,
    behind: Seq<char>,
)
    requires
        s.extension == Some(before + (dots + ext) + behind),
        forall|i: int| 0 <= i < before.len() ==> text::is_space(#[trigger] before[i]),
        forall|i: int| 0 <= i < dots.len() ==> #[trigger] dots[i] == '.',
        forall|i: int| 0 <= i < behind.len() ==> text::is_space(#[trigger] behind[i]),
        ext.len() > 0 ==> ext[0] != '.' && !text::is_space(ext[0]) && !text::is_space(ext.last()),
    ensures
        ext.len() > 0 ==> sanitized(s).extension == Some(text::lower(ext)),
        ext.len() == 0 ==> sanitized(s).extension is None,
{
    crate::content::extensions_are_tidied(before, dots, ext, behind);
}

} // verus!
