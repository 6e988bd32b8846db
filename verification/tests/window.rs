use rayo::apps::{
    add_app_file, app_display_name, app_limit, catalog_is_stale, search_apps,
    should_include_app_file, sort_catalog, AppEntry,
};
use rayo::content::ContentMatch;
use rayo::numbers::{number_text, parse_number};
use rayo::search::SearchResult;
use rayo::settings::{
    apply_open_context, debounce_delay, file_name_query, find_fault, form_number,
    normalize_optional_text, sanitize_settings, settings_hint, settings_to_keep, start_window,
    validate_settings, GuiSettings, SettingsFault, Startup,
};
use rayo::setup::{
    build_service_task_command, default_background_data_dir, default_background_log_path,
    elevation_command, escape_single_quotes, first_existing,
    gui_exe_candidates, install_arguments, service_exe_candidates, shell_entries,
};
use rayo::updates::{
    check_is_recent, check_result, parse_semver, update_notice, version_is_newer, UpdateCheckState,
};
use rayo::window::{
    after_service, failure_payload, fallback_content_options, fallback_options, fallback_source, icon_cache_key, idle_status, interleave_app_results,
    is_image_path, message_payload, preview_bytes, preview_text, preview_title, result_payload,
    row_of, rows_of_hits, rows_of_lines, seen_paths, selected_path, service_request,
    starting_payload, wants_apps, why_idle, with_apps, GuiResult, Idle,
    NextSource,
};

#[test]
fn own_index_is_read_only_without_an_answer() {
    assert_eq!(after_service(None), NextSource::LoadIndex);
    assert_eq!(after_service(Some(true)), NextSource::Starting);
    assert_eq!(after_service(Some(false)), NextSource::Show);
}

fn plain(path: &str) -> GuiResult {
    GuiResult {
        path: path.to_string(),
        is_directory: false,
        is_app: false,
        line_number: None,
        line_text: None,
    }
}

fn app(name: &str, path: &str) -> AppEntry {
    AppEntry { display_name: name.to_string(), launch_path: path.to_string() }
}

fn shown(rows: &[GuiResult]) -> Vec<&str> {
    rows.iter().map(|r| r.path.as_str()).collect()
}

#[test]
fn settings_are_sanitized() {
    let mut s = GuiSettings::default();
    assert_eq!((s.limit, s.debounce_ms, s.apps_mode, s.theme_auto), (200, 10, true, true));
    s.under_dir = Some("  ".to_string());
    s.extension = Some(" .PDF".to_string());
    s.files_only = true;
    s.directories_only = true;
    s.limit = 5;
    s.debounce_ms = 900;
    sanitize_settings(&mut s);
    assert_eq!(s.under_dir, None);
    assert_eq!(s.extension.as_deref(), Some("pdf"));
    assert!(s.files_only && !s.directories_only);
    assert_eq!((s.limit, s.debounce_ms), (10, 500));
    s.limit = 5000;
    s.under_dir = Some(" C:\\x ".to_string());
    sanitize_settings(&mut s);
    assert_eq!(s.limit, 1000);
    assert_eq!(s.under_dir.as_deref(), Some("C:\\x"));
}

#[test]
fn sanitizing_twice_matters_for_a_space_behind_the_dot() {
    let mut s = GuiSettings::default();
    s.extension = Some(". a".to_string());
    sanitize_settings(&mut s);
    assert_eq!(s.extension.as_deref(), Some(" a"));
    sanitize_settings(&mut s);
    assert_eq!(s.extension.as_deref(), Some("a"));
}

#[test]
fn settings_are_validated() {
    let mut s = GuiSettings::default();
    assert_eq!(validate_settings(&s), None);
    s.extension = Some("tar.gz".to_string());
    assert_eq!(find_fault(&s), Some(SettingsFault::Extension));
    assert_eq!(
        validate_settings(&s).as_deref(),
        Some("Extension filter only allows letters, numbers, '_' and '-'.")
    );
    s.extension = Some("a_b-9".to_string());
    s.files_only = true;
    s.directories_only = true;
    assert_eq!(find_fault(&s), Some(SettingsFault::FilesAndFolders));
    assert_eq!(
        validate_settings(&s).as_deref(),
        Some("Choose either Files only or Folders only.")
    );
}

#[test]
fn settings_are_summed_up() {
    let mut s = GuiSettings::default();
    assert_eq!(
        settings_hint(&s),
        "search=name scope=all ext=* mode=all fuzzy=off apps=on theme=auto limit=200 debounce=10ms"
    );
    s.content_mode = true;
    s.under_dir = Some("C:\\x".to_string());
    s.extension = Some("rs".to_string());
    s.directories_only = true;
    s.fuzzy_mode = true;
    s.apps_mode = false;
    s.theme_auto = false;
    assert_eq!(
        settings_hint(&s),
        "search=content scope=C:\\x ext=rs mode=folders fuzzy=on apps=off theme=dark limit=200 debounce=10ms"
    );
    assert_eq!(debounce_delay(&s), 500);
    s.content_mode = false;
    assert_eq!(debounce_delay(&s), 10);
    assert_eq!((form_number(-3), form_number(7)), (0, 7));
}

#[test]
fn opened_paths_set_the_context() {
    let mut under = None;
    let mut query = None;
    apply_open_context("C:\\docs", true, &mut under, &mut query);
    assert_eq!((under.as_deref(), query.as_deref()), (Some("C:\\docs"), None));
    apply_open_context("C:\\docs\\a.txt", false, &mut under, &mut query);
    assert_eq!((under.as_deref(), query.as_deref()), (Some("C:\\docs"), Some("a.txt")));
    apply_open_context("C:\\", false, &mut under, &mut query);
    assert_eq!((under.as_deref(), query.as_deref()), (Some("C:\\docs"), Some("a.txt")));
    assert_eq!(file_name_query("x\\y").as_deref(), Some("y"));
    assert_eq!(normalize_optional_text(" a "), Some("a".to_string()));
    assert_eq!(normalize_optional_text("\t"), None);
}

#[test]
fn versions_are_compared() {
    assert_eq!(parse_semver(" v1.2.x.+4 "), vec![1, 2, 0, 4]);
    assert_eq!(parse_semver(""), vec![0]);
    assert_eq!(parse_semver("18446744073709551616"), vec![0]);
    assert!(version_is_newer("0.1.8", "0.1.7"));
    assert!(version_is_newer("v0.1.10", "0.1.9"));
    assert!(version_is_newer("1", "0.9.9"));
    assert!(!version_is_newer("0.1", "0.1.0"));
    assert!(!version_is_newer("0.1.7", "0.1.7"));
    assert!(!version_is_newer("0.1.7", "0.2"));
}

#[test]
fn updates_are_noticed() {
    let state = UpdateCheckState::default();
    assert!(!check_is_recent(&state, 100));
    let found = check_result(Some(" V0.2.0 "), 1_000_000);
    assert_eq!(found.latest_version.as_deref(), Some("0.2.0"));
    assert!(check_is_recent(&found, 1_000_000 + 86_399));
    assert!(!check_is_recent(&found, 1_000_000 + 86_400));
    assert_eq!(
        update_notice(&found.latest_version, "0.1.7").as_deref(),
        Some("Update available: 0.2.0. Run installer script.")
    );
    assert_eq!(update_notice(&found.latest_version, "0.2"), None);
    assert_eq!(update_notice(&None, "0.2"), None);
    assert_eq!(check_result(Some(" v"), 1).latest_version, None);
    assert_eq!(check_result(None, 1).latest_version, None);
}

#[test]
fn numbers_are_read_and_written() {
    assert_eq!(number_text(0), "0");
    assert_eq!(number_text(u128::MAX), u128::MAX.to_string());
    assert_eq!(parse_number("0042"), Some(42));
    assert_eq!(parse_number("18446744073709551615"), Some(u64::MAX));
    for bad in ["", "+", "-1", "1a", " 1", "18446744073709551616"] {
        assert_eq!(parse_number(bad), None);
    }
    assert_eq!(parse_number(&number_text(90210)), Some(90210));
}

#[test]
fn catalog_holds_each_application_once() {
    let mut apps = Vec::new();
    add_app_file(&mut apps, "C:\\m\\Zed.lnk");
    add_app_file(&mut apps, "C:\\M\\zed.LNK");
    add_app_file(&mut apps, "C:\\m\\Uninstall Zed.lnk");
    add_app_file(&mut apps, "C:\\m\\readme.txt");
    add_app_file(&mut apps, "C:\\m\\Alpha.exe");
    add_app_file(&mut apps, "C:\\m\\beta.appref-ms");
    let sorted = sort_catalog(&apps);
    let names: Vec<&str> = sorted.iter().map(|a| a.display_name.as_str()).collect();
    assert_eq!(names, vec!["Alpha", "beta", "Zed"]);
    assert!(should_include_app_file("x.EXE"));
    assert!(!should_include_app_file("x"));
    assert_eq!(app_display_name("C:\\ .lnk").as_deref(), None);
    assert!(catalog_is_stale(None, 3));
    assert!(catalog_is_stale(Some(600_000_000_000), 3));
    assert!(catalog_is_stale(Some(1), 0));
    assert!(!catalog_is_stale(Some(1), 3));
}

#[test]
fn applications_are_searched() {
    let catalog = vec![
        app("My Code", "C:\\m\\my.lnk"),
        app("Code", "C:\\m\\b.lnk"),
        app("Code", "C:\\m\\a.lnk"),
        app("Other", "C:\\code\\o.lnk"),
        app("Codex", "C:\\m\\seen.lnk"),
    ];
    let seen = vec!["c:\\m\\seen.lnk".to_string()];
    let rows = search_apps("code", 10, &seen, &catalog);
    assert_eq!(shown(&rows), vec!["C:\\m\\a.lnk", "C:\\m\\b.lnk", "C:\\code\\o.lnk", "C:\\m\\my.lnk"]);
    assert_eq!(rows[0].line_text.as_deref(), Some("App \u{2022} Code"));
    assert!(rows[0].is_app);
    assert_eq!(search_apps("code", 1, &seen, &catalog).len(), 1);
    assert!(search_apps(" c ", 10, &seen, &catalog).is_empty());
    assert!(search_apps("code", 0, &seen, &catalog).is_empty());
    assert_eq!((app_limit(3), app_limit(20), app_limit(900)), (3, 6, 12));
}

#[test]
fn applications_stand_between_results() {
    let base: Vec<GuiResult> = ["1", "2", "3", "4", "5"].iter().map(|p| plain(p)).collect();
    let apps: Vec<GuiResult> = ["a", "b"].iter().map(|p| plain(p)).collect();
    assert_eq!(
        shown(&interleave_app_results(&base, &apps, 10)),
        vec!["1", "2", "a", "3", "4", "b", "5"]
    );
    assert_eq!(shown(&interleave_app_results(&base, &apps, 3)), vec!["1", "2", "a"]);
    assert_eq!(shown(&interleave_app_results(&base, &apps, 1)), vec!["1"]);
    assert_eq!(shown(&interleave_app_results(&base, &Vec::new(), 2)), vec!["1", "2"]);
    assert_eq!(shown(&interleave_app_results(&Vec::new(), &apps, 9)), vec!["a", "b"]);
    assert_eq!(seen_paths(&vec![plain("C:\\A")]), vec!["c:\\a"]);
}

#[test]
fn applications_join_name_results_only() {
    let mut s = GuiSettings::default();
    let catalog = vec![app("Code", "C:\\m\\code.lnk")];
    let rows = with_apps(vec![plain("C:\\x")], &s, " code ", &catalog);
    assert_eq!(shown(&rows), vec!["C:\\x", "C:\\m\\code.lnk"]);
    assert!(wants_apps(&s, " code ") && wants_apps(&s, "co") && !wants_apps(&s, " c "));
    assert_eq!(shown(&with_apps(vec![plain("C:\\x")], &s, " c ", &catalog)), vec!["C:\\x"]);
    s.apps_mode = false;
    assert!(!wants_apps(&s, "code"));
    assert_eq!(with_apps(vec![plain("C:\\x")], &s, "code", &catalog).len(), 1);
    s.apps_mode = true;
    s.content_mode = true;
    assert!(!wants_apps(&s, "code"));
    assert_eq!(with_apps(vec![plain("C:\\x")], &s, "code", &catalog).len(), 1);
}

#[test]
fn window_waits_for_a_query() {
    let mut s = GuiSettings::default();
    assert_eq!(why_idle(&s, " a "), Some(Idle::TooShort));
    assert_eq!(why_idle(&s, "\u{e9}\u{e9}"), None);
    s.content_mode = true;
    assert_eq!(why_idle(&s, "abc"), Some(Idle::NeedsScope));
    s.under_dir = Some("C:\\x".to_string());
    assert_eq!(why_idle(&s, ""), None);
    assert_eq!(idle_status(Idle::NeedsScope), "Content mode needs scope folder in Settings.");
    assert_eq!(idle_status(Idle::TooShort), "Type at least 2 characters to search.");
}

#[test]
fn window_asks_for_what_is_set() {
    let mut s = GuiSettings::default();
    s.extension = Some("rs".to_string());
    s.files_only = true;
    let r = service_request(&s, " main ");
    assert_eq!(r.query, "main");
    assert_eq!(r.mode.as_deref(), Some("name"));
    assert_eq!((r.timeout_ms, r.limit), (None, Some(200)));
    assert!(r.files_only && !r.directories_only && !r.metrics && r.glob.is_none());
    assert!(!r.fuzzy);
    s.fuzzy_mode = true;
    assert!(service_request(&s, "main").fuzzy);
    s.content_mode = true;
    let r = service_request(&s, "main");
    assert_eq!(r.mode.as_deref(), Some("content"));
    assert_eq!(r.effective_timeout_ms(), 3000);
    let o = fallback_options(&s, " main");
    assert_eq!((o.query.as_str(), o.limit, o.prefer_trigram), ("main", 200, false));
    let c = fallback_content_options(&s, "main ");
    assert_eq!((c.query.as_str(), c.timeout_nanos), ("main", 3_000_000_000));
}

#[test]
fn rows_show_their_kind() {
    let row = row_of(&plain("C:\\d\\a.txt"));
    assert_eq!((row.kind.as_str(), row.name.as_str(), row.subtitle.as_str()), ("FILE", "a.txt", "C:\\d\\a.txt"));
    let mut dir = plain("C:\\");
    dir.is_directory = true;
    let row = row_of(&dir);
    assert_eq!((row.kind.as_str(), row.name.as_str()), ("DIR", "C:\\"));
    let mut line = plain("a.rs");
    line.line_number = Some(12);
    line.line_text = Some("  let x;  ".to_string());
    let row = row_of(&line);
    assert_eq!((row.kind.as_str(), row.subtitle.as_str()), ("LINE", "a.rs:12  let x;"));
    assert!(row.line_match);
    line.line_text = Some("  ".to_string());
    assert_eq!(row_of(&line).subtitle, "a.rs:12  <empty>");
    let mut program = plain("a.lnk");
    program.is_app = true;
    assert_eq!(row_of(&program).subtitle, "App \u{2022} a.lnk");
    program.line_text = Some("App \u{2022} A".to_string());
    let row = row_of(&program);
    assert_eq!((row.kind.as_str(), row.subtitle.as_str()), ("APP", "App \u{2022} A"));
}

#[test]
fn payloads_say_what_was_found() {
    let hits = vec![SearchResult { frn: 1, path: "C:\\a".to_string(), is_directory: true }];
    let lines = vec![ContentMatch { path: "b".to_string(), line_number: 2, line_text: "t".to_string() }];
    let mut rows = rows_of_hits(&hits);
    rows.append(&mut rows_of_lines(&lines));
    let payload = result_payload(&rows, 15, 600, "service");
    assert_eq!(payload.status_text, "2 results in 15 ms");
    assert_eq!(payload.mode_text, "service | indexed=600");
    assert_eq!(payload.paths, vec!["C:\\a", "b"]);
    assert_eq!(payload.rows[0].kind, "DIR");
    assert_eq!(payload.rows[1].kind, "LINE");
    let starting = starting_payload(Some(9));
    assert_eq!(starting.status_text, "Service starting... indexed=9");
    assert_eq!(starting.mode_text, "service (starting)");
    assert_eq!(starting_payload(None).status_text, "Service starting... indexed=0");
    let message = message_payload("hm".to_string(), "idle");
    assert!(message.rows.is_empty() && message.mode_text == "idle");
    assert_eq!(selected_path(1, &payload.paths).as_deref(), Some("b"));
    assert_eq!(selected_path(-1, &payload.paths), None);
    assert_eq!(selected_path(2, &payload.paths), None);
}

#[test]
fn icons_are_kept_by_kind() {
    assert_eq!(icon_cache_key("a.LNK", false, true, false), "app:lnk");
    assert_eq!(icon_cache_key("a", true, true, false), "app:app");
    assert_eq!(icon_cache_key("a.txt", true, false, true), "dir");
    assert_eq!(icon_cache_key("a.RS", false, false, true), "line:rs");
    assert_eq!(icon_cache_key("a", false, false, true), "line:line");
    assert_eq!(icon_cache_key("a", false, false, false), "file:file");
    assert_eq!(icon_cache_key("a.Md", false, false, false), "file:md");
}

#[test]
fn previews_show_text() {
    assert_eq!(preview_title("C:\\d\\a.txt"), "a.txt");
    assert_eq!(preview_title("C:\\"), "C:\\");
    assert!(is_image_path("a.JPeG") && !is_image_path("a.txt") && !is_image_path("a"));
    assert_eq!(preview_bytes(b"one  \r\ntwo\n\n", "p"), "one\ntwo\n");
    assert_eq!(preview_bytes(b"", "p"), "<empty file>");
    assert_eq!(preview_bytes(b"\n", "p"), "<empty file>");
    assert_eq!(preview_bytes(b"a\0b", "p"), "Binary file preview not available.\np");
    assert_eq!(preview_bytes(b"a\xffb", "p"), "a\u{fffd}b");
    let long: String = (0..150).map(|i| format!("{i}\n")).collect();
    let shown_text = preview_text(&long);
    assert_eq!(shown_text.lines().count(), 100);
    assert!(shown_text.ends_with("\n99"));
}

#[test]
fn commands_are_quoted() {
    assert_eq!(escape_single_quotes("it's"), "it''s");
    let args = vec!["service".to_string(), "a'b".to_string()];
    assert_eq!(
        elevation_command("C:\\r'a.exe", &args),
        "Start-Process -FilePath 'C:\\r''a.exe' -ArgumentList @('service', 'a''b') -Verb RunAs -Wait"
    );
    assert_eq!(
        build_service_task_command("s.exe", "C:,D:", &Some("i.rayo".to_string()), "l.log", " "),
        "\"s.exe\" --drives C:,D: --index \"i.rayo\" --log-file \"l.log\""
    );
    assert_eq!(
        build_service_task_command("s.exe", "auto", &Some("i".to_string()), "l", "C:\\\"x\""),
        "\"s.exe\" --drives auto --index \"i\" --log-file \"l\" --exclude \"C:\\x\""
    );
    assert_eq!(
        build_service_task_command("s.exe", "C:", &None, "l.log", ""),
        "\"s.exe\" --drives C: --log-file \"l.log\""
    );
    let some = |text: &str| Some(text.to_string());
    assert_eq!(
        install_arguments("C", &some("s"), &None, &some("l"), &some("e")),
        vec!["service", "install", "--drives", "C", "--service-exe", "s", "--log-file", "l", "--exclude", "e"]
    );
}

#[test]
fn programs_are_looked_for() {
    let some = |text: &str| Some(text.to_string());
    let list = service_exe_candidates(&some("C:\\L"), &some("C:\\bin"));
    assert_eq!(
        list,
        vec![
            "C:\\L\\Rayo\\rayo-service.exe",
            "C:\\bin\\rayo-service.exe",
            "target\\release\\rayo-service.exe",
            "target\\debug\\rayo-service.exe",
        ]
    );
    assert_eq!(service_exe_candidates(&None, &None).len(), 2);
    assert_eq!(gui_exe_candidates("C:\\bin")[0], "C:\\bin\\rayo-gui.exe");
    assert_eq!(
        first_existing(&list, &vec![false, true, true, false]).as_deref(),
        Some("C:\\bin\\rayo-service.exe")
    );
    assert_eq!(first_existing(&list, &vec![false; 4]), None);
    assert_eq!(default_background_data_dir(&None), "C:\\ProgramData\\Rayo");
    assert_eq!(default_background_data_dir(&some("D:\\P")), "D:\\P\\Rayo");
    assert_eq!(default_background_log_path(&None), "C:\\ProgramData\\Rayo\\service.log");
}

#[test]
fn menu_entries_start_the_window() {
    let entries = shell_entries("C:\\r.exe");
    assert_eq!(entries.len(), 3);
    assert_eq!(entries[0].command, "\"C:\\r.exe\" --under \"%1\"");
    assert_eq!(entries[1].command, "\"C:\\r.exe\" --under \"%V\"");
    assert_eq!(entries[2].command, "\"C:\\r.exe\" --open \"%1\"");
    assert_eq!(entries[2].key, "Software\\Classes\\*\\shell\\RayoSearch");
}

#[test]
fn failures_are_shown() {
    let p = failure_payload("no pipe", false, "no file");
    assert_eq!(p.status_text, "Service unavailable (no pipe). Fallback failed: no file");
    assert_eq!(p.mode_text, "error");
    assert!(p.rows.is_empty() && p.paths.is_empty());
    let p = failure_payload("no pipe", true, "bad");
    assert_eq!(p.status_text, "Service unavailable (no pipe). Content fallback failed: bad");
    assert_eq!(fallback_source(false, "x"), "fallback (x)");
    assert_eq!(fallback_source(true, "x"), "fallback-content (x)");
}

#[test]
fn saved_settings_are_fit_for_use() {
    let mut form = GuiSettings::default();
    form.extension = Some(" .RS ".to_string());
    form.limit = 5;
    form.files_only = true;
    form.directories_only = true;
    let kept = settings_to_keep(form.clone(), true).unwrap();
    assert_eq!((kept.extension.as_deref(), kept.limit), (Some("rs"), 10));
    assert!(kept.files_only && !kept.directories_only && kept.light_theme);
    form.theme_auto = false;
    assert!(!settings_to_keep(form.clone(), true).unwrap().light_theme);
    form.extension = Some("r*".to_string());
    assert_eq!(settings_to_keep(form, true).unwrap_err(), SettingsFault::Extension);
    assert_eq!(
        SettingsFault::FilesAndFolders.message(),
        "Choose either Files only or Folders only."
    );
}

#[test]
fn the_window_starts_where_it_was_opened() {
    let mut start = Startup {
        under: Some(" D:\\x ".to_string()),
        open: None,
        query: None,
        limit: Some(5000),
        debounce_ms: Some(7),
    };
    let mut settings = GuiSettings::default();
    assert_eq!(start_window(&mut settings, &start, false), None);
    assert_eq!(settings.under_dir.as_deref(), Some("D:\\x"));
    assert_eq!((settings.limit, settings.debounce_ms), (1000, 7));

    start.open = Some(("C:\\docs\\a.txt".to_string(), false));
    assert_eq!(start_window(&mut settings, &start, true).as_deref(), Some("a.txt"));
    assert_eq!(settings.under_dir.as_deref(), Some("C:\\docs"));
    assert!(settings.light_theme);

    start.open = Some(("C:\\docs".to_string(), true));
    assert_eq!(start_window(&mut settings, &start, true), None);
    assert_eq!(settings.under_dir.as_deref(), Some("C:\\docs"));

    start.query = Some("q".to_string());
    start.open = Some(("C:\\docs\\a.txt".to_string(), false));
    assert_eq!(start_window(&mut settings, &start, true).as_deref(), Some("q"));
}
