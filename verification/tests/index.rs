use std::collections::HashMap;

use rayo::arena::SearchArena;
use rayo::entry::{FileEntry, JournalBatch, JournalChange, MftSnapshot};
use rayo::index::{is_ntfs_root_reference, FileIndex};
use rayo::ntfs::VolumeError;
use rayo::search::{
    build_under_matcher, finish_search, rank_rows, GlobPattern, SearchOptions, SearchResult,
};
use rayo::trigram::{trigrams_from_lower, TrigramIndex};

fn entry(frn: u64, parent_frn: u64, name: &str, attributes: u32) -> FileEntry {
    FileEntry { frn, parent_frn, name: name.to_string(), attributes }
}

fn index_of(list: Vec<FileEntry>) -> FileIndex {
    let mut entries = HashMap::new();
    for item in list {
        entries.insert(item.frn, item);
    }
    let mut index = FileIndex {
        drive: "C:".to_string(),
        entries,
        journal_id: 1,
        next_usn: 0,
        indexed_at_epoch_secs: 0,
        search_arena: SearchArena::default(),
        trigram_index: None,
    };
    index.rebuild_search_arena();
    index
}

fn query(text: &str) -> SearchOptions {
    SearchOptions {
        query: text.to_string(),
        extension: None,
        under_dir: None,
        glob: None,
        directories_only: false,
        files_only: false,
        limit: 10,
        prefer_trigram: false,
    }
}

fn paths(results: &[SearchResult]) -> Vec<String> {
    results.iter().map(|item| item.path.clone()).collect()
}

#[test]
fn search_arena_tombstones_and_upserts() {
    let original = entry(10, 5, "report.txt", 0);
    let replacement = entry(10, 5, "report-final.txt", 0);

    let mut arena = SearchArena::default();
    arena.upsert_entry(&original);
    assert_eq!(arena.candidate_frns("report", 10), vec![10]);

    arena.delete_frn(10);
    assert!(arena.candidate_frns("report", 10).is_empty());

    arena.upsert_entry(&replacement);
    assert_eq!(arena.candidate_frns("final", 10), vec![10]);
}

#[test]
fn search_arena_does_not_match_across_name_boundary() {
    let mut arena = SearchArena::default();
    arena.upsert_entry(&entry(1, 1, "abc", 0));
    arena.upsert_entry(&entry(2, 1, "def", 0));

    assert!(arena.candidate_frns("cd", 10).is_empty());
}

#[test]
fn resolve_and_filter_search() {
    let index = index_of(vec![
        entry(1, 1, "\\", 0x10),
        entry(2, 1, "src", 0x10),
        entry(3, 2, "main.rs", 0),
    ]);

    let results = index.search(&SearchOptions {
        query: "main".to_string(),
        extension: Some("rs".to_string()),
        under_dir: Some("C:\\src".to_string()),
        glob: Some("**/*.rs".to_string()),
        directories_only: false,
        files_only: true,
        limit: 10,
        prefer_trigram: false,
    });

    assert_eq!(results.len(), 1);
    assert_eq!(results[0].path, "C:\\src\\main.rs");
}

#[test]
fn resolve_path_without_root_record() {
    let index = index_of(vec![entry(2, 5, "src", 0x10), entry(3, 2, "main.rs", 0)]);

    assert_eq!(index.resolve_path(3), Some("C:\\src\\main.rs".to_string()));
}

#[test]
fn under_filter_matches_directory_boundary() {
    let index = index_of(vec![
        entry(1, 1, "\\", 0x10),
        entry(2, 1, "src", 0x10),
        entry(3, 2, "main.rs", 0),
        entry(4, 1, "src2", 0x10),
        entry(5, 4, "main.rs", 0),
    ]);

    let results = index.search(&SearchOptions {
        query: "main".to_string(),
        extension: None,
        under_dir: Some("C:\\src".to_string()),
        glob: None,
        directories_only: false,
        files_only: true,
        limit: 10,
        prefer_trigram: false,
    });

    assert_eq!(results.len(), 1);
    assert_eq!(results[0].path, "C:\\src\\main.rs");
}

#[test]
fn trigram_mode_finds_expected_match() {
    let mut index = index_of(vec![
        entry(1, 1, "\\", 0x10),
        entry(2, 1, "Reports", 0x10),
        entry(3, 2, "ticket_report_2026.pdf", 0),
    ]);
    index.set_trigram_enabled(true);

    let results = index.search(&SearchOptions {
        query: "report".to_string(),
        extension: Some("pdf".to_string()),
        under_dir: Some("C:\\Reports".to_string()),
        glob: None,
        directories_only: false,
        files_only: true,
        limit: 10,
        prefer_trigram: true,
    });

    assert_eq!(results.len(), 1);
    assert_eq!(results[0].path, "C:\\Reports\\ticket_report_2026.pdf");
}

#[test]
fn arena_keeps_order_limit_and_life() {
    let list: Vec<FileEntry> =
        (0..3000u64).map(|i| entry(i + 10, 5, &format!("File{i}.TXT"), 0)).collect();
    let refs: Vec<&FileEntry> = list.iter().collect();
    let mut arena = SearchArena::from_entries(&refs);
    assert_eq!(arena.live_slots(), 3000);
    assert_eq!(arena.candidate_frns("file299", 100), vec![309, 3000, 3001, 3002, 3003, 3004, 3005, 3006, 3007, 3008, 3009]);
    assert_eq!(arena.candidate_frns(".txt", 4), vec![10, 11, 12, 13]);
    assert_eq!(arena.candidate_frns("", 3), vec![10, 11, 12]);
    assert!(arena.candidate_frns("file", 0).is_empty());
    assert!(arena.candidate_frns("1\0", 10).is_empty());
    assert!(arena.candidate_frns("t\0file", 10).is_empty());
    arena.delete_frn(11);
    assert_eq!(arena.candidate_frns(".txt", 3), vec![10, 12, 13]);
    assert_eq!(arena.candidate_frns("", 3), vec![10, 12, 13]);
    assert_eq!(arena.live_slots(), 2999);
    assert!(!arena.should_compact());
    for frn in 12..312 {
        arena.delete_frn(frn);
    }
    assert!(arena.should_compact());
    arena.delete_frn(999_999);
    assert_eq!(arena.live_slots(), 2699);
}

#[test]
fn small_arena_is_never_compacted() {
    let mut arena = SearchArena::default();
    for frn in 0..1023u64 {
        arena.append_entry(&entry(frn, 5, "a", 0));
    }
    for frn in 0..1023u64 {
        arena.delete_frn(frn);
    }
    assert!(!arena.should_compact());
    assert_eq!(arena.live_slots(), 0);
}

#[test]
fn trigrams_are_listed_once() {
    let gram = |a: u8, b: u8, c: u8| ((a as u32) << 16) | ((b as u32) << 8) | c as u32;
    assert_eq!(trigrams_from_lower("abab"), vec![gram(b'a', b'b', b'a'), gram(b'b', b'a', b'b')]);
    assert_eq!(trigrams_from_lower("aaaa"), vec![gram(b'a', b'a', b'a')]);
    assert!(trigrams_from_lower("ab").is_empty());
    assert!(trigrams_from_lower("a\0bc").is_empty());
}

#[test]
fn trigram_candidates_are_ascending_and_cut() {
    let list = vec![
        entry(9, 5, "report", 0),
        entry(3, 5, "REPORTING", 0),
        entry(7, 5, "repo", 0),
        entry(5, 5, "other", 0),
    ];
    let refs: Vec<&FileEntry> = list.iter().collect();
    let index = TrigramIndex::from_entries(&refs);
    assert_eq!(index.query_candidates("report", 10), vec![3, 9]);
    assert_eq!(index.query_candidates("rep", 10), vec![3, 7, 9]);
    assert_eq!(index.query_candidates("rep", 2), vec![3, 7]);
    assert!(index.query_candidates("rep", 0).is_empty());
    assert!(index.query_candidates("xyz", 10).is_empty());
    assert!(index.query_candidates("re", 10).is_empty());
}

#[test]
fn trigram_search_gives_only_names_with_the_query() {
    let mut index = index_of(vec![entry(20, 5, "abcdefgh-bcdefghi", 0), entry(21, 5, "abcdefghi", 0)]);
    index.set_trigram_enabled(true);
    let mut options = query("abcdefghi");
    options.prefer_trigram = true;
    assert_eq!(paths(&index.search(&options)), vec!["C:\\abcdefghi"]);
    options.prefer_trigram = false;
    assert_eq!(paths(&index.search(&options)), vec!["C:\\abcdefghi"]);

    let mut index = index_of(vec![entry(10, 5, "aaa.txt", 0)]);
    index.set_trigram_enabled(true);
    let mut options = query("aaaaaaaa");
    options.prefer_trigram = true;
    assert!(index.search(&options).is_empty());
}

fn many() -> Vec<FileEntry> {
    vec![
        entry(20, 5, "Reports", 0x10),
        entry(21, 20, "quarterly-report.PDF", 0),
        entry(22, 20, "old quarterly-report.pdf", 0),
        entry(23, 5, "quarterly.pdf", 0),
        entry(24, 5, "xquarterly-report", 0x10),
    ]
}

#[test]
fn trigrams_change_no_result() {
    let mut index = index_of(many());
    index.set_trigram_enabled(true);
    for text in ["quarterly-report", "QUARTERLY", "old quart", "quarterly-reports", "report.pdf"] {
        let mut options = query(text);
        let plain = paths(&index.search(&options));
        options.prefer_trigram = true;
        assert_eq!(paths(&index.search(&options)), plain);
    }
}

#[test]
fn spelling_changes_no_result() {
    let index = index_of(many());
    let mut options = query("quarterly");
    options.extension = Some("pdf".to_string());
    options.under_dir = Some("C:\\Reports".to_string());
    let wanted = paths(&index.search(&options));
    assert_eq!(
        wanted,
        vec!["C:\\Reports\\quarterly-report.PDF", "C:\\Reports\\old quarterly-report.pdf"]
    );
    for (text, extension, dir) in [
        ("QUARTERLY", ".PDF", "c:/reports"),
        ("Quarterly", "..Pdf", "C:\\REPORTS\\"),
        ("quarterly", "pdf", " C:/Reports/ "),
    ] {
        let mut other = query(text);
        other.extension = Some(extension.to_string());
        other.under_dir = Some(dir.to_string());
        assert_eq!(paths(&index.search(&other)), wanted);
    }
    let mut drive = query("quarterly.");
    drive.under_dir = Some("c:".to_string());
    let found = paths(&index.search(&drive));
    drive.under_dir = Some("C:\\".to_string());
    assert_eq!(paths(&index.search(&drive)), found);
    assert_eq!(found, vec!["C:\\quarterly.pdf"]);
}

#[test]
fn journal_is_as_good_as_building_anew() {
    for trigram in [false, true] {
        let mut index = index_of(many());
        index.set_trigram_enabled(trigram);
        let batch = JournalBatch {
            events: vec![
                JournalChange::Upsert(entry(21, 20, "quarterly-report-final.pdf", 0)),
                JournalChange::Delete(22),
                JournalChange::Upsert(entry(30, 5, "quarterly-report.txt", 0)),
            ],
            next_usn: 9,
            journal_id: 1,
        };
        assert_eq!(index.apply_journal_changes(Ok(batch)).ok(), Some(3));
        let mut options = query("quarterly-report");
        options.prefer_trigram = trigram;
        let found = paths(&index.search(&options));
        index.rebuild_search_arena();
        index.set_trigram_enabled(trigram);
        assert_eq!(paths(&index.search(&options)), found);
        assert_eq!(
            found,
            vec![
                "C:\\quarterly-report.txt",
                "C:\\Reports\\quarterly-report-final.pdf",
                "C:\\xquarterly-report"
            ]
        );
    }
}

#[test]
fn switching_trigrams_leaves_plain_searches() {
    let mut index = index_of(many());
    let before = paths(&index.search(&query("quarterly")));
    index.set_trigram_enabled(true);
    assert!(index.trigram_enabled());
    assert_eq!(paths(&index.search(&query("quarterly"))), before);
    index.set_trigram_enabled(true);
    assert_eq!(paths(&index.search(&query("quarterly"))), before);
    index.set_trigram_enabled(false);
    assert!(!index.trigram_enabled());
    assert_eq!(paths(&index.search(&query("quarterly"))), before);
}

#[test]
fn no_entry_is_found_twice() {
    let mut index = index_of(many());
    index.set_trigram_enabled(true);
    for prefer_trigram in [false, true] {
        let mut options = query("quarterly");
        options.prefer_trigram = prefer_trigram;
        let mut frns: Vec<u64> = index.search(&options).iter().map(|hit| hit.frn).collect();
        frns.sort();
        assert_eq!(frns, vec![21, 22, 23, 24]);
    }
}

#[test]
fn arena_lists_the_latest_upsert_last() {
    let mut arena = SearchArena::default();
    arena.upsert_entry(&entry(1, 5, "alpha", 0));
    arena.upsert_entry(&entry(2, 5, "ALPHABET", 0));
    arena.upsert_entry(&entry(3, 5, "alpha three", 0));
    arena.upsert_entry(&entry(1, 5, "alpha one", 0));
    arena.delete_frn(3);
    arena.upsert_entry(&entry(4, 5, "beta", 0));
    assert_eq!(arena.candidate_frns("alpha", 10), vec![2, 1]);
    assert_eq!(arena.candidate_frns("alpha", 1), vec![2]);
    assert_eq!(arena.candidate_frns("", 10), vec![2, 1, 4]);
    arena.upsert_entry(&entry(2, 5, "omega", 0));
    assert_eq!(arena.candidate_frns("alpha", 10), vec![1]);
    assert_eq!(arena.candidate_frns("", 10), vec![1, 4, 2]);
}

#[test]
fn patterns_that_cannot_be_compiled_are_ignored() {
    let index = index_of(many());
    let mut options = query("quarterly");
    let all = paths(&index.search(&options));
    for depth in [300usize, 251, 100_000] {
        options.glob = Some(format!("{}a{}", "{".repeat(depth), "}".repeat(depth)));
        assert_eq!(paths(&index.search(&options)), all);
    }
    options.glob = Some("{unclosed".to_string());
    assert_eq!(paths(&index.search(&options)), all);
    options.glob = Some("{".repeat(100_000));
    assert_eq!(paths(&index.search(&options)), all);
    options.glob = Some("**/*.{pdf,txt}".to_string());
    assert_eq!(index.search(&options).len(), 3);
}

#[test]
fn braces_side_by_side_or_in_a_class_do_not_nest() {
    let index = index_of(many());
    let mut options = query("quarterly");
    options.glob = Some("{a,b}".repeat(300));
    assert!(index.search(&options).is_empty());
    for start in ["[", "[!", "[]", "[^]"] {
        options.glob = Some(format!("C:{}{}]", start, "{".repeat(300)));
        assert!(index.search(&options).is_empty());
    }
}

#[test]
fn backslash_in_a_pattern_is_read_as_on_the_system() {
    let index = index_of(vec![
        entry(10, 5, "src", 0x10),
        entry(11, 10, "main.rs", 0),
        entry(12, 10, "main.py", 0),
    ]);
    let separates = std::path::is_separator('\\');
    let mut options = query("main");
    options.glob = Some("C:\\src\\*.rs".to_string());
    let found = paths(&index.search(&options));
    options.glob = Some("**/*.p\\y".to_string());
    let escaped = paths(&index.search(&options));
    if separates {
        assert_eq!(found, vec!["C:\\src\\main.rs"]);
        assert!(escaped.is_empty());
    } else {
        assert!(found.is_empty());
        assert_eq!(escaped, vec!["C:\\src\\main.py"]);
    }
    let pattern = GlobPattern::new(&options.glob);
    assert_eq!(paths(&index.search_with(&options, &pattern)), escaped);
}

#[test]
fn best_results_with_a_pattern_come_first() {
    let index = index_of(vec![
        entry(10, 5, "old-report.txt", 0),
        entry(11, 5, "report.txt", 0),
        entry(12, 5, "report.pdf", 0),
        entry(13, 5, "my report.txt", 0),
    ]);
    let mut options = query("report");
    options.glob = Some("**/*.txt".to_string());
    let all = paths(&index.search(&options));
    assert_eq!(all.len(), 3);
    assert_eq!(all[0], "C:\\report.txt");
    for limit in 1..4 {
        options.limit = limit;
        assert_eq!(paths(&index.search(&options)), all[..limit]);
    }
}

#[test]
fn paths_in_a_named_root() {
    let index = index_of(vec![
        entry(60, 60, "\\", 0x10),
        entry(61, 60, "top.txt", 0),
        entry(62, 60, "dir", 0x10),
        entry(63, 62, "low.txt", 0),
    ]);
    assert_eq!(index.resolve_path(60), Some("C:\\".to_string()));
    assert_eq!(index.resolve_path(61), Some("C:\\top.txt".to_string()));
    assert_eq!(index.resolve_path(63), Some("C:\\dir\\low.txt".to_string()));
}

#[test]
fn paths_end_at_cycles_and_missing_parents() {
    let index = index_of(vec![
        entry(30, 31, "a", 0x10),
        entry(31, 30, "b", 0x10),
        entry(40, 99, "orphan", 0),
        entry(41, 0, "top", 0),
        entry(5, 5, ".", 0x10),
        entry(50, 51, "x", 0),
        entry(51, 5, "", 0x10),
    ]);
    assert_eq!(index.resolve_path(30), Some("C:\\a\\b\\a".to_string()));
    assert_eq!(index.resolve_path(40), Some("C:\\orphan".to_string()));
    assert_eq!(index.resolve_path(41), Some("C:\\top".to_string()));
    assert_eq!(index.resolve_path(5), Some("C:\\".to_string()));
    assert_eq!(index.resolve_path(50), Some("C:\\x".to_string()));
    assert_eq!(index.resolve_path(51), Some("C:\\".to_string()));
    assert_eq!(index.resolve_path(1), None);
    assert!(is_ntfs_root_reference(0x0005_0000_0000_0005));
    assert!(!is_ntfs_root_reference(6));
}

#[test]
fn search_ranks_and_limits() {
    let index = index_of(vec![
        entry(10, 5, "xreport.txt", 0),
        entry(11, 5, "report.txt", 0),
        entry(12, 5, "Report", 0x10),
        entry(13, 5, "my report.txt", 0),
        entry(14, 12, "reporting.md", 0),
    ]);
    let all = index.search(&query("REPORT"));
    assert_eq!(
        paths(&all),
        vec![
            "C:\\Report",
            "C:\\report.txt",
            "C:\\Report\\reporting.md",
            "C:\\xreport.txt",
            "C:\\my report.txt",
        ]
    );
    let mut few = query("report");
    few.limit = 2;
    assert_eq!(paths(&index.search(&few)), vec!["C:\\Report", "C:\\report.txt"]);
    few.limit = 0;
    assert_eq!(index.search(&few).len(), 1);
}

#[test]
fn search_filters_by_kind_and_extension() {
    let index = index_of(vec![
        entry(10, 5, "data.TXT", 0),
        entry(11, 5, "data", 0x10),
        entry(12, 5, "data.tar.gz", 0),
        entry(13, 5, ".data", 0),
    ]);
    let mut options = query("data");
    options.directories_only = true;
    assert_eq!(paths(&index.search(&options)), vec!["C:\\data"]);
    options.directories_only = false;
    options.files_only = true;
    assert_eq!(index.search(&options).len(), 3);
    options.extension = Some("..txt".to_string());
    assert_eq!(paths(&index.search(&options)), vec!["C:\\data.TXT"]);
    options.extension = Some("gz".to_string());
    assert_eq!(paths(&index.search(&options)), vec!["C:\\data.tar.gz"]);
    options.extension = Some("data".to_string());
    assert!(index.search(&options).is_empty());
}

#[test]
fn glob_sees_slashes_and_ignores_case() {
    let index = index_of(vec![
        entry(10, 5, "src", 0x10),
        entry(11, 10, "Main.rs", 0),
        entry(12, 10, "main.py", 0),
    ]);
    let mut options = query("main");
    options.glob = Some("c:/SRC/*.rs".to_string());
    assert_eq!(paths(&index.search(&options)), vec!["C:\\src\\Main.rs"]);
    options.glob = Some("*.py".to_string());
    assert_eq!(paths(&index.search(&options)), vec!["C:\\src\\main.py"]);
    options.glob = Some("[".to_string());
    assert_eq!(index.search(&options).len(), 2);
}

#[test]
fn under_matcher_normalizes() {
    let drive = build_under_matcher("c:").unwrap();
    assert_eq!((drive.exact.as_str(), drive.prefix.as_str()), ("c:\\", "c:\\"));
    let dir = build_under_matcher(" C:/Users\\Ana\\\\ ").unwrap();
    assert_eq!((dir.exact.as_str(), dir.prefix.as_str()), ("c:\\users\\ana", "c:\\users\\ana\\"));
    assert!(dir.admits("C:\\Users\\ana"));
    assert!(dir.admits("c:\\users\\ANA\\x"));
    assert!(!dir.admits("c:\\users\\anabel"));
    assert!(build_under_matcher("   ").is_none());
    assert_eq!(build_under_matcher("\\\\").unwrap().exact, "\\\\");
}

#[test]
fn finish_search_follows_the_verdicts() {
    let row = |frn: u64, path: &str| SearchResult { frn, path: path.to_string(), is_directory: false };
    let rows = vec![row(1, "C:\\b-x"), row(2, "C:\\x"), row(3, "C:\\xy")];
    let kept = finish_search(rows.clone(), Some(vec![true, false, true]), "x", 10);
    assert_eq!(kept.iter().map(|r| r.frn).collect::<Vec<_>>(), vec![3, 1]);
    let all = finish_search(rows.clone(), None, "x", 2);
    assert_eq!(all.iter().map(|r| r.frn).collect::<Vec<_>>(), vec![2, 3]);
    let ranked = rank_rows(&rows, "zzz", 10);
    assert_eq!(ranked.iter().map(|r| r.frn).collect::<Vec<_>>(), vec![2, 3, 1]);
}

#[test]
fn journal_changes_are_followed() {
    let mut index = index_of(vec![entry(10, 5, "old.txt", 0), entry(11, 5, "gone.txt", 0)]);
    index.set_trigram_enabled(true);
    let batch = JournalBatch {
        events: vec![
            JournalChange::Upsert(entry(10, 5, "renamed-file.txt", 0)),
            JournalChange::Delete(11),
            JournalChange::Upsert(entry(12, 5, "fresh.txt", 0)),
        ],
        next_usn: 77,
        journal_id: 1,
    };
    assert_eq!(index.apply_journal_changes(Ok(batch)).unwrap(), 3);
    assert_eq!(index.next_usn, 77);
    assert!(index.search(&query("old")).is_empty());
    assert!(index.search(&query("gone")).is_empty());
    assert_eq!(paths(&index.search(&query("fresh"))), vec!["C:\\fresh.txt"]);
    let mut long = query("renamed-file");
    long.prefer_trigram = true;
    assert_eq!(paths(&index.search(&long)), vec!["C:\\renamed-file.txt"]);

    let failed = index.apply_journal_changes(Err(VolumeError::JournalChanged(1, 2)));
    assert!(matches!(failed, Err(VolumeError::JournalChanged(1, 2))));
    assert_eq!(index.next_usn, 77);
    assert_eq!(index.entries.len(), 2);
}

#[test]
fn many_changes_compact_the_arena() {
    let list: Vec<FileEntry> = (0..1100u64).map(|i| entry(i + 10, 5, &format!("f{i}"), 0)).collect();
    let mut index = index_of(list);
    let events: Vec<JournalChange> = (0..200u64).map(|i| JournalChange::Delete(i + 10)).collect();
    let batch = JournalBatch { events, next_usn: 5, journal_id: 1 };
    assert_eq!(index.apply_journal_changes(Ok(batch)).unwrap(), 200);
    assert_eq!(index.search_arena.live_slots(), 900);
    assert!(!index.search_arena.should_compact());
    assert_eq!(paths(&index.search(&query("f1099"))), vec!["C:\\f1099"]);
}

#[test]
fn index_is_built_from_a_snapshot() {
    let snapshot = || {
        let mut entries = HashMap::new();
        entries.insert(10, entry(10, 5, "demo.txt", 0));
        Ok(MftSnapshot { entries, next_usn: 9, journal_id: 3 })
    };
    let mut seen = 0usize;
    let index = FileIndex::build_with_progress("d", snapshot(), 55, Some(&mut seen)).unwrap();
    assert_eq!(seen, 1);
    assert_eq!(index.drive, "D:");
    assert_eq!((index.journal_id, index.next_usn, index.indexed_at_epoch_secs), (3, 9, 55));
    assert!(!index.trigram_enabled());
    assert_eq!(paths(&index.search(&query("DEMO"))), vec!["D:\\demo.txt"]);
    assert!(matches!(FileIndex::build("dd", snapshot(), 0), Err(VolumeError::InvalidDrive(_))));
    assert!(matches!(
        FileIndex::build("d", Err(VolumeError::InvalidName), 0),
        Err(VolumeError::InvalidName)
    ));
}

#[test]
fn trigram_mode_can_be_switched() {
    let mut index = index_of(vec![entry(10, 5, "tickettrack.log", 0)]);
    assert!(!index.trigram_enabled());
    index.set_trigram_enabled(true);
    assert!(index.trigram_enabled());
    let mut options = query("TicketTrack");
    options.prefer_trigram = true;
    assert_eq!(index.search(&options).len(), 1);
    index.set_trigram_enabled(false);
    assert!(!index.trigram_enabled());
    assert_eq!(index.search(&options).len(), 1);
}

#[test]
fn directories_are_told_by_their_attribute() {
    assert!(entry(1, 5, "d", 0x30).is_directory());
    assert!(!entry(1, 5, "f", 0x20).is_directory());
}
