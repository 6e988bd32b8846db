use std::collections::HashMap;
use std::time::Instant;

use rayo::content::{
    content_scope, extension_matches, normalized_extension, ContentError, ContentSearch,
    ContentSearchOptions, Step,
};
use rayo::arena::SearchArena;
use rayo::entry::FileEntry;
use rayo::index::FileIndex;
use rayo::persist::{
    build_temp_index_path, decode_file, decode_index, encode_file, encode_index, file_of, framed,
    index_bytes, index_from_decoded, is_compressed, restore_index, PersistError,
};
use rayo::syntax::{
    syntax_root, truncate_snippet, FileStep, SourceText, SyntaxError, SyntaxLanguage, SyntaxNode,
    SyntaxSearch, SyntaxSearchOptions,
};

#[test]
fn files_give_back_what_was_written() {
    let data: Vec<u8> = (0..5000u32).map(|i| (i % 7) as u8).collect();
    let file = encode_file(&data).unwrap();
    assert!(file.starts_with(b"RAYOZST1"));
    assert!(file.len() < data.len());
    assert!(is_compressed(&file));
    assert_eq!(decode_file(&file).unwrap(), data);
    assert_eq!(decode_file(&encode_file(&[]).unwrap()).unwrap(), Vec::<u8>::new());
}

#[test]
fn files_follow_from_the_compression() {
    assert_eq!(file_of(Ok(vec![1, 2, 3])), Ok(b"RAYOZST1\x01\x02\x03".to_vec()));
    assert_eq!(file_of(Ok(Vec::new())), Ok(b"RAYOZST1".to_vec()));
    assert_eq!(file_of(Err("no memory".to_string())), Err("no memory".to_string()));
}

#[test]
fn plain_files_are_read_as_they_are() {
    let legacy = b"\x02\0\0\0C:".to_vec();
    assert!(!is_compressed(&legacy));
    assert_eq!(decode_file(&legacy).unwrap(), legacy);
    assert_eq!(decode_file(b"RAYOZST").unwrap(), b"RAYOZST".to_vec());
}

#[test]
fn damaged_files_are_errors() {
    assert!(decode_file(&framed(b"not compressed")).is_err());
    let mut file = encode_file(b"some bytes that are compressed").unwrap();
    file.truncate(file.len() - 3);
    assert!(decode_file(&file).is_err());
}

#[test]
fn round_trip_index() {
    let mut entries = HashMap::new();
    entries.insert(
        10,
        FileEntry { frn: 10, parent_frn: 5, name: "demo.txt".to_string(), attributes: 0 },
    );
    let mut index = FileIndex {
        drive: "C:".to_string(),
        entries,
        journal_id: 77,
        next_usn: 123,
        indexed_at_epoch_secs: 999,
        search_arena: SearchArena::default(),
        trigram_index: None,
    };
    index.rebuild_search_arena();
    index.set_trigram_enabled(true);

    let file = encode_index(&index).expect("save");
    assert!(is_compressed(&file));
    let loaded = decode_index(&file).expect("load");

    assert_eq!(loaded.drive, "C:");
    assert_eq!(loaded.entries.len(), 1);
    assert_eq!(loaded.journal_id, 77);
    assert_eq!((loaded.next_usn, loaded.indexed_at_epoch_secs), (123, 999));
    let entry = &loaded.entries[&10];
    assert_eq!((entry.frn, entry.parent_frn, entry.attributes), (10, 5, 0));
    assert_eq!(entry.name, "demo.txt");
    assert!(!loaded.trigram_enabled());
    assert_eq!(loaded.search_arena.candidate_frns("demo", 5), vec![10]);
}

fn number(bytes: &mut Vec<u8>, value: u64) {
    bytes.extend_from_slice(&value.to_le_bytes());
}

fn legacy_bytes() -> Vec<u8> {
    let mut bytes = Vec::new();
    number(&mut bytes, 2);
    bytes.extend_from_slice(b"C:");
    number(&mut bytes, 1);
    for value in [1, 1, 1, 10] {
        number(&mut bytes, value);
    }
    bytes.extend_from_slice(b"legacy.txt");
    bytes.extend_from_slice(&0u32.to_le_bytes());
    for value in [1, 2, 3] {
        number(&mut bytes, value);
    }
    bytes
}

#[test]
fn load_index_supports_legacy_uncompressed_format() {
    let loaded = decode_index(&legacy_bytes()).expect("load legacy");
    assert_eq!(loaded.entries.len(), 1);
    assert_eq!(loaded.journal_id, 1);
    assert_eq!(loaded.entries[&1].name, "legacy.txt");
    assert_eq!((loaded.next_usn, loaded.indexed_at_epoch_secs), (2, 3));
    let again = decode_file(&encode_index(&loaded).unwrap()).unwrap();
    assert_eq!(again, legacy_bytes());
    assert_eq!(index_bytes(&loaded).unwrap(), legacy_bytes());
}

#[test]
fn index_files_report_their_errors() {
    let mut short = legacy_bytes();
    short.pop();
    assert!(matches!(decode_index(&short), Err(PersistError::Deserialize(_))));
    assert!(matches!(decode_index(&[]), Err(PersistError::Deserialize(_))));
    assert!(matches!(decode_index(&encode_file(&short).unwrap()), Err(PersistError::Deserialize(_))));
    assert!(matches!(decode_index(&framed(b"damaged")), Err(PersistError::Decompress(_))));
}

#[test]
fn what_reading_a_file_came_to_decides_what_is_loaded() {
    let why = "no memory".to_string();
    assert!(matches!(index_from_decoded(Err(why)), Err(PersistError::Decompress(w)) if w == "no memory"));
    let loaded = index_from_decoded(Ok(legacy_bytes())).expect("load");
    assert_eq!(loaded.drive, "C:");
    assert_eq!(loaded.entries[&1].name, "legacy.txt");
    assert_eq!(loaded.search_arena.candidate_frns("legacy", 5), vec![1]);
    assert!(!loaded.trigram_enabled());
    let mut short = legacy_bytes();
    short.pop();
    assert!(matches!(index_from_decoded(Ok(short)), Err(PersistError::Deserialize(_))));
    let saved = decode_file(&encode_index(&loaded).unwrap());
    assert_eq!(index_from_decoded(saved).unwrap().entries.len(), 1);
}

#[test]
fn restored_index_can_be_searched() {
    let mut entries = HashMap::new();
    entries.insert(
        10,
        FileEntry { frn: 10, parent_frn: 5, name: "demo.txt".to_string(), attributes: 0 },
    );
    let index = restore_index("C:".to_string(), entries, 77, 123, 999);
    assert_eq!(index.drive, "C:");
    assert_eq!(index.entries.len(), 1);
    assert_eq!(index.journal_id, 77);
    assert_eq!(index.search_arena.candidate_frns("demo", 5), vec![10]);
}

#[test]
fn temp_path_is_beside_the_index() {
    assert_eq!(build_temp_index_path("C:\\d\\c.rayo", 12, 34), "C:\\d\\c.rayo.tmp-12-34");
    assert_eq!(build_temp_index_path("C:\\", 1, 0), "C:\\index.rayo.tmp-1-0");
}

fn content_options(query: &str) -> ContentSearchOptions {
    ContentSearchOptions {
        query: query.to_string(),
        under_dir: None,
        extension: Some(" .RS ".to_string()),
        limit: 2,
        timeout_nanos: 1000,
    }
}

#[test]
fn content_search_collects_lines() {
    let mut search = ContentSearch::start(&content_options("fn\\s+main"), true).ok().unwrap();
    assert_eq!(search.extension.as_deref(), Some("rs"));
    assert_eq!(search.on_entry(None, 0), Step::Skip);
    assert_eq!(search.on_entry(Some("a.txt"), 0), Step::Skip);
    assert_eq!(search.on_entry(Some("a.rs"), 0), Step::Take);
    assert!(search.on_line("a.rs", 3, "fn main() { \r\n", 1));
    assert!(search.on_line("a.rs", 9, "x", 1));
    assert!(!search.on_line("a.rs", 10, "y", 1));
    assert!(!search.timed_out);
    assert_eq!(search.on_entry(Some("b.rs"), 1), Step::Stop);
    let result = search.finish(77);
    assert_eq!(result.scanned_files, 2);
    assert_eq!(result.took_nanos, 77);
    assert_eq!(result.matches.len(), 2);
    assert_eq!(result.matches[0].line_text, "fn main() {");
    assert_eq!(result.matches[0].line_number, 3);
}

#[test]
fn content_search_ends_in_time() {
    let mut search = ContentSearch::start(&content_options("x"), true).ok().unwrap();
    assert!(!search.on_line("a.rs", 1, "x", 1000));
    assert!(search.timed_out);
    assert_eq!(search.on_entry(Some("a.rs"), 1000), Step::Stop);
    let mut fresh = content_options("x");
    fresh.timeout_nanos = 0;
    fresh.limit = 0;
    let search = ContentSearch::start(&fresh, true).ok().unwrap();
    assert_eq!(search.timeout_nanos, 3_000_000_000);
    assert_eq!(search.limit, 1);
}

#[test]
fn content_search_reports_its_errors() {
    match ContentSearch::start(&content_options("("), true) {
        Err(ContentError::InvalidRegex(why)) => assert!(!why.is_empty()),
        _ => panic!("accepted"),
    }
    match ContentSearch::start(&content_options("x"), false) {
        Err(ContentError::MissingDirectory(dir)) => assert_eq!(dir, "C:\\"),
        _ => panic!("accepted"),
    }
    let search = ContentSearch::start(&content_options("x"), true).ok().unwrap();
    assert!(search.on_error("a", "invalid utf-8 sequence of 1 bytes").is_ok());
    match search.on_error("a", "denied") {
        Err(ContentError::Failed(path, why)) => assert_eq!((path.as_str(), why.as_str()), ("a", "denied")),
        _ => panic!("accepted"),
    }
}

#[test]
fn content_options_are_normalized() {
    assert_eq!(normalized_extension(&Some(" ..TXT".to_string())).as_deref(), Some("txt"));
    assert_eq!(normalized_extension(&Some(" . ".to_string())), None);
    assert_eq!(normalized_extension(&None), None);
    assert!(extension_matches("C:\\a.TXT", &Some("txt".to_string())));
    assert!(!extension_matches("C:\\a", &Some("txt".to_string())));
    assert!(extension_matches("C:\\a", &None));
    let mut options = content_options("x");
    options.under_dir = Some("D:\\src".to_string());
    assert_eq!(content_scope(&options), "D:\\src");
}

fn syntax_options(query: &str, kind: Option<&str>) -> SyntaxSearchOptions {
    SyntaxSearchOptions {
        query: query.to_string(),
        under_dir: None,
        language: Some("rust".to_string()),
        node_kind: kind.map(|k| k.to_string()),
        limit: 10,
        timeout_nanos: 2_000_000_000,
    }
}

#[test]
fn syntax_search_finds_function_in_source() {
    let source = "\nfn hello_world() {\n    println!(\"hello\");\n}\n";
    let mut search =
        SyntaxSearch::start(&syntax_options("hello_world", Some("function_item")), true).unwrap();
    let started = Instant::now();
    search.on_source(source, "sample.rs", SyntaxLanguage::Rust, &started).unwrap();
    let result = search.finish(1);
    assert_eq!(result.scanned_files, 1);
    assert_eq!(result.matches.len(), 1);
    let found = &result.matches[0];
    assert_eq!(found.node_kind, "function_item");
    assert_eq!(found.language, "rust");
    assert_eq!(found.path, "sample.rs");
    assert_eq!((found.line_number, found.column_number), (2, 1));
    assert_eq!(found.snippet, "fn hello_world() {");
}

#[test]
fn syntax_search_visits_the_last_child_first() {
    let source = "fn a() {}\nfn b() {}\n";
    let mut search = SyntaxSearch::start(&syntax_options("", Some(" FUNCTION_item ")), true).unwrap();
    search.on_source(source, "x.rs", SyntaxLanguage::Rust, &Instant::now()).unwrap();
    let lines: Vec<u64> = search.matches.iter().map(|m| m.line_number).collect();
    assert_eq!(lines, vec![2, 1]);
    assert!(!search.is_over());

    let mut options = syntax_options("", Some("function_item"));
    options.limit = 1;
    let mut search = SyntaxSearch::start(&options, true).unwrap();
    search.on_source(source, "x.rs", SyntaxLanguage::Rust, &Instant::now()).unwrap();
    assert_eq!(search.matches.len(), 1);
    assert!(search.is_over());
    assert_eq!(search.on_entry(Some("y.rs"), 0), FileStep::Stop);
    assert!(!search.timed_out);
}

#[test]
fn syntax_search_reads_every_language() {
    for (language, source, kind) in [
        (SyntaxLanguage::Rust, "struct Thing;", "struct_item"),
        (SyntaxLanguage::JavaScript, "function thing() {}", "function_declaration"),
        (SyntaxLanguage::TypeScript, "interface Thing { a: number }", "interface_declaration"),
        (SyntaxLanguage::Python, "def thing():\n    pass\n", "function_definition"),
    ] {
        let mut options = syntax_options("THING", Some(kind));
        options.language = None;
        let mut search = SyntaxSearch::start(&options, true).unwrap();
        search.on_source(source, "f", language, &Instant::now()).unwrap();
        assert_eq!(search.matches.len(), 1);
        assert_eq!(search.matches[0].language, language.as_name());
        assert_eq!(SyntaxLanguage::from_name(language.as_name()), Some(language));
    }
}

#[test]
fn syntax_entries_are_chosen() {
    let mut options = syntax_options("x", None);
    options.language = None;
    options.timeout_nanos = 5;
    let mut search = SyntaxSearch::start(&options, true).unwrap();
    assert_eq!(search.timeout_nanos, 100_000_000);
    assert_eq!(search.on_entry(None, 0), FileStep::Skip);
    assert_eq!(search.on_entry(Some("a.MJS"), 0), FileStep::Read(SyntaxLanguage::JavaScript));
    assert_eq!(search.on_entry(Some("a.tsx"), 0), FileStep::Read(SyntaxLanguage::TypeScript));
    assert_eq!(search.on_entry(Some("a.txt"), 0), FileStep::Skip);
    assert_eq!(search.on_entry(Some("a.py"), 100_000_000), FileStep::Stop);
    assert!(search.timed_out && search.is_over());

    let mut search = SyntaxSearch::start(&syntax_options("x", Some(" ")), true).unwrap();
    assert!(search.node_kind.is_none());
    assert_eq!(search.on_entry(Some("a.txt"), 0), FileStep::Read(SyntaxLanguage::Rust));
}

#[test]
fn syntax_search_reports_its_errors() {
    let mut options = syntax_options("x", None);
    options.language = Some("cobol".to_string());
    match SyntaxSearch::start(&options, false) {
        Err(SyntaxError::UnsupportedLanguage(name)) => assert_eq!(name, "cobol"),
        other => panic!("{other:?}"),
    }
    options.language = Some(" TS ".to_string());
    match SyntaxSearch::start(&options, false) {
        Err(SyntaxError::MissingDirectory(dir)) => assert_eq!(dir, "."),
        other => panic!("{other:?}"),
    }
    assert_eq!(syntax_root(&options), ".");
}

#[test]
fn snippets_are_cut_between_characters() {
    assert_eq!(truncate_snippet("short"), "short");
    let exact = "a".repeat(180);
    assert_eq!(truncate_snippet(&exact), exact);
    assert_eq!(truncate_snippet(&"a".repeat(181)), format!("{}...", "a".repeat(180)));
    let wide = "\u{e9}".repeat(100);
    assert_eq!(truncate_snippet(&wide), format!("{}...", "\u{e9}".repeat(90)));
    let odd = format!("a{}", "\u{e9}".repeat(100));
    assert_eq!(truncate_snippet(&odd), format!("a{}...", "\u{e9}".repeat(89)));
}

#[test]
fn search_errors_say_what_is_wrong() {
    assert_eq!(
        ContentError::MissingDirectory("D:".to_string()).message(),
        "under path does not exist: D:"
    );
    assert_eq!(ContentError::InvalidRegex("bad".to_string()).message(), "invalid regex query: bad");
    assert_eq!(
        ContentError::Failed("a".to_string(), "why".to_string()).message(),
        "content search failed on a: why"
    );
    assert_eq!(
        SyntaxError::UnsupportedLanguage("c".to_string()).message(),
        "unsupported language 'c'. Supported: rust, javascript, typescript, python"
    );
    assert_eq!(
        SyntaxError::MissingDirectory("x".to_string()).message(),
        "syntax search root does not exist: x"
    );
    assert_eq!(
        SyntaxError::Grammar("rust".to_string(), "old".to_string()).message(),
        "failed to set parser language for rust: old"
    );
}

fn node(kind: &str, named: bool, span: (usize, usize), depth: u32) -> SyntaxNode {
    SyntaxNode {
        kind: kind.to_string(),
        named,
        start_byte: span.0,
        end_byte: span.1,
        row: 0,
        column: span.0,
        depth,
    }
}

#[test]
fn nodes_are_visited_one_at_a_time() {
    // root -> a (-> b, unnamed c (-> d)), e
    let nodes = vec![
        node("root", true, (0, 5), 0),
        node("a", true, (0, 3), 1),
        node("b", true, (0, 1), 2),
        node("c", false, (1, 3), 2),
        node("d", true, (2, 3), 3),
        node("e", true, (4, 5), 1),
    ];
    let source = SourceText::new("ab\u{e9}\nx");
    let mut search = SyntaxSearch::start(&syntax_options("", None), true).unwrap();
    let mut stack = vec![0];
    let mut seen = Vec::new();
    while let Some(last) = stack.last().copied() {
        seen.push(last);
        assert!(search.visit_node(&nodes, &mut stack, &source, "f", SyntaxLanguage::Rust, 0));
    }
    assert_eq!(seen, vec![0, 5, 1, 2]);
    // The text of the root ends inside of the file, that of `a` inside of a character.
    let kinds: Vec<&str> = search.matches.iter().map(|m| m.node_kind.as_str()).collect();
    assert_eq!(kinds, vec!["root", "e", "b"]);
    assert_eq!(search.matches[1].snippet, "");
    assert_eq!(search.matches[2].snippet, "a");
    assert_eq!(search.matches[1].column_number, 5);

    let mut stack = vec![1];
    let late = search.timeout_nanos;
    assert!(!search.visit_node(&nodes, &mut stack, &source, "f", SyntaxLanguage::Rust, late));
    assert_eq!(stack, vec![1]);
    assert!(search.timed_out);

    let mut options = syntax_options("A", Some("b"));
    options.limit = 1;
    let mut search = SyntaxSearch::start(&options, true).unwrap();
    search.scan_nodes(&nodes, "ab\u{e9}\nx", "f", SyntaxLanguage::Rust, &Instant::now());
    assert_eq!(search.matches.len(), 1);
    let mut stack = vec![2];
    assert!(!search.visit_node(&nodes, &mut stack, &source, "f", SyntaxLanguage::Rust, 0));
    assert!(!search.timed_out);
}
