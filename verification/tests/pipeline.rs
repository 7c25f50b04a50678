use flatten_rust::config::{Template, TemplateManager};
use flatten_rust::exclusions::ExclusionManager;
use flatten_rust::ingest::{
    ingest_step, restore_order, FileRecord, IngestAction, IngestEvent, IoStage, Outcome,
};
use flatten_rust::output::{emit_contents, flatten_folder, RunStats, SizeUnit};
use flatten_rust::walk::{
    collect_files, may_descend, print_folder_structure, EntryKind, Icons, WalkEntry,
};
use flatten_rust::{
    run, run_mode, Args, FlattenConfig, FolderContents, FolderScan, RunError, RunMode,
};

fn base_args() -> Args {
    Args {
        folders: vec!["proj".to_string()],
        skip_folders: vec![
            ".git".to_string(),
            "node_modules".to_string(),
            "target".to_string(),
            "dist".to_string(),
            "build".to_string(),
        ],
        output: "codebase.md".to_string(),
        show_skipped: false,
        threads: 0,
        max_file_size: 104_857_600,
        skip_extensions: vec!["exe".to_string(), "bin".to_string(), "pyc".to_string()],
        auto_detect: false,
        include_hidden: false,
        max_depth: 0,
        show_stats: false,
        dry_run: false,
        list_templates: false,
        enable_templates: vec![],
        disable_templates: vec![],
        force_update: false,
        show_enabled: false,
    }
}

fn empty_manager() -> ExclusionManager {
    ExclusionManager::new(TemplateManager::new(None, None))
}

fn config_for(args: &Args) -> FlattenConfig {
    FlattenConfig::new(args, empty_manager(), &vec![])
}

fn words() -> Icons {
    Icons { folder: "DIR".to_string(), file: "FILE".to_string(), skip: "SKIP".to_string() }
}

fn entry(path: &str, depth: usize, kind: EntryKind) -> WalkEntry {
    let name = path.rsplit('/').next().unwrap_or("").to_string();
    WalkEntry { path: path.to_string(), name, name_is_exact: true, depth, kind }
}

fn project() -> Vec<WalkEntry> {
    vec![
        entry("proj", 0, EntryKind::Directory),
        entry("proj/src", 1, EntryKind::Directory),
        entry("proj/src/main.rs", 2, EntryKind::File),
        entry("proj/node_modules", 1, EntryKind::Directory),
        entry("proj/node_modules/pkg", 2, EntryKind::Directory),
        entry("proj/node_modules/pkg/index.js", 3, EntryKind::File),
        entry("proj/README.md", 1, EntryKind::File),
        entry("proj/test.bin", 1, EntryKind::File),
        entry("proj/.hidden", 1, EntryKind::File),
    ]
}

fn content_of(path: &str) -> Vec<u8> {
    match path {
        "proj/src/main.rs" => b"fn main() {}".to_vec(),
        "proj/README.md" => b"# Test Project".to_vec(),
        "proj/test.bin" => vec![0, 1, 2],
        "proj/.hidden" => b"hidden".to_vec(),
        _ => b"other".to_vec(),
    }
}

fn read(config: &FlattenConfig, file: &WalkEntry) -> FileRecord {
    let bytes = content_of(&file.path);
    let size = bytes.len() as u64;
    match ingest_step(config, file, IngestEvent::Start) {
        IngestAction::Finish(record) => return record,
        IngestAction::Open => {}
        IngestAction::Read => panic!("a file is opened before it is read"),
    }
    match ingest_step(config, file, IngestEvent::Opened(size)) {
        IngestAction::Finish(record) => return record,
        IngestAction::Read => {}
        IngestAction::Open => panic!("a file is opened once"),
    }
    match ingest_step(config, file, IngestEvent::Mapped(size, bytes)) {
        IngestAction::Finish(record) => record,
        _ => panic!("a mapped file is finished"),
    }
}

fn scan(config: &FlattenConfig, folder: &str, entries: Vec<WalkEntry>) -> FolderScan {
    let files = collect_files(&entries, config);
    let records = files.iter().map(|f| read(config, f)).collect();
    FolderScan { folder: folder.to_string(), contents: Some(FolderContents { entries, records }) }
}

fn paths(files: &[WalkEntry]) -> Vec<&str> {
    files.iter().map(|f| f.path.as_str()).collect()
}

#[test]
fn test_config_skip_path() {
    let mut args = base_args();
    args.skip_folders = vec!["skip_me".to_string()];
    let config = config_for(&args);

    assert!(config.should_skip_path("skip_me"));
    assert!(!config.should_skip_path("src"));
    assert!(config.should_skip_path(".hidden_dir"));
}

#[test]
fn test_config_include_hidden() {
    let mut args = base_args();
    args.include_hidden = true;
    let config = config_for(&args);

    assert!(!config.should_skip_path(".hidden_dir"));
}

#[test]
fn test_config_skip_file() {
    let mut args = base_args();
    args.skip_extensions = vec!["exe".to_string()];
    let config = config_for(&args);

    assert!(config.should_skip_file("some.exe"));
    assert!(!config.should_skip_file("main.rs"));
}

#[test]
fn the_extension_is_what_follows_the_last_dot() {
    let mut args = base_args();
    args.skip_extensions = vec!["gz".to_string(), "".to_string(), "bashrc".to_string()];
    let config = config_for(&args);

    assert!(config.should_skip_file("archive.tar.gz"));
    assert!(!config.should_skip_file("archive.gz.tar"));
    assert!(!config.should_skip_file("gz"));
    assert!(config.should_skip_file("trailing."));
    assert!(!config.should_skip_file(".bashrc"));
    assert!(config.should_skip_file(".config.bashrc"));
    assert!(!config.should_skip_file(".."));
    assert!(config.should_skip_file("..."));
    assert!(!config.should_skip_file(""));
}

#[test]
fn the_configuration_keeps_the_limits() {
    let mut args = base_args();
    args.max_file_size = 77;
    args.max_depth = 3;
    args.show_skipped = true;
    args.show_stats = true;
    args.dry_run = true;
    let config = config_for(&args);
    assert_eq!(config.max_file_size(), 77);
    assert_eq!(config.max_depth(), 3);
    assert!(config.show_skipped());
    assert!(config.show_stats());
    assert!(config.dry_run());
    assert!(!config.include_hidden());
}

#[test]
fn the_configuration_adds_the_patterns_of_enabled_templates() {
    let templates = vec![
        Template {
            key: "rust".to_string(),
            name: "Rust".to_string(),
            contents: "target/\n*.rs.bk\n*.bak\n".to_string(),
        },
        Template {
            key: "node".to_string(),
            name: "Node".to_string(),
            contents: "coverage\n*.log\n".to_string(),
        },
        Template {
            key: "go".to_string(),
            name: "Go".to_string(),
            contents: "bin/\n*.test\n".to_string(),
        },
    ];
    let manager = ExclusionManager::new(TemplateManager::new(None, Some(templates)));
    let mut args = base_args();
    args.skip_folders = vec!["mine".to_string()];
    args.skip_extensions = vec!["exe".to_string()];
    args.enable_templates = vec!["rust".to_string(), "go".to_string()];
    args.disable_templates = vec!["go".to_string()];
    args.auto_detect = true;
    let markers = vec![vec!["package.json".to_string()]];
    let config = FlattenConfig::new(&args, manager, &markers);

    assert_eq!(config.exclusion_manager().get_enabled_templates(), vec!["rust", "node"]);
    assert!(config.should_skip_path("mine"));
    assert!(config.should_skip_path("target"));
    assert!(config.should_skip_path("coverage"));
    assert!(!config.should_skip_path("bin"));
    assert!(config.should_skip_file("a.exe"));
    assert!(config.should_skip_file("a.log"));
    assert!(config.should_skip_file("a.bak"));
    assert!(!config.should_skip_file("a.rs.bk"));
    assert!(!config.should_skip_file("a.test"));
}

#[test]
fn detection_needs_the_flag_and_a_folder() {
    let markers = vec![vec!["Cargo.toml".to_string()]];
    let args = base_args();
    let config = FlattenConfig::new(&args, empty_manager(), &markers);
    assert!(config.exclusion_manager().get_enabled_templates().is_empty());

    let mut args = base_args();
    args.auto_detect = true;
    args.folders = vec![];
    let config = FlattenConfig::new(&args, empty_manager(), &markers);
    assert!(config.exclusion_manager().get_enabled_templates().is_empty());

    let mut args = base_args();
    args.auto_detect = true;
    let config = FlattenConfig::new(&args, empty_manager(), &markers);
    assert_eq!(config.exclusion_manager().get_enabled_templates(), vec!["rust"]);
}

#[test]
fn pruned_folders_hide_what_lies_below_them() {
    let config = config_for(&base_args());
    let files = collect_files(&project(), &config);
    assert_eq!(paths(&files), vec!["proj/src/main.rs", "proj/README.md", "proj/test.bin"]);
}

#[test]
fn pruning_does_not_depend_on_show_skipped() {
    let mut args = base_args();
    args.show_skipped = true;
    let config = config_for(&args);
    let files = collect_files(&project(), &config);
    assert_eq!(paths(&files), vec!["proj/src/main.rs", "proj/README.md", "proj/test.bin"]);
}

#[test]
fn hidden_entries_are_walked_when_included() {
    let mut args = base_args();
    args.include_hidden = true;
    let config = config_for(&args);
    let files = collect_files(&project(), &config);
    assert_eq!(
        paths(&files),
        vec!["proj/src/main.rs", "proj/README.md", "proj/test.bin", "proj/.hidden"]
    );
}

#[test]
fn a_pruned_root_lists_nothing() {
    let config = config_for(&base_args());
    let entries = vec![
        entry("/tmp/.tmpAbc", 0, EntryKind::Directory),
        entry("/tmp/.tmpAbc/a.txt", 1, EntryKind::File),
    ];
    assert!(collect_files(&entries, &config).is_empty());
    let tree = print_folder_structure("/tmp/.tmpAbc", &entries, &config, &words());
    assert_eq!(
        tree,
        "### DIRECTORY /tmp/.tmpAbc FOLDER STRUCTURE ###\n\
         ### DIRECTORY /tmp/.tmpAbc FOLDER STRUCTURE ###\n\n"
    );
}

#[test]
fn a_shadow_ends_where_the_walk_comes_back_up() {
    let config = config_for(&base_args());
    let entries = vec![
        entry("r", 0, EntryKind::Directory),
        entry("r/a", 1, EntryKind::Directory),
        entry("r/a/target", 2, EntryKind::Directory),
        entry("r/a/target/x", 3, EntryKind::File),
        entry("r/a/target/deep", 3, EntryKind::Directory),
        entry("r/a/target/deep/y", 4, EntryKind::File),
        entry("r/a/z", 2, EntryKind::File),
        entry("r/b", 1, EntryKind::File),
    ];
    assert_eq!(paths(&collect_files(&entries, &config)), vec!["r/a/z", "r/b"]);
}

#[test]
fn names_that_are_not_exact_pass_the_rules() {
    let config = config_for(&base_args());
    let mut odd = entry("r/target", 1, EntryKind::Directory);
    odd.name_is_exact = false;
    let entries =
        vec![entry("r", 0, EntryKind::Directory), odd, entry("r/target/x", 2, EntryKind::File)];
    assert_eq!(paths(&collect_files(&entries, &config)), vec!["r/target/x"]);
}

#[test]
fn the_depth_limit_cuts_the_walk() {
    let mut args = base_args();
    args.max_depth = 1;
    let config = config_for(&args);
    let files = collect_files(&project(), &config);
    assert_eq!(paths(&files), vec!["proj/README.md", "proj/test.bin"]);
    let tree = print_folder_structure("proj", &project(), &config, &words());
    assert_eq!(
        tree,
        "### DIRECTORY proj FOLDER STRUCTURE ###\n\
         DIR src/\n\
         FILE README.md\n\
         FILE .hidden\n\
         ### DIRECTORY proj FOLDER STRUCTURE ###\n\n"
    );
}

#[test]
fn only_regular_files_are_listed() {
    let config = config_for(&base_args());
    let entries = vec![
        entry("r", 0, EntryKind::Directory),
        entry("r/link", 1, EntryKind::Other),
        entry("r/file", 1, EntryKind::File),
    ];
    assert_eq!(paths(&collect_files(&entries, &config)), vec!["r/file"]);
    let tree = print_folder_structure("r", &entries, &config, &words());
    assert!(tree.contains("FILE link\n"));
}

#[test]
fn a_directory_may_be_descended_unless_it_is_pruned() {
    let mut args = base_args();
    args.max_depth = 2;
    let config = config_for(&args);
    assert!(may_descend(&config, &entry("proj/src", 1, EntryKind::Directory)));
    assert!(!may_descend(&config, &entry("proj/target", 1, EntryKind::Directory)));
    assert!(!may_descend(&config, &entry("proj/.git", 1, EntryKind::Directory)));
    assert!(!may_descend(&config, &entry("proj/a/b/c", 3, EntryKind::Directory)));
}

#[test]
fn the_tree_is_drawn_in_walk_order() {
    let config = config_for(&base_args());
    let tree = print_folder_structure("proj", &project(), &config, &words());
    assert_eq!(
        tree,
        "### DIRECTORY proj FOLDER STRUCTURE ###\n\
         DIR src/\n\
         \x20   FILE main.rs\n\
         FILE README.md\n\
         FILE .hidden\n\
         ### DIRECTORY proj FOLDER STRUCTURE ###\n\n"
    );
}

#[test]
fn the_tree_marks_what_was_skipped_when_asked() {
    let mut args = base_args();
    args.show_skipped = true;
    let config = config_for(&args);
    let tree = print_folder_structure("proj", &project(), &config, &words());
    assert_eq!(
        tree,
        "### DIRECTORY proj FOLDER STRUCTURE ###\n\
         DIR src/\n\
         \x20   FILE main.rs\n\
         SKIP node_modules/ (skipped)\n\
         FILE README.md\n\
         SKIP test.bin (skipped)\n\
         FILE .hidden\n\
         ### DIRECTORY proj FOLDER STRUCTURE ###\n\n"
    );
}

#[test]
fn the_indentation_follows_the_depth() {
    let config = config_for(&base_args());
    let entries = vec![
        entry("r", 0, EntryKind::Directory),
        entry("r/a", 1, EntryKind::Directory),
        entry("r/a/b", 2, EntryKind::Directory),
        entry("r/a/b/c", 3, EntryKind::File),
    ];
    let tree = print_folder_structure("r", &entries, &config, &words());
    assert!(tree.contains("\nDIR a/\n    DIR b/\n        FILE c\n"));
}

#[test]
fn the_signs_are_emoji_or_words() {
    let icons = Icons::detect();
    assert!(icons.folder == "📁" || icons.folder == "DIR");
    assert!(icons.file == "📄" || icons.file == "FILE");
    assert!(icons.skip == "⏭️" || icons.skip == "SKIP");
}

#[test]
fn a_skipped_extension_is_never_opened() {
    let config = config_for(&base_args());
    let file = entry("proj/test.bin", 1, EntryKind::File);
    match ingest_step(&config, &file, IngestEvent::Start) {
        IngestAction::Finish(record) => {
            assert_eq!(record.path, "proj/test.bin");
            assert_eq!(record.size_bytes, 0);
            assert!(matches!(record.outcome, Outcome::Skipped(ref name) if name == "test.bin"));
        }
        other => panic!("unexpected action: {:?}", other),
    }
    let file = entry("proj/main.rs", 1, EntryKind::File);
    assert!(matches!(ingest_step(&config, &file, IngestEvent::Start), IngestAction::Open));
}

#[test]
fn a_file_over_the_limit_is_not_read() {
    let mut args = base_args();
    args.max_file_size = 10;
    let config = config_for(&args);
    let file = entry("proj/big.txt", 1, EntryKind::File);
    match ingest_step(&config, &file, IngestEvent::Opened(11)) {
        IngestAction::Finish(record) => {
            assert_eq!(record.size_bytes, 11);
            assert!(matches!(record.outcome, Outcome::TooLarge(11)));
            let section = emit_contents("proj", &vec![record]);
            assert_eq!(
                section,
                "### DIRECTORY proj FLATTENED CONTENT ###\n\
                 ### proj/big.txt BEGIN ###\n\
                 [File too large: 11 bytes]\n\
                 ### proj/big.txt END ###\n\n\
                 ### DIRECTORY proj FLATTENED CONTENT ###\n"
            );
        }
        other => panic!("unexpected action: {:?}", other),
    }
    assert!(matches!(ingest_step(&config, &file, IngestEvent::Opened(10)), IngestAction::Read));
}

#[test]
fn no_limit_reads_every_size() {
    let mut args = base_args();
    args.max_file_size = 0;
    let config = config_for(&args);
    let file = entry("proj/big.txt", 1, EntryKind::File);
    assert!(matches!(
        ingest_step(&config, &file, IngestEvent::Opened(u64::MAX)),
        IngestAction::Read
    ));
}

#[test]
fn an_empty_file_needs_no_reading() {
    let config = config_for(&base_args());
    let file = entry("proj/empty.txt", 1, EntryKind::File);
    match ingest_step(&config, &file, IngestEvent::Opened(0)) {
        IngestAction::Finish(record) => {
            assert_eq!(record.size_bytes, 0);
            assert!(matches!(record.outcome, Outcome::Content(ref text) if text.is_empty()));
        }
        other => panic!("unexpected action: {:?}", other),
    }
}

#[test]
fn mapped_bytes_become_text() {
    let config = config_for(&base_args());
    let file = entry("proj/a.txt", 1, EntryKind::File);
    let bytes = "héllo ✓".as_bytes().to_vec();
    match ingest_step(&config, &file, IngestEvent::Mapped(bytes.len() as u64, bytes)) {
        IngestAction::Finish(record) => {
            assert_eq!(record.size_bytes, 10);
            assert!(matches!(record.outcome, Outcome::Content(ref text) if text == "héllo ✓"));
        }
        other => panic!("unexpected action: {:?}", other),
    }
}

#[test]
fn bytes_that_are_no_text_are_replaced() {
    let config = config_for(&base_args());
    let file = entry("proj/a.txt", 1, EntryKind::File);
    match ingest_step(&config, &file, IngestEvent::Mapped(3, vec![b'a', 0xff, b'b'])) {
        IngestAction::Finish(record) => {
            assert_eq!(record.size_bytes, 3);
            assert!(matches!(record.outcome, Outcome::Content(ref text) if text == "a\u{fffd}b"));
        }
        other => panic!("unexpected action: {:?}", other),
    }
}

#[test]
fn a_failed_step_is_recorded() {
    let config = config_for(&base_args());
    let file = entry("proj/a.txt", 1, EntryKind::File);
    let cases = [
        (IoStage::Open, "Failed to open file: proj/a.txt"),
        (IoStage::Metadata, "Failed to read metadata: proj/a.txt"),
        (IoStage::Mapping, "Failed to memory map file: proj/a.txt"),
    ];
    for (stage, expected) in cases {
        match ingest_step(&config, &file, IngestEvent::Failed(stage)) {
            IngestAction::Finish(record) => {
                assert_eq!(record.size_bytes, 0);
                assert!(matches!(record.outcome, Outcome::ReadError(ref m) if m == expected));
            }
            other => panic!("unexpected action: {:?}", other),
        }
    }
}

#[test]
fn records_come_back_in_walk_order() {
    let finished = vec![(2, "c"), (0, "a"), (1, "b")];
    assert_eq!(restore_order(finished), Some(vec!["a", "b", "c"]));
    assert_eq!(restore_order(Vec::<(usize, u8)>::new()), Some(vec![]));
    assert_eq!(restore_order(vec![(0, 'x')]), Some(vec!['x']));
}

#[test]
fn tags_that_are_no_order_are_refused() {
    assert_eq!(restore_order(vec![(0, "a"), (0, "b")]), None);
    assert_eq!(restore_order(vec![(0, "a"), (2, "b")]), None);
    assert_eq!(restore_order(vec![(1, "a")]), None);
    assert_eq!(restore_order(vec![(usize::MAX, "a"), (0, "b")]), None);
}

#[test]
fn each_record_has_its_block() {
    let records = vec![
        FileRecord {
            path: "p/a".to_string(),
            size_bytes: 3,
            outcome: Outcome::Content("abc".to_string()),
        },
        FileRecord {
            path: "p/b.bin".to_string(),
            size_bytes: 0,
            outcome: Outcome::Skipped("b.bin".to_string()),
        },
        FileRecord {
            path: "p/c".to_string(),
            size_bytes: 0,
            outcome: Outcome::ReadError("Failed to open file: p/c".to_string()),
        },
        FileRecord {
            path: "p/d".to_string(),
            size_bytes: 18_446_744_073_709_551_615,
            outcome: Outcome::TooLarge(18_446_744_073_709_551_615),
        },
    ];
    let section = emit_contents("p", &records);
    assert_eq!(
        section,
        "### DIRECTORY p FLATTENED CONTENT ###\n\
         ### p/a BEGIN ###\nabc\n### p/a END ###\n\n\
         ### p/b.bin BEGIN ###\n[Binary file skipped: b.bin]\n### p/b.bin END ###\n\n\
         ### p/c BEGIN ###\n[Error reading file: Failed to open file: p/c]\n### p/c END ###\n\n\
         ### p/d BEGIN ###\n[File too large: 18446744073709551615 bytes]\n### p/d END ###\n\n\
         ### DIRECTORY p FLATTENED CONTENT ###\n"
    );
    for record in &records {
        let begin = format!("### {} BEGIN ###\n", record.path);
        let end = format!("\n### {} END ###\n", record.path);
        assert_eq!(section.matches(&begin).count(), 1);
        assert_eq!(section.matches(&end).count(), 1);
        assert!(section.find(&begin).unwrap() < section.find(&end).unwrap());
    }
}

#[test]
fn sizes_are_written_in_decimal() {
    for size in [0u64, 7, 10, 99, 100, 1_024, 9_007_199_254_740_993] {
        let record = FileRecord {
            path: "f".to_string(),
            size_bytes: size,
            outcome: Outcome::TooLarge(size),
        };
        let section = emit_contents("d", &vec![record]);
        assert!(section.contains(&format!("\n[File too large: {} bytes]\n", size)));
    }
}

#[test]
fn a_folder_without_files_has_no_content_section() {
    let config = config_for(&base_args());
    let entries = vec![entry("r", 0, EntryKind::Directory), entry("r/a", 1, EntryKind::Directory)];
    let text = flatten_folder("r", &entries, &vec![], &config, &words());
    assert_eq!(
        text,
        "### DIRECTORY r FOLDER STRUCTURE ###\nDIR a/\n### DIRECTORY r FOLDER STRUCTURE ###\n\n"
    );
}

#[test]
fn the_counters_count_what_was_read() {
    let mut stats = RunStats::new();
    let records = vec![
        FileRecord { path: "a".into(), size_bytes: 10, outcome: Outcome::Content("x".into()) },
        FileRecord { path: "b".into(), size_bytes: 5_000, outcome: Outcome::TooLarge(5_000) },
        FileRecord { path: "c".into(), size_bytes: 99, outcome: Outcome::Skipped("c".into()) },
        FileRecord { path: "d".into(), size_bytes: 99, outcome: Outcome::ReadError("e".into()) },
    ];
    stats.add_folder(&records);
    assert_eq!(stats, RunStats { total_files: 4, total_bytes: 5_010 });
    stats.add_folder(&records);
    assert_eq!(stats, RunStats { total_files: 8, total_bytes: 10_020 });
    stats.add_folder(&vec![]);
    assert_eq!(stats, RunStats { total_files: 8, total_bytes: 10_020 });
}

#[test]
fn the_counters_stay_at_their_limit() {
    let mut stats = RunStats { total_files: usize::MAX - 1, total_bytes: u64::MAX - 5 };
    let records = vec![
        FileRecord { path: "a".into(), size_bytes: 4, outcome: Outcome::Content("x".into()) },
        FileRecord { path: "b".into(), size_bytes: 4, outcome: Outcome::Content("y".into()) },
    ];
    stats.add_folder(&records);
    assert_eq!(stats, RunStats { total_files: usize::MAX, total_bytes: u64::MAX });
}

#[test]
fn the_summary_picks_the_units() {
    let summary = RunStats { total_files: 0, total_bytes: 0 }.finalize();
    assert_eq!(summary.average_size, None);
    assert_eq!(summary.total_unit, SizeUnit::Bytes);
    assert_eq!(summary.average_unit, SizeUnit::Bytes);

    let summary = RunStats { total_files: 3, total_bytes: 1_023 }.finalize();
    assert_eq!(summary.total_unit, SizeUnit::Bytes);
    assert_eq!(summary.average_size, Some(341));

    let summary = RunStats { total_files: 1, total_bytes: 1_024 }.finalize();
    assert_eq!(summary.total_unit, SizeUnit::Kilobytes);
    assert_eq!(summary.average_size, Some(1_024));
    assert_eq!(summary.average_unit, SizeUnit::Kilobytes);

    let summary = RunStats { total_files: 2_000, total_bytes: 1_048_576 }.finalize();
    assert_eq!(summary.total_unit, SizeUnit::Megabytes);
    assert_eq!(summary.average_size, Some(524));
    assert_eq!(summary.average_unit, SizeUnit::Bytes);
    assert_eq!(summary.total_files, 2_000);
    assert_eq!(summary.total_bytes, 1_048_576);
}

#[test]
fn the_mode_follows_the_inputs() {
    assert_eq!(run_mode(&base_args()), Ok(RunMode::Flatten));

    let mut args = base_args();
    args.folders = vec![];
    assert_eq!(run_mode(&args), Err(RunError::FoldersRequired));

    for which in 0..5 {
        let mut args = base_args();
        args.folders = vec![];
        match which {
            0 => args.list_templates = true,
            1 => args.show_enabled = true,
            2 => args.force_update = true,
            3 => args.enable_templates = vec!["rust".to_string()],
            _ => args.disable_templates = vec!["rust".to_string()],
        }
        assert_eq!(run_mode(&args), Ok(RunMode::ManageTemplates));
    }

    let mut args = base_args();
    args.list_templates = true;
    assert_eq!(run_mode(&args), Ok(RunMode::Flatten));
}

#[test]
fn test_basic_flatten() {
    let mut args = base_args();
    args.include_hidden = true;
    let config = config_for(&args);
    let scans = vec![scan(&config, "proj", project())];
    let report = run(&args, &config, &words(), &scans).expect("the run starts");

    assert!(report.any_folder_found);
    assert!(report.missing.is_empty());
    let content = report.artifact;
    assert!(content.contains("FOLDER STRUCTURE"));
    assert!(content.contains("FLATTENED CONTENT"));
    assert!(content.contains("src/main.rs"));
    assert!(content.contains("README.md"));
    assert!(content.contains("### proj/src/main.rs BEGIN ###\nfn main() {}\n### proj/src/main.rs END ###\n"));
    assert!(content.contains("[Binary file skipped: test.bin]"));
}

#[test]
fn test_skip_folders() {
    let mut args = base_args();
    args.skip_folders = vec!["node_modules".to_string()];
    let config = config_for(&args);
    let scans = vec![scan(&config, "proj", project())];
    let report = run(&args, &config, &words(), &scans).expect("the run starts");

    assert!(report.artifact.contains("proj/README.md"));
    assert!(!report.artifact.contains("node_modules"));
}

#[test]
fn test_show_skipped() {
    let mut args = base_args();
    args.skip_folders = vec!["node_modules".to_string()];
    args.show_skipped = true;
    let config = config_for(&args);
    let scans = vec![scan(&config, "proj", project())];
    let report = run(&args, &config, &words(), &scans).expect("the run starts");

    assert!(report.artifact.contains("node_modules/ (skipped)"));
    assert!(!report.artifact.contains("index.js"));
}

#[test]
fn test_error_on_missing_folder() {
    let mut args = base_args();
    args.folders = vec!["/non/existent/path".to_string()];
    let config = config_for(&args);
    let scans = vec![FolderScan { folder: "/non/existent/path".to_string(), contents: None }];
    let report = run(&args, &config, &words(), &scans).expect("a missing folder is no error");

    assert_eq!(report.missing, vec!["/non/existent/path"]);
    assert!(!report.any_folder_found);
    assert!(report.artifact.is_empty());
    assert_eq!(report.stats, RunStats { total_files: 0, total_bytes: 0 });
}

#[test]
fn test_error_no_folder_arg() {
    let mut args = base_args();
    args.folders = vec![];
    args.output = "output.md".to_string();
    let config = config_for(&args);
    let result = run(&args, &config, &words(), &vec![]);
    match result {
        Err(error) => {
            assert_eq!(error, RunError::FoldersRequired);
            assert!(error.message().contains("Error: --folders argument is required"));
        }
        Ok(_) => panic!("a run without folders cannot start"),
    }
}

#[test]
fn a_run_goes_through_the_folders_in_order() {
    let args = base_args();
    let config = config_for(&args);
    let first = vec![entry("one", 0, EntryKind::Directory), entry("one/a.txt", 1, EntryKind::File)];
    let second = vec![entry("two", 0, EntryKind::Directory), entry("two/b.txt", 1, EntryKind::File)];
    let scans = vec![
        scan(&config, "one", first),
        FolderScan { folder: "gone".to_string(), contents: None },
        scan(&config, "two", second),
    ];
    let report = run(&args, &config, &words(), &scans).expect("the run starts");
    assert_eq!(
        report.artifact,
        "### DIRECTORY one FOLDER STRUCTURE ###\n\
         FILE a.txt\n\
         ### DIRECTORY one FOLDER STRUCTURE ###\n\n\
         ### DIRECTORY one FLATTENED CONTENT ###\n\
         ### one/a.txt BEGIN ###\nother\n### one/a.txt END ###\n\n\
         ### DIRECTORY one FLATTENED CONTENT ###\n\
         ### DIRECTORY two FOLDER STRUCTURE ###\n\
         FILE b.txt\n\
         ### DIRECTORY two FOLDER STRUCTURE ###\n\n\
         ### DIRECTORY two FLATTENED CONTENT ###\n\
         ### two/b.txt BEGIN ###\nother\n### two/b.txt END ###\n\n\
         ### DIRECTORY two FLATTENED CONTENT ###\n"
    );
    assert_eq!(report.missing, vec!["gone"]);
    assert!(report.any_folder_found);
    assert_eq!(report.stats, RunStats { total_files: 2, total_bytes: 10 });
}

#[test]
fn a_run_twice_gives_the_same_artifact() {
    let args = base_args();
    let config = config_for(&args);
    let scans = vec![scan(&config, "proj", project())];
    let first = run(&args, &config, &words(), &scans).expect("the run starts");
    let second = run(&args, &config, &words(), &scans).expect("the run starts");
    assert_eq!(first.artifact, second.artifact);
    assert_eq!(first.stats, second.stats);
}

#[test]
fn a_run_that_manages_templates_leaves_the_folders_alone() {
    let mut args = base_args();
    args.folders = vec![];
    args.list_templates = true;
    let config = config_for(&args);
    let scans = vec![scan(&config, "proj", project())];
    let report = run(&args, &config, &words(), &scans).expect("the run starts");
    assert!(report.artifact.is_empty());
    assert!(!report.any_folder_found);
    assert_eq!(report.stats, RunStats { total_files: 0, total_bytes: 0 });
}

#[test]
fn a_read_file_is_recorded_with_its_text() {
    let file = entry("proj/a.txt", 1, EntryKind::File);
    let record = flatten_rust::ingest::content_record(&file, 5, "hello".to_string());
    assert_eq!(record.path, "proj/a.txt");
    assert_eq!(record.size_bytes, 5);
    assert!(matches!(record.outcome, Outcome::Content(ref text) if text == "hello"));
}

#[test]
fn a_file_named_like_a_skipped_folder_is_listed() {
    let mut args = base_args();
    args.include_hidden = true;
    let config = config_for(&args);
    let entries = vec![
        entry("r", 0, EntryKind::Directory),
        entry("r/target", 1, EntryKind::File),
        entry("r/sub", 1, EntryKind::Directory),
        entry("r/sub/node_modules", 2, EntryKind::File),
        entry("r/sub/build", 2, EntryKind::Directory),
        entry("r/sub/build/out", 3, EntryKind::File),
        entry("r/.git", 1, EntryKind::File),
    ];
    assert_eq!(
        paths(&collect_files(&entries, &config)),
        vec!["r/target", "r/sub/node_modules", "r/.git"]
    );
}

#[test]
fn a_hidden_file_is_left_out_unless_included() {
    let config = config_for(&base_args());
    let entries = vec![
        entry("r", 0, EntryKind::Directory),
        entry("r/.env", 1, EntryKind::File),
        entry("r/target", 1, EntryKind::File),
    ];
    assert_eq!(paths(&collect_files(&entries, &config)), vec!["r/target"]);
}

#[test]
fn a_file_with_a_skipped_extension_is_still_listed() {
    let config = config_for(&base_args());
    let entries = vec![entry("r", 0, EntryKind::Directory), entry("r/a.exe", 1, EntryKind::File)];
    let files = collect_files(&entries, &config);
    assert_eq!(paths(&files), vec!["r/a.exe"]);
    let record = read(&config, &files[0]);
    assert!(matches!(record.outcome, Outcome::Skipped(ref name) if name == "a.exe"));
}

#[test]
fn detection_does_not_bring_back_what_was_turned_off() {
    let mut args = base_args();
    args.auto_detect = true;
    args.enable_templates = vec!["go".to_string()];
    args.disable_templates = vec!["rust".to_string()];
    let markers = vec![vec!["Cargo.toml".to_string(), "package.json".to_string()]];
    let templates = vec![Template {
        key: "rust".to_string(),
        name: "Rust".to_string(),
        contents: "artifacts/\n*.rlib\n".to_string(),
    }];
    let manager = ExclusionManager::new(TemplateManager::new(None, Some(templates)));
    let config = FlattenConfig::new(&args, manager, &markers);
    assert_eq!(config.exclusion_manager().get_enabled_templates(), vec!["go", "node"]);
    assert!(!config.should_skip_path("artifacts"));
    assert!(!config.should_skip_file("a.rlib"));
}

#[test]
fn the_hidden_test_looks_at_the_first_character() {
    let config = config_for(&base_args());
    assert!(config.is_hidden(".git"));
    assert!(config.is_hidden("."));
    assert!(!config.is_hidden("a.b"));
    assert!(!config.is_hidden(""));
    let mut args = base_args();
    args.include_hidden = true;
    assert!(!config_for(&args).is_hidden(".git"));
}
