use omega::cli::Args;
use omega::matcher::PatternMatcher;
use omega::metrics::{claim_step, records_error, LimitCheck, SearchLimits};
use omega::output::OutputMode;
use omega::paths::{default_roots, drive_roots, RootPathProvider};
use omega::scanner::{decide_entry, EntryDecision, SearchConfig, BATCH_CAPACITY, STREAM_CAPACITY};

fn args() -> Args {
    Args {
        patterns: vec!["src".to_string()],
        path: Vec::new(),
        limit_found: None,
        limit_scanned: None,
        threads: None,
        max_depth: None,
        case_insensitive: false,
        files_only: false,
        dirs_only: false,
        hide_errors: false,
        fuzzy: false,
        fuzzy_threshold: 2,
        api: false,
        content_search: false,
        max_content_size: 10_485_760,
    }
}

#[test]
fn limits_from_args() {
    let mut a = args();
    a.limit_found = Some(100);
    let limits = SearchLimits::from_args(&a);
    assert_eq!(limits.found_limit(), Some(100));
    assert_eq!(limits.scanned, None);
}

#[test]
fn should_continue_decisions() {
    let limits = SearchLimits { found: Some(10), scanned: Some(1000) };
    assert_eq!(limits.should_continue(false, 0, 0), LimitCheck::Continue);
    assert_eq!(limits.should_continue(false, 9, 999), LimitCheck::Continue);
    assert_eq!(limits.should_continue(false, 10, 0), LimitCheck::StopAndShutdown);
    assert_eq!(limits.should_continue(false, 0, 1000), LimitCheck::StopAndShutdown);
    assert_eq!(limits.should_continue(true, 0, 0), LimitCheck::Stop);
    let none = SearchLimits { found: None, scanned: None };
    assert_eq!(none.should_continue(false, u64::MAX, u64::MAX), LimitCheck::Continue);
    assert_eq!(none.should_continue(true, 0, 0), LimitCheck::Stop);
}

#[test]
fn claims_never_exceed_the_limit() {
    assert_eq!(claim_step(0, 2), Some(1));
    assert_eq!(claim_step(1, 2), Some(2));
    assert_eq!(claim_step(2, 2), None);
    assert_eq!(claim_step(0, 0), None);
    let mut found = 0;
    let mut reported = 0;
    for _ in 0..100 {
        if let Some(next) = claim_step(found, 50) {
            found = next;
            reported += 1;
        }
    }
    assert_eq!(found, 50);
    assert_eq!(reported, 50);
}

#[test]
fn config_from_args() {
    let mut a = args();
    a.threads = Some(8);
    a.max_depth = Some(3);
    let c = SearchConfig::from_args(&a, Some(16), true);
    assert_eq!(c.threads, 8);
    assert_eq!(c.max_depth, 3);
    assert_eq!(c.progress_interval, 256);
    assert!(!c.resolve_symlinks);
    assert!(c.stream);
    a.threads = Some(0);
    assert_eq!(SearchConfig::from_args(&a, Some(16), false).threads, 16);
    a.threads = None;
    assert_eq!(SearchConfig::from_args(&a, None, false).threads, 4);
    assert_eq!(SearchConfig::from_args(&a, Some(0), false).threads, 4);
    a.max_depth = None;
    a.limit_scanned = Some(5);
    a.content_search = true;
    let c = SearchConfig::from_args(&a, Some(2), false);
    assert_eq!(c.max_depth, usize::MAX);
    assert_eq!(c.progress_interval, 1);
    assert!(c.resolve_symlinks);
    assert!(!c.stream);
}

#[test]
fn include_and_flush_rules() {
    let mut a = args();
    a.files_only = true;
    let c = SearchConfig::from_args(&a, Some(1), false);
    assert!(!c.should_include(true));
    assert!(c.should_include(false));
    assert!(!c.should_flush(100));
    assert!(c.should_flush(BATCH_CAPACITY));
    assert_eq!(c.batch_capacity(), BATCH_CAPACITY);
    let mut d = args();
    d.dirs_only = true;
    let c = SearchConfig::from_args(&d, Some(1), true);
    assert!(c.should_include(true));
    assert!(!c.should_include(false));
    assert!(c.should_flush(1));
    assert_eq!(c.batch_capacity(), STREAM_CAPACITY);
}

#[test]
fn walk_rules() {
    let mut a = args();
    a.max_depth = Some(2);
    let c = SearchConfig::from_args(&a, Some(1), false);
    assert!(c.should_descend(0));
    assert!(c.should_descend(1));
    assert!(!c.should_descend(2));
    assert!(c.progress_due(256));
    assert!(!c.progress_due(255));
    assert!(!c.follows_link(true));
    a.files_only = true;
    a.max_depth = Some(0);
    let f = SearchConfig::from_args(&a, Some(1), false);
    assert!(!f.should_descend(0));
    assert!(f.follows_link(true));
    assert!(!f.follows_link(false));
}

#[test]
fn entry_decisions() {
    let a = args();
    let config = SearchConfig::from_args(&a, Some(1), false);
    let matcher = PatternMatcher::from_args(&a);
    assert_eq!(decide_entry(&config, &matcher, "src", true), EntryDecision::Report);
    assert_eq!(decide_entry(&config, &matcher, "lib", true), EntryDecision::Skip);
    assert_eq!(decide_entry(&config, &matcher, "lib.rs", false), EntryDecision::CheckContent);
    let mut f = args();
    f.files_only = true;
    let files = SearchConfig::from_args(&f, Some(1), false);
    assert_eq!(decide_entry(&files, &matcher, "src", true), EntryDecision::Skip);
}

#[test]
fn output_mode_from_args() {
    let mut a = args();
    assert_eq!(OutputMode::from_args(&a), OutputMode::Normal);
    a.api = true;
    assert_eq!(OutputMode::from_args(&a), OutputMode::Api);
}

#[test]
fn search_roots_from_custom_paths() {
    let paths = vec!["/home/user".to_string(), "/var/log".to_string()];
    let roots = RootPathProvider::get_search_roots(&paths, &vec![true, true], default_roots());
    assert_eq!(roots, Ok(paths.clone()));
    let missing = RootPathProvider::get_search_roots(&paths, &vec![true, false], default_roots());
    assert_eq!(missing, Err("path does not exist: /var/log".to_string()));
    let both = RootPathProvider::get_search_roots(&paths, &vec![false, false], default_roots());
    assert_eq!(both, Err("path does not exist: /home/user".to_string()));
}

#[test]
fn search_roots_default() {
    let none: Vec<String> = Vec::new();
    let roots = RootPathProvider::get_search_roots(&none, &Vec::new(), default_roots());
    assert_eq!(roots, Ok(vec!["/".to_string()]));
    let empty = RootPathProvider::get_search_roots(&none, &Vec::new(), Vec::new());
    assert_eq!(empty, Err("no valid search paths found".to_string()));
}

#[test]
fn windows_drive_candidates() {
    let drives = drive_roots();
    assert_eq!(drives.len(), 24);
    assert_eq!(drives[0], "C:\\");
    assert_eq!(drives[23], "Z:\\");
}

#[test]
fn entry_counting_reports_every_interval() {
    let c = SearchConfig::from_args(&args(), Some(1), false);
    let mut scanned = 0u64;
    let mut reported = 0u64;
    for _ in 0..1000 {
        let (next, report) = c.count_entry(scanned);
        scanned = next;
        if let Some(count) = report {
            assert_eq!(count, 256);
            reported += count;
        }
    }
    assert_eq!(reported, 768);
    assert_eq!(scanned, 232);
    let mut limited = args();
    limited.limit_found = Some(5);
    let every = SearchConfig::from_args(&limited, Some(1), false);
    assert_eq!(every.count_entry(0), (0, Some(1)));
}

#[test]
fn refused_permissions_are_not_recorded() {
    assert!(!records_error(true));
    assert!(records_error(false));
}
