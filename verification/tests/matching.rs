use omega::bytesearch::{
    contains_bytes, contains_bytes_ignore_case, find_byte, find_byte_pair, to_ascii_lowercase,
    to_ascii_uppercase,
};
use omega::cli::Args;
use omega::levenshtein::{to_ascii_lower, within_distance};
use omega::matcher::PatternMatcher;

/// A file that was read whole: its size and its bytes.
fn file(data: Vec<u8>) -> Option<(u64, Vec<u8>)> {
    Some((data.len() as u64, data))
}

fn args(patterns: &[&str]) -> Args {
    Args {
        patterns: patterns.iter().map(|p| p.to_string()).collect(),
        path: Vec::new(),
        limit_found: None,
        limit_scanned: None,
        threads: None,
        max_depth: None,
        case_insensitive: false,
        files_only: false,
        dirs_only: false,
        hide_errors: false,
        fuzzy: false,
        fuzzy_threshold: 2,
        api: false,
        content_search: false,
        max_content_size: 10_485_760,
    }
}

/// A deterministic byte stream for comparing against simple scans.
fn bytes(seed: u64, len: usize, alphabet: u8) -> Vec<u8> {
    let mut state = seed;
    (0..len)
        .map(|_| {
            state = state.wrapping_mul(6_364_136_223_846_793_005).wrapping_add(1_442_695_040_888_963_407);
            b'a' + ((state >> 33) % alphabet as u64) as u8
        })
        .collect()
}

fn naive_contains(h: &[u8], n: &[u8]) -> bool {
    n.is_empty() || h.windows(n.len()).any(|w| w == n)
}

fn levenshtein(a: &[char], b: &[char]) -> usize {
    let mut prev: Vec<usize> = (0..=b.len()).collect();
    for (i, ca) in a.iter().enumerate() {
        let mut cur = vec![i + 1];
        for (j, cb) in b.iter().enumerate() {
            let v = (prev[j + 1] + 1).min(cur[j] + 1).min(prev[j] + usize::from(ca != cb));
            cur.push(v);
        }
        prev = cur;
    }
    prev[b.len()]
}

#[test]
fn find_byte_positions() {
    assert_eq!(find_byte(b"", b'a'), None);
    assert_eq!(find_byte(b"abc", b'c'), Some(2));
    assert_eq!(find_byte(b"abcabc", b'b'), Some(1));
    assert_eq!(find_byte(b"abc", b'z'), None);
    let mut long = vec![b'x'; 300];
    long[70] = b'y';
    long[250] = b'y';
    assert_eq!(find_byte(&long, b'y'), Some(70));
    long[70] = b'x';
    assert_eq!(find_byte(&long, b'y'), Some(250));
    long[250] = b'x';
    assert_eq!(find_byte(&long, b'y'), None);
    let mut zeros = vec![0u8; 130];
    zeros[129] = 0x80;
    assert_eq!(find_byte(&zeros, 0x80), Some(129));
    assert_eq!(find_byte(&zeros, 0), Some(0));
}

#[test]
fn find_byte_matches_a_scan() {
    for seed in 0..40u64 {
        let hay = bytes(seed, 200 + seed as usize * 7, 20);
        for needle in b'a'..b'z' {
            assert_eq!(find_byte(&hay, needle), hay.iter().position(|&b| b == needle));
        }
    }
}

#[test]
fn find_byte_pair_matches_a_scan() {
    for seed in 0..20u64 {
        let hay = bytes(seed, 150 + seed as usize * 13, 26);
        for (a, b) in [(b'q', b'z'), (b'a', b'a'), (b'x', b'b'), (b'!', b'?')] {
            assert_eq!(
                find_byte_pair(&hay, a, b),
                hay.iter().position(|&c| c == a || c == b)
            );
        }
    }
}

#[test]
fn contains_bytes_cases() {
    assert!(contains_bytes(b"config.toml", b"config"));
    assert!(contains_bytes(b"config.toml", b".toml"));
    assert!(contains_bytes(b"anything", b""));
    assert!(contains_bytes(b"", b""));
    assert!(!contains_bytes(b"", b"a"));
    assert!(!contains_bytes(b"ab", b"abc"));
    assert!(!contains_bytes(b"Config", b"config"));
    assert!(contains_bytes(b"aaab", b"aab"));
}

#[test]
fn contains_bytes_matches_a_scan() {
    for seed in 0..30u64 {
        let hay = bytes(seed, 300, 3);
        for len in 1..6 {
            let needle = bytes(seed + 1000, len, 3);
            assert_eq!(contains_bytes(&hay, &needle), naive_contains(&hay, &needle));
        }
    }
}

#[test]
fn contains_bytes_ignore_case_cases() {
    assert!(contains_bytes_ignore_case(b"README.md", b"readme"));
    assert!(contains_bytes_ignore_case(b"my ReAdMe", b"readme"));
    assert!(contains_bytes_ignore_case(b"x", b""));
    assert!(!contains_bytes_ignore_case(b"read", b"readme"));
    assert!(contains_bytes_ignore_case(b"a-Z", b"-z"));
    // A needle starting with a capital only finds that capital first.
    assert!(!contains_bytes_ignore_case(b"xworld", b"World"));
    assert!(contains_bytes_ignore_case(b"xWORLD", b"World"));
}

#[test]
fn contains_bytes_ignore_case_ignores_haystack_case() {
    for seed in 0..20u64 {
        let hay = bytes(seed, 200, 4);
        let upper: Vec<u8> = hay.iter().map(|b| b.to_ascii_uppercase()).collect();
        for len in 1..5 {
            let needle = bytes(seed + 77, len, 4);
            let expected = naive_contains(&hay, &needle);
            assert_eq!(contains_bytes_ignore_case(&hay, &needle), expected);
            assert_eq!(contains_bytes_ignore_case(&upper, &needle), expected);
        }
    }
}

#[test]
fn ascii_case_helpers() {
    assert_eq!(to_ascii_lowercase(b'A'), b'a');
    assert_eq!(to_ascii_lowercase(b'z'), b'z');
    assert_eq!(to_ascii_lowercase(b'@'), b'@');
    assert_eq!(to_ascii_uppercase(b'a'), b'A');
    assert_eq!(to_ascii_uppercase(b'{'), b'{');
    assert_eq!(to_ascii_lower('Q'), 'q');
    assert_eq!(to_ascii_lower('É'), 'É');
}

#[test]
fn within_distance_examples() {
    let kitten: Vec<char> = "kitten".chars().collect();
    let sitting: Vec<char> = "sitting".chars().collect();
    assert!(within_distance(&kitten, &sitting, 3, false));
    assert!(!within_distance(&kitten, &sitting, 2, false));
    assert!(within_distance(&sitting, &kitten, 3, false));
    assert!(!within_distance(&sitting, &kitten, 2, false));
    let abc: Vec<char> = "abc".chars().collect();
    let upper: Vec<char> = "ABC".chars().collect();
    assert!(within_distance(&abc, &upper, 0, true));
    assert!(!within_distance(&abc, &upper, 2, false));
    assert!(within_distance(&abc, &upper, 3, false));
    assert!(within_distance(&[], &abc, 3, false));
    assert!(!within_distance(&[], &abc, 2, false));
    assert!(within_distance(&abc, &abc, 0, false));
    assert!(within_distance(&abc, &abc, usize::MAX, false));
}

#[test]
fn within_distance_matches_levenshtein() {
    for seed in 0..60u64 {
        let a: Vec<char> = bytes(seed, (seed % 9) as usize, 3).iter().map(|&b| b as char).collect();
        let b: Vec<char> = bytes(seed + 500, (seed % 7) as usize + 1, 3).iter().map(|&b| b as char).collect();
        let d = levenshtein(&b, &a);
        assert_eq!(d, levenshtein(&a, &b));
        for max in 0..10 {
            assert_eq!(within_distance(&a, &b, max, false), d <= max);
        }
    }
}

#[test]
fn name_matching_case_sensitive() {
    let m = PatternMatcher::from_args(&args(&["config"]));
    assert!(m.matches("config.toml"));
    assert!(m.matches("my_config"));
    assert!(!m.matches("Config.toml"));
    assert!(!m.matches("conf"));
}

#[test]
fn name_matching_any_pattern() {
    let m = PatternMatcher::from_args(&args(&[".txt", ".md", ".rst"]));
    assert!(m.matches("notes.md"));
    assert!(m.matches("a.rst"));
    assert!(!m.matches("main.rs"));
}

#[test]
fn name_matching_case_insensitive() {
    let mut a = args(&["ReadMe"]);
    a.case_insensitive = true;
    let m = PatternMatcher::from_args(&a);
    assert!(m.matches("README.md"));
    assert!(m.matches("readme"));
    assert!(!m.matches("read.me"));
}

#[test]
fn name_matching_case_insensitive_unicode() {
    let mut a = args(&["ÄRGER"]);
    a.case_insensitive = true;
    let m = PatternMatcher::from_args(&a);
    assert!(m.matches("Ärger.txt"));
    assert!(m.matches("großer ärger"));
    assert!(!m.matches("Arger.txt"));
    let sensitive = PatternMatcher::from_args(&args(&["ÄRGER"]));
    assert!(!sensitive.matches("ärger"));
    assert!(sensitive.matches("ÄRGER"));
}

#[test]
fn name_matching_fuzzy() {
    let mut a = args(&["dokument"]);
    a.fuzzy = true;
    let m = PatternMatcher::from_args(&a);
    assert!(m.matches("document.txt"));
    assert!(m.matches("my-dokumnt"));
    assert!(!m.matches("doc.txt"));
    let exact = PatternMatcher::from_args(&args(&["dokument"]));
    assert!(!exact.matches("document.txt"));
    let mut strict = args(&["dokument"]);
    strict.fuzzy = true;
    strict.fuzzy_threshold = 0;
    let m0 = PatternMatcher::from_args(&strict);
    assert!(!m0.matches("document.txt"));
}

#[test]
fn name_matching_fuzzy_unicode_words() {
    let mut a = args(&["naïve"]);
    a.fuzzy = true;
    a.fuzzy_threshold = 1;
    let m = PatternMatcher::from_args(&a);
    assert!(m.matches("the naive way"));
    assert!(m.matches("naïve"));
    assert!(!m.matches("nav"));
}

#[test]
fn name_matching_fuzzy_folds_case_when_insensitive() {
    let mut a = args(&["Report"]);
    a.fuzzy = true;
    a.fuzzy_threshold = 1;
    a.case_insensitive = true;
    let m = PatternMatcher::from_args(&a);
    assert!(m.matches("REPORTS_2024"));
    let mut b = args(&["Report"]);
    b.fuzzy = true;
    b.fuzzy_threshold = 1;
    let sensitive = PatternMatcher::from_args(&b);
    assert!(!sensitive.matches("REPORTZ"));
}

#[test]
fn content_matching() {
    let mut a = args(&["TODO"]);
    a.content_search = true;
    let m = PatternMatcher::from_args(&a);
    assert!(m.content_search());
    assert_eq!(m.max_content_size(), 10_485_760);
    assert!(m.matches_content(file(b"fn main() { // TODO }".to_vec())));
    assert!(!m.matches_content(file(b"fn main() { // todo }".to_vec())));
    assert!(!m.matches_content(None));
    let off = PatternMatcher::from_args(&args(&["TODO"]));
    assert!(!off.content_search());
    assert!(!off.matches_content(file(b"TODO".to_vec())));
}

#[test]
fn content_matching_case_insensitive_and_binary() {
    let mut a = args(&["Import"]);
    a.content_search = true;
    a.case_insensitive = true;
    let m = PatternMatcher::from_args(&a);
    assert!(m.matches_content(file(b"IMPORT os".to_vec())));
    assert!(m.matches_content(file(vec![0xff, 0xfe, b'i', b'M', b'p', b'O', b'r', b'T'])));
    assert!(!m.matches_content(file(vec![0xff, 0xfe, b'i', b'M', b'p'])));
    let mut u = args(&["grüße"]);
    u.content_search = true;
    let unicode = PatternMatcher::from_args(&u);
    assert!(unicode.matches_content(file("viele grüße".as_bytes().to_vec())));
}

#[test]
fn content_matching_fuzzy_words() {
    let mut a = args(&["function"]);
    a.content_search = true;
    a.fuzzy = true;
    let m = PatternMatcher::from_args(&a);
    assert!(m.matches_content(file(b"a functon here".to_vec())));
    assert!(m.matches_content(file(vec![0xff, b' ', b'f', b'u', b'n', b'c', b't', b'i', b'o'])));
    assert!(!m.matches_content(file(b"nothing relevant".to_vec())));
}

#[test]
fn content_matching_case_insensitive_unicode_text() {
    let mut a = args(&["É"]);
    a.content_search = true;
    a.case_insensitive = true;
    let m = PatternMatcher::from_args(&a);
    assert!(m.matches_content(file("CAFÉ".as_bytes().to_vec())));
    assert!(m.matches_content(file("café".as_bytes().to_vec())));
    assert!(!m.matches_content(file("CAFE".as_bytes().to_vec())));
    let mut s = args(&["ÄRGER"]);
    s.content_search = true;
    s.case_insensitive = true;
    let upper = PatternMatcher::from_args(&s);
    assert!(upper.matches_content(file("kein ärger hier".as_bytes().to_vec())));
    s.case_insensitive = false;
    let sensitive = PatternMatcher::from_args(&s);
    assert!(!sensitive.matches_content(file("kein ärger hier".as_bytes().to_vec())));
}

#[test]
fn content_size_limit() {
    let mut a = args(&["x"]);
    a.content_search = true;
    a.max_content_size = 4;
    let m = PatternMatcher::from_args(&a);
    assert!(!m.wants_content(0));
    assert!(m.wants_content(1));
    assert!(m.wants_content(4));
    assert!(!m.wants_content(5));
    assert!(!m.matches_content(file(Vec::new())));
    assert!(m.matches_content(file(b"abcx".to_vec())));
    assert!(!m.matches_content(file(b"abcdx".to_vec())));
    assert!(!m.matches_content(Some((5, b"abcx".to_vec()))));
    let off = PatternMatcher::from_args(&args(&["x"]));
    assert!(!off.wants_content(1));
}

#[test]
fn content_size_comes_from_the_metadata() {
    let mut a = args(&[""]);
    a.content_search = true;
    let m = PatternMatcher::from_args(&a);
    assert!(m.matches_content(Some((3, Vec::new()))));
    assert!(!m.matches_content(Some((0, Vec::new()))));
    let mut b = args(&["abc"]);
    b.content_search = true;
    let n = PatternMatcher::from_args(&b);
    assert!(n.matches_content(Some((10, b"xabc".to_vec()))));
    assert!(!n.matches_content(Some((10, b"xab".to_vec()))));
}
