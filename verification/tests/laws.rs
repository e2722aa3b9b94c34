use omega::cli::Args;
use omega::file_info::FileInfo;
use omega::matcher::PatternMatcher;
use omega::utils::{write_decimal, write_timestamp};

/// A file that was read whole: its size and its bytes.
fn file(data: Vec<u8>) -> Option<(u64, Vec<u8>)> {
    Some((data.len() as u64, data))
}

fn args(patterns: &[&str]) -> Args {
    Args {
        patterns: patterns.iter().map(|p| p.to_string()).collect(),
        path: Vec::new(),
        limit_found: None,
        limit_scanned: None,
        threads: None,
        max_depth: None,
        case_insensitive: false,
        files_only: false,
        dirs_only: false,
        hide_errors: false,
        fuzzy: false,
        fuzzy_threshold: 2,
        api: false,
        content_search: false,
        max_content_size: 10_485_760,
    }
}

fn is_leap(year: u64) -> bool {
    year % 4 == 0 && (year % 100 != 0 || year % 400 == 0)
}

/// Days from 1970-01-01 to the date, counted year by year and month by month.
fn days_from_civil(year: u64, month: u64, day: u64) -> u64 {
    let mut days = 0;
    for y in 1970..year {
        days += if is_leap(y) { 366 } else { 365 };
    }
    let lengths = [31, if is_leap(year) { 29 } else { 28 }, 31, 30, 31, 30, 31, 31, 30, 31, 30, 31];
    for m in 1..month {
        days += lengths[(m - 1) as usize];
    }
    days + day - 1
}

#[test]
fn decimal_reads_back() {
    for n in [0u64, 7, 10, 99, 100, 1_000_007, u64::MAX / 3, u64::MAX] {
        let mut out = Vec::new();
        write_decimal(&mut out, n);
        let text = String::from_utf8(out).unwrap();
        assert_eq!(text.parse::<u64>().unwrap(), n);
        assert!(text == "0" || !text.starts_with('0'));
    }
}

#[test]
fn timestamp_fields_recompose_the_timestamp() {
    let mut t: u64 = 0;
    for step in 0..400u64 {
        let mut out = Vec::new();
        write_timestamp(&mut out, t);
        let text = String::from_utf8(out).unwrap();
        assert_eq!(text.len(), 20);
        assert_eq!(&text[4..5], "-");
        assert_eq!(&text[7..8], "-");
        assert_eq!(&text[10..11], "T");
        assert_eq!(&text[13..14], ":");
        assert_eq!(&text[16..17], ":");
        assert_eq!(&text[19..20], "Z");
        let year: u64 = text[0..4].parse().unwrap();
        let month: u64 = text[5..7].parse().unwrap();
        let day: u64 = text[8..10].parse().unwrap();
        let hour: u64 = text[11..13].parse().unwrap();
        let minute: u64 = text[14..16].parse().unwrap();
        let second: u64 = text[17..19].parse().unwrap();
        assert!(hour < 24 && minute < 60 && second < 60);
        assert!((1..=12).contains(&month) && day >= 1);
        assert_eq!(days_from_civil(year, month, day) * 86_400 + hour * 3600 + minute * 60 + second, t);
        t += 7_654_321 + step * 13;
    }
}

#[test]
fn fuzzy_keeps_name_matches() {
    let names = ["config.toml", "CONFIG", "my-conf", "Ärger", "nothing", "conffig"];
    for insensitive in [false, true] {
        let mut plain = args(&["config", "ärger"]);
        plain.case_insensitive = insensitive;
        let mut fuzzy = plain.clone();
        fuzzy.fuzzy = true;
        let exact = PatternMatcher::from_args(&plain);
        let approximate = PatternMatcher::from_args(&fuzzy);
        for name in names {
            if exact.matches(name) {
                assert!(approximate.matches(name));
            }
        }
        assert!(approximate.matches("conffig"));
    }
}

#[test]
fn case_insensitive_names_ignore_their_case() {
    let mut a = args(&["readme", "Setup.PY"]);
    a.case_insensitive = true;
    let m = PatternMatcher::from_args(&a);
    for name in ["README.md", "readme.md", "ReadMe.MD", "setup.py", "SETUP.PY", "other.txt"] {
        assert_eq!(m.matches(name), m.matches(&name.to_ascii_lowercase()));
        assert_eq!(m.matches(name), m.matches(&name.to_ascii_uppercase()));
    }
}

#[test]
fn case_insensitive_fuzzy_names_ignore_their_case() {
    let mut a = args(&["config"]);
    a.case_insensitive = true;
    a.fuzzy = true;
    a.fuzzy_threshold = 1;
    let m = PatternMatcher::from_args(&a);
    for name in ["my CONFIQ file", "Confg.toml", "other-CONFIGS", "nothing here", "CoNfIx"] {
        assert_eq!(m.matches(name), m.matches(&name.to_ascii_lowercase()));
        assert_eq!(m.matches(name), m.matches(&name.to_ascii_uppercase()));
    }
    assert!(m.matches("my CONFIQ file"));
    assert!(!m.matches("nothing here"));
}

/// Splits a line written by `to_csv` into its fields, as a CSV reader does.
fn split_csv_line(line: &str) -> Vec<String> {
    let mut fields = Vec::new();
    let mut current = String::new();
    let mut quoted = false;
    let mut chars = line.chars().peekable();
    while let Some(c) = chars.next() {
        if quoted {
            if c == '"' {
                if chars.peek() == Some(&'"') {
                    current.push('"');
                    chars.next();
                } else {
                    quoted = false;
                }
            } else {
                current.push(c);
            }
        } else if c == '"' {
            quoted = true;
        } else if c == ',' {
            fields.push(std::mem::take(&mut current));
        } else {
            current.push(c);
        }
    }
    fields.push(current);
    fields
}

#[test]
fn file_info_csv_reads_back() {
    let info = FileInfo::from_metadata(
        "/data/a, \"b\"\tc".to_string(),
        "a, \"b\"\tc".to_string(),
        false,
        true,
        5,
        "5 B".to_string(),
        951_782_400,
        true,
        "".to_string(),
        "rw-------".to_string(),
    );
    let fields = split_csv_line(&info.to_csv());
    assert_eq!(
        fields,
        vec![
            "/data/a, \"b\"\tc",
            "a, \"b\"\tc",
            "false",
            "true",
            "5",
            "5 B",
            "951782400",
            "2000-02-29T00:00:00Z",
            "true",
            "",
            "rw-------",
        ]
    );
}

#[test]
fn case_sensitive_matching_is_text_matching() {
    let m = PatternMatcher::from_args(&args(&["rger", "é"]));
    assert!(m.matches("großer Ärger"));
    assert!(m.matches("café"));
    assert!(!m.matches("cafe"));
    assert!(!m.matches("©"));
    let n = PatternMatcher::from_args(&args(&["Ä"]));
    assert!(n.matches("xÄx"));
    assert!(!n.matches("ä"));
}

#[test]
fn content_matching_is_byte_matching_for_text_and_binary() {
    let mut a = args(&["needle"]);
    a.content_search = true;
    let m = PatternMatcher::from_args(&a);
    let text = b"hay needle hay".to_vec();
    let mut binary = text.clone();
    binary.insert(0, 0xff);
    assert!(m.matches_content(file(text)));
    assert!(m.matches_content(file(binary)));
    assert!(!m.matches_content(file(vec![0xff, b'n', b'e', b'e'])));
}

#[test]
fn ascii_names_match_as_their_lowercase_text() {
    let mut a = args(&["ReadMe", "CONF"]);
    a.case_insensitive = true;
    let m = PatternMatcher::from_args(&a);
    for name in ["README.md", "xconfig", "Setup.py", "MyConfFile", "rEaDmE"] {
        let lowered = name.to_lowercase();
        let expected = lowered.contains("readme") || lowered.contains("conf");
        assert_eq!(m.matches(name), expected);
    }
    a.fuzzy = true;
    a.fuzzy_threshold = 1;
    let f = PatternMatcher::from_args(&a);
    assert!(f.matches("my REDME notes"));
    assert!(f.matches("the-COF"));
    assert!(!f.matches("nothing-here"));
}
