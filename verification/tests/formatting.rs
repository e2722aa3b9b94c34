use omega::calendar::civil_from_days;
use omega::file_info::FileInfo;
use omega::metrics::write_error_line;
use omega::output::{
    write_bool, write_csv_record, write_path_line, EntryMetadata, OutputMode, ResultPrinter,
    SearchResult,
};
use omega::utils::{
    is_hidden, size_unit, size_unit_name, write_csv_field, write_decimal, write_padded,
    write_permissions, write_timestamp,
};

fn csv(field: &[u8]) -> Vec<u8> {
    let mut out = Vec::new();
    write_csv_field(&mut out, field);
    out
}

/// Reads a CSV field back the way a CSV reader does.
fn parse_field(text: &[u8]) -> Vec<u8> {
    if text.len() >= 2 && text[0] == b'"' && text[text.len() - 1] == b'"' {
        let body = &text[1..text.len() - 1];
        let mut out = Vec::new();
        let mut i = 0;
        while i < body.len() {
            if body[i] == b'"' && i + 1 < body.len() && body[i + 1] == b'"' {
                out.push(b'"');
                i += 2;
            } else {
                out.push(body[i]);
                i += 1;
            }
        }
        out
    } else {
        text.to_vec()
    }
}

fn timestamp(t: u64) -> String {
    let mut out = Vec::new();
    write_timestamp(&mut out, t);
    String::from_utf8(out).unwrap()
}

#[test]
fn csv_field_plain_is_unchanged() {
    assert_eq!(csv(b"file.txt"), b"file.txt".to_vec());
    assert_eq!(csv(b""), b"".to_vec());
}

#[test]
fn csv_field_quotes_separators() {
    assert_eq!(csv(b"a,b"), b"\"a,b\"".to_vec());
    assert_eq!(csv(b"line\nbreak"), b"\"line\nbreak\"".to_vec());
    assert_eq!(csv(b"tab\there"), b"\"tab\there\"".to_vec());
    assert_eq!(csv(b"cr\r"), b"\"cr\r\"".to_vec());
}

#[test]
fn csv_field_doubles_quotes() {
    assert_eq!(csv(b"say \"hi\""), b"\"say \"\"hi\"\"\"".to_vec());
    assert_eq!(csv(b"\""), b"\"\"\"\"".to_vec());
}

#[test]
fn csv_field_appends_to_existing_output() {
    let mut out = b"x,".to_vec();
    write_csv_field(&mut out, b"a\"b");
    assert_eq!(out, b"x,\"a\"\"b\"".to_vec());
}

#[test]
fn csv_field_roundtrip() {
    let fields: [&[u8]; 7] = [
        b"",
        b"plain",
        b"\"",
        b"\"\"",
        b"a,\"b\",c",
        b"\"quoted\"",
        b"\n\r\t,",
    ];
    for field in fields {
        assert_eq!(parse_field(&csv(field)), field.to_vec());
    }
}

#[test]
fn timestamp_epoch() {
    assert_eq!(timestamp(0), "1970-01-01T00:00:00Z");
}

#[test]
fn timestamp_known_values() {
    assert_eq!(timestamp(1_701_936_000), "2023-12-07T08:00:00Z");
    assert_eq!(timestamp(951_782_400), "2000-02-29T00:00:00Z");
    assert_eq!(timestamp(4_107_542_400), "2100-03-01T00:00:00Z");
    assert_eq!(timestamp(253_402_300_799), "9999-12-31T23:59:59Z");
    assert_eq!(timestamp(86_399), "1970-01-01T23:59:59Z");
}

#[test]
fn timestamp_five_digit_year_is_not_truncated() {
    assert_eq!(timestamp(253_402_300_800), "10000-01-01T00:00:00Z");
}

#[test]
fn timestamp_largest_value_does_not_panic() {
    let text = timestamp(u64::MAX);
    assert!(text.ends_with('Z'));
    assert!(text.contains('T'));
}

#[test]
fn civil_from_days_known_dates() {
    assert_eq!(civil_from_days(0), (1970, 1, 1));
    assert_eq!(civil_from_days(59), (1970, 3, 1));
    assert_eq!(civil_from_days(11_016), (2000, 2, 29));
    assert_eq!(civil_from_days(11_017), (2000, 3, 1));
    assert_eq!(civil_from_days(47_540), (2100, 2, 28));
    assert_eq!(civil_from_days(47_541), (2100, 3, 1));
}

#[test]
fn civil_from_days_consecutive_days_are_consecutive_dates() {
    let month_lengths = |year: u64, month: u64| -> u64 {
        match month {
            2 => {
                if year % 4 == 0 && (year % 100 != 0 || year % 400 == 0) {
                    29
                } else {
                    28
                }
            }
            4 | 6 | 9 | 11 => 30,
            _ => 31,
        }
    };
    let mut expected = (1970u64, 1u64, 1u64);
    for day in 0..200_000u64 {
        assert_eq!(civil_from_days(day), expected);
        let (y, m, d) = expected;
        expected = if d < month_lengths(y, m) {
            (y, m, d + 1)
        } else if m < 12 {
            (y, m + 1, 1)
        } else {
            (y + 1, 1, 1)
        };
    }
}

#[test]
fn decimal_and_padding() {
    let mut out = Vec::new();
    write_decimal(&mut out, 0);
    out.push(b' ');
    write_decimal(&mut out, 1_523);
    out.push(b' ');
    write_decimal(&mut out, u64::MAX);
    assert_eq!(out, b"0 1523 18446744073709551615".to_vec());
    let mut padded = Vec::new();
    write_padded(&mut padded, 7, 2);
    write_padded(&mut padded, 42, 4);
    write_padded(&mut padded, 12_345, 4);
    assert_eq!(padded, b"07004212345".to_vec());
}

#[test]
fn size_units() {
    assert_eq!(size_unit(0), 0);
    assert_eq!(size_unit(1023), 0);
    assert_eq!(size_unit(1024), 1);
    assert_eq!(size_unit(1024 * 1024 - 1), 1);
    assert_eq!(size_unit(1024 * 1024), 2);
    assert_eq!(size_unit(1 << 30), 3);
    assert_eq!(size_unit(1 << 40), 4);
    assert_eq!(size_unit(u64::MAX), 4);
    let names: Vec<&str> = (0..5).map(size_unit_name).collect();
    assert_eq!(names, vec!["B", "KB", "MB", "GB", "TB"]);
}

#[test]
fn hidden_names() {
    assert!(is_hidden(".git"));
    assert!(is_hidden("."));
    assert!(!is_hidden("a.txt"));
    assert!(!is_hidden(""));
    assert!(!is_hidden("é.txt"));
}

#[test]
fn permission_strings() {
    let render = |mode: u32| {
        let mut out = Vec::new();
        write_permissions(&mut out, mode);
        String::from_utf8(out).unwrap()
    };
    assert_eq!(render(0o755), "rwxr-xr-x");
    assert_eq!(render(0o644), "rw-r--r--");
    assert_eq!(render(0), "---------");
    assert_eq!(render(0o100777), "rwxrwxrwx");
    assert_eq!(render(0o421), "r---w---x");
}

#[test]
fn bool_and_path_lines() {
    let mut out = Vec::new();
    write_bool(&mut out, true);
    write_bool(&mut out, false);
    write_path_line(&mut out, b"/home/user/file.txt");
    assert_eq!(out, b"truefalse/home/user/file.txt\n".to_vec());
}

fn sample_metadata() -> EntryMetadata {
    EntryMetadata {
        is_dir: false,
        is_file: true,
        len: 1024,
        modified: 1_701_936_000,
        is_hidden: false,
        size_human: b"1.00 KB".to_vec(),
        permissions: b"rw-r--r--".to_vec(),
    }
}

#[test]
fn csv_record_of_a_file() {
    let mut out = Vec::new();
    write_csv_record(&mut out, b"/home/user/file.txt", "file.txt", b"txt", &sample_metadata());
    assert_eq!(
        String::from_utf8(out).unwrap(),
        "/home/user/file.txt,file.txt,false,true,1024,1.00 KB,1701936000,2023-12-07T08:00:00Z,false,txt,rw-r--r--\n"
    );
}

#[test]
fn csv_record_of_a_directory_has_size_zero_and_quoted_fields() {
    let meta = EntryMetadata {
        is_dir: true,
        is_file: false,
        len: 4096,
        modified: 0,
        is_hidden: true,
        size_human: b"0 B".to_vec(),
        permissions: b"rwxr-xr-x".to_vec(),
    };
    let mut out = Vec::new();
    write_csv_record(&mut out, b"/tmp/a,b", ".a,b", b"", &meta);
    assert_eq!(
        String::from_utf8(out).unwrap(),
        "\"/tmp/a,b\",\".a,b\",true,false,0,0 B,0,1970-01-01T00:00:00Z,true,,rwxr-xr-x\n"
    );
}

#[test]
fn printer_header_only_in_api_mode() {
    assert_eq!(
        ResultPrinter::new(OutputMode::Api).header(),
        b"path,name,is_dir,is_file,size,size_human,modified,modified_human,is_hidden,extension,permissions\n".to_vec()
    );
    assert!(ResultPrinter::new(OutputMode::Normal).header().is_empty());
}

#[test]
fn summary_texts() {
    let result = SearchResult::new(42, 1523, 3, OutputMode::Normal);
    assert_eq!(result.found, 42);
    assert_eq!(result.scanned, 1523);
    assert_eq!(result.errors, 3);
    assert_eq!(
        String::from_utf8(result.summary(false)).unwrap(),
        "\n42 found | 1523 scanned\n3 errors occurred\n"
    );
    assert_eq!(
        String::from_utf8(result.summary(true)).unwrap(),
        "\n42 found | 1523 scanned\n"
    );
    let clean = SearchResult::new(0, 10, 0, OutputMode::Normal);
    assert_eq!(String::from_utf8(clean.summary(false)).unwrap(), "\n0 found | 10 scanned\n");
    let api = SearchResult::new(42, 1523, 3, OutputMode::Api);
    assert!(api.summary(false).is_empty());
}

#[test]
fn error_log_line() {
    let mut out = Vec::new();
    write_error_line(&mut out, 86_400, b"/root/secret", b"Permission denied");
    assert_eq!(
        String::from_utf8(out).unwrap(),
        "[1970-01-02T00:00:00Z] /root/secret: Permission denied\n"
    );
}

#[test]
fn file_info_csv() {
    let info = FileInfo::from_metadata(
        "/home/user/file.txt".to_string(),
        "file.txt".to_string(),
        false,
        true,
        1024,
        "1.00 KB".to_string(),
        1_701_936_000,
        false,
        "txt".to_string(),
        "rw-r--r--".to_string(),
    );
    assert_eq!(info.size, 1024);
    assert_eq!(info.modified_human, "2023-12-07T08:00:00Z");
    assert_eq!(
        info.to_csv(),
        "/home/user/file.txt,file.txt,false,true,1024,1.00 KB,1701936000,2023-12-07T08:00:00Z,false,txt,rw-r--r--"
    );
    assert_eq!(
        FileInfo::csv_header(),
        "path,name,is_dir,is_file,size,size_human,modified,modified_human,is_hidden,extension,permissions"
    );
}

#[test]
fn file_info_directory_and_quoting() {
    let info = FileInfo::from_metadata(
        "/tmp/say \"hi\"".to_string(),
        "say \"hi\"".to_string(),
        true,
        false,
        4096,
        "4.00 KB".to_string(),
        0,
        false,
        "".to_string(),
        "rwx------".to_string(),
    );
    assert_eq!(info.size, 0);
    assert_eq!(
        info.to_csv(),
        "\"/tmp/say \"\"hi\"\"\",\"say \"\"hi\"\"\",true,false,0,4.00 KB,0,1970-01-01T00:00:00Z,false,,rwx------"
    );
}
