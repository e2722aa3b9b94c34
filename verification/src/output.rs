//! What a search writes: one path per line, or one CSV record per entry,
//! and the closing summary.

use vstd::prelude::*;
use vstd::utf8::{encode_utf8, is_ascii_chars_encode_utf8};

use crate::cli::Args;
use crate::utils::{
    csv_field,
    csv_line,
    decimal,
    decimal_value,
    iso_timestamp,
    lemma_csv_line_push,
    lemma_csv_line_reads_back,
    lemma_decimal_roundtrip,
    lemma_iso_timestamp_plain,
    lemma_iso_timestamp_reads_back,
    lemma_plain_field_unquoted,
    needs_quoting,
    plain_field,
    read_csv_line,
    read_iso_timestamp,
    write_byte,
    write_bytes,
    write_csv_field,
    write_decimal,
    write_str,
    write_timestamp,
};

verus! {

/// How found entries are written.
#[derive(Debug, Clone, Copy, PartialEq, Eq, Structural)]
pub enum OutputMode {
    /// One path per line.
    Normal,
    /// A CSV header, then one CSV record per entry.
    Api,
}

impl OutputMode {
    /// CSV output when the search asks for the API format.
    pub fn from_args(args: &Args) -> (mode: Self)
        ensures
            mode == (if args.api {
                OutputMode::Api
            } else {
                OutputMode::Normal
            }),
    {
        if args.api {
            Self::Api
        } else {
            Self::Normal
        }
    }
}

/// The CSV header line, with its newline.
pub open spec fn csv_header_line() -> Seq<u8> {
    encode_utf8(
        "path,name,is_dir,is_file,size,size_human,modified,modified_human,is_hidden,extension,permissions\n"@,
    )
}

/// `true` or `false`.
pub open spec fn bool_text(value: bool) -> Seq<u8> {
    if value {
        encode_utf8("true"@)
    } else {
        encode_utf8("false"@)
    }
}

/// Appends a path and a newline.
pub fn write_path_line(out: &mut Vec<u8>, path: &[u8])
    ensures
        final(out)@ == old(out)@ + path@ + seq![10u8],
{
    write_bytes(out, path);
    out.push(10);
}

/// Appends `true` or `false`.
pub fn write_bool(out: &mut Vec<u8>, value: bool)
    ensures
        final(out)@ == old(out)@ + bool_text(value),
{
    if value {
        write_str(out, "true");
    } else {
        write_str(out, "false");
    }
}

/// What a CSV record says of an entry besides its path, name and extension.
pub struct EntryMetadata {
    pub is_dir: bool,
    pub is_file: bool,
    /// The length in bytes.
    pub len: u64,
    /// Last modification, in seconds since the Unix epoch (0 when unknown).
    pub modified: u64,
    pub is_hidden: bool,
    /// The size in human-readable form, such as `1.00 KB`.
    pub size_human: Vec<u8>,
    /// The permissions in `rwxrwxrwx` form.
    pub permissions: Vec<u8>,
}

/// The CSV record of an entry: path, name, kind, size (0 for what is not a
/// file), modification time, hidden flag, extension and permissions.
pub open spec fn csv_record(
    path: Seq<u8>,
    name: Seq<char>,
    extension: Seq<u8>,
    meta: EntryMetadata,
) -> Seq<u8> {
    let size: nat = if meta.is_file {
        meta.len as nat
    } else {
        0
    };
    let comma = seq![44u8];
    csv_field(path) + comma + csv_field(encode_utf8(name)) + comma + bool_text(meta.is_dir) + comma
        + bool_text(meta.is_file) + comma + decimal(size) + comma + meta.size_human@ + comma
        + decimal(meta.modified as nat) + comma + iso_timestamp(meta.modified as nat) + comma
        + bool_text(meta.is_hidden) + comma + csv_field(extension) + comma + meta.permissions@
        + seq![10u8]
}

/// `true` and `false` are told apart, and neither forces CSV quoting.
proof fn lemma_bool_text(value: bool)
    ensures
        plain_field(bool_text(value)),
        bool_text(true) != bool_text(false),
{
    reveal_strlit("true");
    reveal_strlit("false");
    is_ascii_chars_encode_utf8("true"@);
    is_ascii_chars_encode_utf8("false"@);
    assert(bool_text(true).len() != bool_text(false).len());
    let t = bool_text(value);
    if value {
        assert forall|i: int| 0 <= i < t.len() implies !needs_quoting(#[trigger] t[i]) by {
            assert(t[i] == "true"@[i] as u8);
        }
    } else {
        assert forall|i: int| 0 <= i < t.len() implies !needs_quoting(#[trigger] t[i]) by {
            assert(t[i] == "false"@[i] as u8);
        }
    }
}

/// The CSV record of an entry reads back, as a CSV reader reads it, into
/// the eleven columns of the header in their order: the path, the name,
/// whether it is a directory and a file, the size (0 for what is not a
/// file), the size in words, the modification time as a number and (up
/// to the year 9999) as ISO text, whether it is hidden, the extension and
/// the permissions. The size in words and the permissions are written as
/// they are, so this takes that they hold no comma, quote or line break.
#[verifier::spinoff_prover]
pub proof fn lemma_csv_record_reads_back(
    path: Seq<u8>,
    name: Seq<char>,
    extension: Seq<u8>,
    meta: EntryMetadata,
)
    requires
        plain_field(meta.size_human@),
        plain_field(meta.permissions@),
    ensures
        ({
            let f = read_csv_line(csv_record(path, name, extension, meta));
            &&& f.len() == 11
            &&& f[0] == path
            &&& f[1] == encode_utf8(name)
            &&& (f[2] == bool_text(true)) == meta.is_dir && f[2] == bool_text(meta.is_dir)
            &&& (f[3] == bool_text(true)) == meta.is_file && f[3] == bool_text(meta.is_file)
            &&& decimal_value(f[4]) == if meta.is_file {
                meta.len as nat
            } else {
                0
            }
            &&& f[5] == meta.size_human@
            &&& decimal_value(f[6]) == meta.modified
            &&& meta.modified < 253_402_300_800 ==> read_iso_timestamp(f[7]) == meta.modified
            &&& (f[8] == bool_text(true)) == meta.is_hidden && f[8] == bool_text(meta.is_hidden)
            &&& f[9] == extension
            &&& f[10] == meta.permissions@
        }),
{
    let size: nat = if meta.is_file {
        meta.len as nat
    } else {
        0
    };
    lemma_bool_text(meta.is_dir);
    lemma_bool_text(meta.is_file);
    lemma_bool_text(meta.is_hidden);
    lemma_decimal_roundtrip(size);
    lemma_decimal_roundtrip(meta.modified as nat);
    lemma_iso_timestamp_plain(meta.modified as nat);
    if meta.modified < 253_402_300_800 {
        lemma_iso_timestamp_reads_back(meta.modified as nat);
    }
    let d1 = decimal(size);
    let d2 = decimal(meta.modified as nat);
    assert(plain_field(d1));
    assert(plain_field(d2));
    lemma_plain_field_unquoted(bool_text(meta.is_dir));
    lemma_plain_field_unquoted(bool_text(meta.is_file));
    lemma_plain_field_unquoted(bool_text(meta.is_hidden));
    lemma_plain_field_unquoted(d1);
    lemma_plain_field_unquoted(d2);
    lemma_plain_field_unquoted(meta.size_human@);
    lemma_plain_field_unquoted(iso_timestamp(meta.modified as nat));
    lemma_plain_field_unquoted(meta.permissions@);
    let c = seq![44u8];
    let f1 = seq![path];
    let f2 = f1.push(encode_utf8(name));
    let f3 = f2.push(bool_text(meta.is_dir));
    let f4 = f3.push(bool_text(meta.is_file));
    let f5 = f4.push(d1);
    let f6 = f5.push(meta.size_human@);
    let f7 = f6.push(d2);
    let f8 = f7.push(iso_timestamp(meta.modified as nat));
    let f9 = f8.push(bool_text(meta.is_hidden));
    let f10 = f9.push(extension);
    let fields = f10.push(meta.permissions@);
    assert(csv_line(f1) == csv_field(path));
    lemma_csv_line_push(f1, encode_utf8(name));
    lemma_csv_line_push(f2, bool_text(meta.is_dir));
    lemma_csv_line_push(f3, bool_text(meta.is_file));
    lemma_csv_line_push(f4, d1);
    lemma_csv_line_push(f5, meta.size_human@);
    lemma_csv_line_push(f6, d2);
    lemma_csv_line_push(f7, iso_timestamp(meta.modified as nat));
    lemma_csv_line_push(f8, bool_text(meta.is_hidden));
    lemma_csv_line_push(f9, extension);
    lemma_csv_line_push(f10, meta.permissions@);
    assert(csv_record(path, name, extension, meta) == csv_line(fields) + seq![10u8]);
    lemma_csv_line_reads_back(fields, seq![10u8]);
}

/// Appends the CSV record of an entry.
pub fn write_csv_record(
    out: &mut Vec<u8>,
    path: &[u8],
    name: &str,
    extension: &[u8],
    meta: &EntryMetadata,
)
    ensures
        final(out)@ == old(out)@ + csv_record(path@, name@, extension@, *meta),
{
    let size = if meta.is_file {
        meta.len
    } else {
        0
    };
    let mut line: Vec<u8> = Vec::new();
    write_csv_field(&mut line, path);
    assert(line@ =~= csv_field(path@));
    write_byte(&mut line, 44);
    write_csv_field(&mut line, name.as_bytes());
    write_byte(&mut line, 44);
    write_bool(&mut line, meta.is_dir);
    write_byte(&mut line, 44);
    write_bool(&mut line, meta.is_file);
    write_byte(&mut line, 44);
    write_decimal(&mut line, size);
    write_byte(&mut line, 44);
    write_bytes(&mut line, meta.size_human.as_slice());
    write_byte(&mut line, 44);
    write_decimal(&mut line, meta.modified);
    write_byte(&mut line, 44);
    write_timestamp(&mut line, meta.modified);
    write_byte(&mut line, 44);
    write_bool(&mut line, meta.is_hidden);
    write_byte(&mut line, 44);
    write_csv_field(&mut line, extension);
    write_byte(&mut line, 44);
    write_bytes(&mut line, meta.permissions.as_slice());
    write_byte(&mut line, 10);
    assert(line@ == csv_record(path@, name@, extension@, *meta));
    write_bytes(out, line.as_slice());
}

/// Writes the batches of found entries; in API mode after the CSV header.
pub struct ResultPrinter {
    output_mode: OutputMode,
}

impl ResultPrinter {
    pub fn new(output_mode: OutputMode) -> (printer: Self)
        ensures
            printer.mode() == output_mode,
    {
        Self { output_mode }
    }

    pub closed spec fn mode(&self) -> OutputMode {
        self.output_mode
    }

    /// What is written before the first entry: the CSV header in API mode,
    /// nothing otherwise.
    pub fn header(&self) -> (bytes: Vec<u8>)
        ensures
            bytes@ == if self.mode() == OutputMode::Api {
                csv_header_line()
            } else {
                Seq::empty()
            },
    {
        let mut bytes: Vec<u8> = Vec::new();
        if self.output_mode == OutputMode::Api {
            write_str(
                &mut bytes,
                "path,name,is_dir,is_file,size,size_human,modified,modified_human,is_hidden,extension,permissions\n",
            );
        }
        bytes
    }
}

/// The counts a finished search reports.
pub struct SearchResult {
    pub found: u64,
    pub scanned: u64,
    pub errors: u64,
    pub output_mode: OutputMode,
}

/// The summary written to standard error after a search: nothing in API
/// mode; otherwise a blank line, the found and scanned counts, and the
/// error count when there were errors and they are not hidden.
pub open spec fn summary_text(
    found: u64,
    scanned: u64,
    errors: u64,
    mode: OutputMode,
    hide_errors: bool,
) -> Seq<u8> {
    if mode == OutputMode::Api {
        Seq::empty()
    } else {
        let counts = seq![10u8] + decimal(found as nat) + encode_utf8(" found | "@) + decimal(
            scanned as nat,
        ) + encode_utf8(" scanned\n"@);
        if !hide_errors && errors > 0 {
            counts + decimal(errors as nat) + encode_utf8(" errors occurred\n"@)
        } else {
            counts
        }
    }
}

impl SearchResult {
    pub fn new(found: u64, scanned: u64, errors: u64, output_mode: OutputMode) -> (r: Self)
        ensures
            r.found == found,
            r.scanned == scanned,
            r.errors == errors,
            r.output_mode == output_mode,
    {
        Self { found, scanned, errors, output_mode }
    }

    /// The summary of the search, as written to standard error.
    pub fn summary(&self, hide_errors: bool) -> (text: Vec<u8>)
        ensures
            text@ == summary_text(self.found, self.scanned, self.errors, self.output_mode, hide_errors),
    {
        let mut text: Vec<u8> = Vec::new();
        if self.output_mode == OutputMode::Api {
            return text;
        }
        text.push(10);
        write_decimal(&mut text, self.found);
        write_str(&mut text, " found | ");
        write_decimal(&mut text, self.scanned);
        write_str(&mut text, " scanned\n");
        if !hide_errors && self.errors > 0 {
            write_decimal(&mut text, self.errors);
            write_str(&mut text, " errors occurred\n");
        }
        text
    }
}

} // verus!
