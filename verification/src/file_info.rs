//! A found entry described as text, one CSV record per entry.

use vstd::prelude::*;

use crate::matcher::latin1_chars;
use crate::text::{chars_of, push_char};
use crate::utils::{decimal, iso_timestamp, write_decimal, write_timestamp};

verus! {

/// The chars that force a CSV field to be quoted.
pub open spec fn needs_quoting_char(c: char) -> bool {
    c == ',' || c == '"' || c == '\n' || c == '\r' || c == '\t'
}

/// Every `"` doubled, every other char kept.
pub open spec fn double_quote_chars(s: Seq<char>) -> Seq<char>
    decreases s.len(),
{
    if s.len() == 0 {
        Seq::empty()
    } else {
        let rest = double_quote_chars(s.drop_last());
        if s.last() == '"' {
            rest + seq!['"', '"']
        } else {
            rest.push(s.last())
        }
    }
}

/// A text CSV field: unchanged when no char needs quoting, else wrapped in
/// quotes with its inner quotes doubled.
pub open spec fn csv_text_field(s: Seq<char>) -> Seq<char> {
    if exists|i: int| 0 <= i < s.len() && needs_quoting_char(#[trigger] s[i]) {
        seq!['"'] + double_quote_chars(s) + seq!['"']
    } else {
        s
    }
}

/// Reads a quoted text field's body back: each `""` pair is one `"`.
pub open spec fn undouble_quote_chars(body: Seq<char>) -> Seq<char>
    decreases body.len(),
{
    if body.len() == 0 {
        Seq::empty()
    } else if body.last() == '"' && body.len() >= 2 {
        undouble_quote_chars(body.drop_last().drop_last()).push('"')
    } else {
        undouble_quote_chars(body.drop_last()).push(body.last())
    }
}

/// Reads a text CSV field back: a field in quotes has them removed and its
/// doubled quotes halved; any other field is taken as it is.
pub open spec fn parse_csv_text_field(text: Seq<char>) -> Seq<char> {
    if text.len() >= 2 && text[0] == '"' && text.last() == '"' {
        undouble_quote_chars(text.subrange(1, text.len() - 1))
    } else {
        text
    }
}

proof fn lemma_undouble_double_chars(s: Seq<char>)
    ensures
        undouble_quote_chars(double_quote_chars(s)) == s,
    decreases s.len(),
{
    if s.len() > 0 {
        lemma_undouble_double_chars(s.drop_last());
        let rest = double_quote_chars(s.drop_last());
        if s.last() == '"' {
            assert((rest + seq!['"', '"']).drop_last().drop_last() =~= rest);
        } else {
            assert(rest.push(s.last()).drop_last() =~= rest);
        }
        assert(s.drop_last().push(s.last()) =~= s);
    }
}

/// Writing a text field and reading it back gives the field.
pub proof fn lemma_csv_text_field_roundtrip(s: Seq<char>)
    ensures
        parse_csv_text_field(csv_text_field(s)) == s,
{
    if exists|i: int| 0 <= i < s.len() && needs_quoting_char(#[trigger] s[i]) {
        let text = seq!['"'] + double_quote_chars(s) + seq!['"'];
        assert(text.subrange(1, text.len() - 1) =~= double_quote_chars(s));
        lemma_undouble_double_chars(s);
    } else if s.len() >= 2 && s[0] == '"' {
        assert(needs_quoting_char(s[0]));
    }
}

/// The decimal digits of `n` as chars.
pub open spec fn decimal_chars(n: nat) -> Seq<char> {
    latin1_chars(decimal(n))
}

pub open spec fn bool_chars(b: bool) -> Seq<char> {
    if b {
        "true"@
    } else {
        "false"@
    }
}

/// Appends a text CSV field.
fn push_csv_field(out: &mut String, field: &str)
    ensures
        final(out)@ == old(out)@ + csv_text_field(field@),
{
    let chars = chars_of(field);
    let mut quoted = false;
    for k in 0..chars.len()
        invariant
            quoted <==> exists|i: int| 0 <= i < k && needs_quoting_char(#[trigger] chars@[i]),
    {
        let c = chars[k];
        if c == ',' || c == '"' || c == '\n' || c == '\r' || c == '\t' {
            quoted = true;
        }
    }
    if !quoted {
        out.append(field);
        return;
    }
    push_char(out, '"');
    let ghost start = out@;
    for j in 0..chars.len()
        invariant
            out@ == start + double_quote_chars(chars@.take(j as int)),
    {
        let c = chars[j];
        assert(chars@.take(j + 1).drop_last() == chars@.take(j as int));
        if c == '"' {
            push_char(out, '"');
        }
        push_char(out, c);
    }
    assert(chars@.take(chars@.len() as int) == chars@);
    push_char(out, '"');
    assert(out@ =~= old(out)@ + csv_text_field(field@));
}

/// Appends the chars of ASCII bytes.
fn push_ascii(out: &mut String, bytes: &[u8])
    ensures
        final(out)@ == old(out)@ + latin1_chars(bytes@),
{
    let ghost start = out@;
    for i in 0..bytes.len()
        invariant
            out@ == start + latin1_chars(bytes@.take(i as int)),
    {
        push_char(out, bytes[i] as char);
        assert(latin1_chars(bytes@.take(i + 1)) =~= latin1_chars(bytes@.take(i as int)).push(
            bytes@[i as int] as char,
        ));
    }
    assert(bytes@.take(bytes@.len() as int) == bytes@);
}

/// Appends the decimal digits of `n`.
fn push_decimal(out: &mut String, n: u64)
    ensures
        final(out)@ == old(out)@ + decimal_chars(n as nat),
{
    let mut digits: Vec<u8> = Vec::new();
    write_decimal(&mut digits, n);
    push_ascii(out, digits.as_slice());
}

/// `true` or `false`.
fn bool_text(b: bool) -> (text: String)
    ensures
        text@ == bool_chars(b),
{
    if b {
        String::from_str("true")
    } else {
        String::from_str("false")
    }
}

/// The decimal digits of `n`.
fn decimal_text(n: u64) -> (text: String)
    ensures
        text@ == decimal_chars(n as nat),
{
    let mut text = String::new();
    push_decimal(&mut text, n);
    text
}

/// What is known of a found entry.
pub struct FileInfo {
    pub path: String,
    pub name: String,
    pub is_dir: bool,
    pub is_file: bool,
    pub size: u64,
    pub size_human: String,
    pub modified: u64,
    pub modified_human: String,
    pub is_hidden: bool,
    pub extension: String,
    pub permissions: String,
}

/// The eleven fields of an entry's record, as text: path, name, kind,
/// size, human size, modification time in seconds and as text, hidden
/// flag, extension and permissions.
pub open spec fn record_fields(info: FileInfo) -> Seq<Seq<char>> {
    seq![
        info.path@,
        info.name@,
        bool_chars(info.is_dir),
        bool_chars(info.is_file),
        decimal_chars(info.size as nat),
        info.size_human@,
        decimal_chars(info.modified as nat),
        info.modified_human@,
        bool_chars(info.is_hidden),
        info.extension@,
        info.permissions@,
    ]
}

/// Fields written as one CSV record: each as a text CSV field, separated
/// by commas.
pub open spec fn csv_join(fields: Seq<Seq<char>>) -> Seq<char>
    decreases fields.len(),
{
    if fields.len() == 0 {
        Seq::empty()
    } else if fields.len() == 1 {
        csv_text_field(fields[0])
    } else {
        csv_text_field(fields[0]) + seq![','] + csv_join(fields.drop_first())
    }
}

/// The CSV record of an entry, without a line end.
pub open spec fn file_info_csv(info: FileInfo) -> Seq<char> {
    csv_join(record_fields(info))
}

/// Reads a quoted field's body, from just after its opening quote: the
/// chars up to the closing quote, a doubled quote read as one, and how many
/// chars that took, the closing quote included.
pub open spec fn read_quoted(s: Seq<char>) -> (Seq<char>, nat)
    decreases s.len(),
{
    if s.len() == 0 {
        (Seq::empty(), 0)
    } else if s[0] == '"' {
        if s.len() >= 2 && s[1] == '"' {
            let rest = read_quoted(s.skip(2));
            (seq!['"'] + rest.0, rest.1 + 2)
        } else {
            (Seq::empty(), 1)
        }
    } else {
        let rest = read_quoted(s.skip(1));
        (seq![s[0]] + rest.0, rest.1 + 1)
    }
}

/// The length of an unquoted field: up to the first comma.
pub open spec fn plain_len(s: Seq<char>) -> nat
    decreases s.len(),
{
    if s.len() == 0 || s[0] == ',' {
        0
    } else {
        1 + plain_len(s.skip(1))
    }
}

/// Reads the field at the start of a record: the field and how many chars
/// it took.
pub open spec fn read_field(s: Seq<char>) -> (Seq<char>, nat) {
    if s.len() > 0 && s[0] == '"' {
        let quoted = read_quoted(s.skip(1));
        (quoted.0, quoted.1 + 1)
    } else {
        (s.take(plain_len(s) as int), plain_len(s))
    }
}

/// Reads a record into its fields, as a CSV reader does.
pub open spec fn read_record(s: Seq<char>) -> Seq<Seq<char>>
    decreases s.len(),
{
    let first = read_field(s);
    if first.1 < s.len() && s[first.1 as int] == ',' {
        seq![first.0] + read_record(s.skip(first.1 as int + 1))
    } else {
        seq![first.0]
    }
}

proof fn lemma_double_quote_chars_concat(a: Seq<char>, b: Seq<char>)
    ensures
        double_quote_chars(a + b) == double_quote_chars(a) + double_quote_chars(b),
    decreases b.len(),
{
    if b.len() == 0 {
        assert(a + b =~= a);
        assert(double_quote_chars(b) =~= Seq::<char>::empty());
        assert(double_quote_chars(a) + double_quote_chars(b) =~= double_quote_chars(a));
    } else {
        assert((a + b).drop_last() =~= a + b.drop_last());
        assert((a + b).last() == b.last());
        lemma_double_quote_chars_concat(a, b.drop_last());
        if b.last() == '"' {
            assert(double_quote_chars(a + b) =~= double_quote_chars(a) + double_quote_chars(b));
        } else {
            assert(double_quote_chars(a + b) =~= double_quote_chars(a) + double_quote_chars(b));
        }
    }
}

/// A quoted body followed by its closing quote and then nothing or a comma
/// reads back as the field.
proof fn lemma_read_quoted(f: Seq<char>, tail: Seq<char>)
    requires
        tail.len() == 0 || tail[0] == ',',
    ensures
        read_quoted(double_quote_chars(f) + seq!['"'] + tail) == (f, double_quote_chars(f).len() + 1),
    decreases f.len(),
{
    let s = double_quote_chars(f) + seq!['"'] + tail;
    if f.len() == 0 {
        assert(double_quote_chars(f) =~= Seq::<char>::empty());
        assert(s =~= seq!['"'] + tail);
    } else {
        let first = seq![f[0]];
        let rest = f.drop_first();
        assert(f =~= first + rest);
        lemma_double_quote_chars_concat(first, rest);
        assert(first.drop_last() =~= Seq::<char>::empty());
        assert(first.last() == f[0]);
        assert(double_quote_chars(first.drop_last()) =~= Seq::<char>::empty());
        lemma_read_quoted(rest, tail);
        let inner = double_quote_chars(rest) + seq!['"'] + tail;
        if f[0] == '"' {
            assert(double_quote_chars(first) =~= seq!['"', '"']);
            assert(s =~= seq!['"', '"'] + inner);
            assert(s.skip(2) =~= inner);
            assert(seq!['"'] + rest =~= f);
        } else {
            assert(double_quote_chars(first) =~= seq![f[0]]);
            assert(s =~= seq![f[0]] + inner);
            assert(s.skip(1) =~= inner);
            assert(seq![f[0]] + rest =~= f);
        }
    }
}

/// A field with no char that needs quoting, followed by nothing or a comma,
/// ends where the comma is.
proof fn lemma_plain_len(f: Seq<char>, tail: Seq<char>)
    requires
        forall|i: int| 0 <= i < f.len() ==> !needs_quoting_char(#[trigger] f[i]),
        tail.len() == 0 || tail[0] == ',',
    ensures
        plain_len(f + tail) == f.len(),
    decreases f.len(),
{
    if f.len() == 0 {
        assert(f + tail =~= tail);
    } else {
        assert(!needs_quoting_char(f[0]));
        assert((f + tail).skip(1) =~= f.drop_first() + tail);
        assert forall|i: int| 0 <= i < f.drop_first().len() implies !needs_quoting_char(
            #[trigger] f.drop_first()[i],
        ) by {
            assert(f.drop_first()[i] == f[i + 1]);
        }
        lemma_plain_len(f.drop_first(), tail);
    }
}

/// A written field followed by nothing or a comma reads back as the field.
proof fn lemma_read_field(f: Seq<char>, tail: Seq<char>)
    requires
        tail.len() == 0 || tail[0] == ',',
    ensures
        read_field(csv_text_field(f) + tail) == (f, csv_text_field(f).len()),
{
    let s = csv_text_field(f) + tail;
    if exists|i: int| 0 <= i < f.len() && needs_quoting_char(#[trigger] f[i]) {
        let body = double_quote_chars(f);
        assert(s =~= seq!['"'] + (body + seq!['"'] + tail));
        assert(s.skip(1) =~= body + seq!['"'] + tail);
        lemma_read_quoted(f, tail);
    } else {
        lemma_plain_len(f, tail);
        assert(s =~= f + tail);
        assert((f + tail).take(f.len() as int) =~= f);
        if f.len() > 0 {
            assert(!needs_quoting_char(f[0]));
        }
    }
}

/// A record reads back into the fields it was written from.
pub proof fn lemma_csv_record_roundtrip(fields: Seq<Seq<char>>)
    requires
        fields.len() > 0,
    ensures
        read_record(csv_join(fields)) == fields,
    decreases fields.len(),
{
    let s = csv_join(fields);
    if fields.len() == 1 {
        lemma_read_field(fields[0], Seq::empty());
        assert(csv_text_field(fields[0]) + Seq::<char>::empty() =~= s);
        assert(seq![fields[0]] =~= fields);
    } else {
        let rest = fields.drop_first();
        let tail = seq![','] + csv_join(rest);
        lemma_read_field(fields[0], tail);
        assert(s =~= csv_text_field(fields[0]) + tail);
        let n = csv_text_field(fields[0]).len();
        assert(s[n as int] == ',');
        assert(s.skip(n as int + 1) =~= csv_join(rest));
        lemma_csv_record_roundtrip(rest);
        assert(seq![fields[0]] + rest =~= fields);
    }
}

/// The record of an entry reads back into its eleven fields.
pub proof fn lemma_file_info_csv_reads_back(info: FileInfo)
    ensures
        read_record(file_info_csv(info)) == record_fields(info),
        record_fields(info).len() == 11,
{
    lemma_csv_record_roundtrip(record_fields(info));
}

/// Appending a field to a record of at least one field adds a comma and
/// the written field.
proof fn lemma_csv_join_push(fields: Seq<Seq<char>>, field: Seq<char>)
    requires
        fields.len() > 0,
    ensures
        csv_join(fields.push(field)) == csv_join(fields) + seq![','] + csv_text_field(field),
    decreases fields.len(),
{
    let all = fields.push(field);
    assert(all[0] == fields[0]);
    if fields.len() == 1 {
        assert(all.drop_first() =~= seq![field]);
        assert(csv_join(seq![field]) == csv_text_field(field));
    } else {
        assert(all.drop_first() =~= fields.drop_first().push(field));
        lemma_csv_join_push(fields.drop_first(), field);
    }
}

impl FileInfo {
    /// Describes an entry from what its metadata says: the size counts only
    /// for files, and the modification time is also given as
    /// `YYYY-MM-DDTHH:MM:SSZ`.
    pub fn from_metadata(
        path: String,
        name: String,
        is_dir: bool,
        is_file: bool,
        len: u64,
        size_human: String,
        modified: u64,
        is_hidden: bool,
        extension: String,
        permissions: String,
    ) -> (info: Self)
        ensures
            info.path == path,
            info.name == name,
            info.is_dir == is_dir,
            info.is_file == is_file,
            info.size == if is_file {
                len
            } else {
                0
            },
            info.size_human == size_human,
            info.modified == modified,
            info.modified_human@ == latin1_chars(iso_timestamp(modified as nat)),
            info.is_hidden == is_hidden,
            info.extension == extension,
            info.permissions == permissions,
    {
        let mut stamp: Vec<u8> = Vec::new();
        write_timestamp(&mut stamp, modified);
        let mut modified_human = String::new();
        push_ascii(&mut modified_human, stamp.as_slice());
        assert(stamp@ =~= iso_timestamp(modified as nat));
        FileInfo {
            path,
            name,
            is_dir,
            is_file,
            size: if is_file {
                len
            } else {
                0
            },
            size_human,
            modified,
            modified_human,
            is_hidden,
            extension,
            permissions,
        }
    }

    /// The entry as one CSV record.
    pub fn to_csv(&self) -> (line: String)
        ensures
            line@ == file_info_csv(*self),
    {
        let fields = self.record_texts();
        let ghost views = fields@.map_values(|f: String| f@);
        assert(views =~= record_fields(*self));
        assert(views.len() == fields@.len());
        assert(record_fields(*self).len() == 11);
        assert(fields@.len() == 11);
        let mut out = String::new();
        for i in 0..fields.len()
            invariant
                fields@.len() == 11,
                views == fields@.map_values(|f: String| f@),
                i == 0 ==> out@ == Seq::<char>::empty(),
                i > 0 ==> out@ == csv_join(views.take(i as int)),
        {
            if i > 0 {
                push_char(&mut out, ',');
                proof {
                    lemma_csv_join_push(views.take(i as int), views[i as int]);
                    assert(views.take(i as int).push(views[i as int]) =~= views.take(i + 1));
                }
            } else {
                assert(views.take(1) =~= seq![views[0]]);
            }
            push_csv_field(&mut out, fields[i].as_str());
            assert(out@ =~= csv_join(views.take(i + 1)));
        }
        assert(views.take(11) =~= views);
        out
    }

    /// The eleven fields of the record, as text.
    fn record_texts(&self) -> (fields: Vec<String>)
        ensures
            fields@.map_values(|f: String| f@) == record_fields(*self),
    {
        let mut fields: Vec<String> = Vec::new();
        fields.push(self.path.clone());
        fields.push(self.name.clone());
        fields.push(bool_text(self.is_dir));
        fields.push(bool_text(self.is_file));
        fields.push(decimal_text(self.size));
        fields.push(self.size_human.clone());
        fields.push(decimal_text(self.modified));
        fields.push(self.modified_human.clone());
        fields.push(bool_text(self.is_hidden));
        fields.push(self.extension.clone());
        fields.push(self.permissions.clone());
        assert(fields@.map_values(|f: String| f@) =~= record_fields(*self));
        fields
    }

    /// The CSV header naming the columns of `to_csv`.
    pub fn csv_header() -> (header: &'static str)
        ensures
            header@ == "path,name,is_dir,is_file,size,size_human,modified,modified_human,is_hidden,extension,permissions"@,
    {
        "path,name,is_dir,is_file,size,size_human,modified,modified_human,is_hidden,extension,permissions"
    }
}

} // verus!
