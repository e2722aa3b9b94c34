//! Byte-level rendering helpers shared by the output modules.

use vstd::prelude::*;
use vstd::arithmetic::power::pow;
use vstd::utf8::encode_utf8;

use crate::calendar::{
    civil_date,
    civil_from_days,
    days_from_civil,
    is_valid_date,
    lemma_civil_date,
    lemma_four_digit_years,
};

verus! {

/// The bytes that force a CSV field to be quoted.
pub open spec fn needs_quoting(b: u8) -> bool {
    b == 0x2c || b == 0x22 || b == 0x0a || b == 0x0d || b == 0x09
}

/// The body of a quoted field: every `"` doubled, every other byte kept.
pub open spec fn double_quotes(field: Seq<u8>) -> Seq<u8>
    decreases field.len(),
{
    if field.len() == 0 {
        Seq::empty()
    } else {
        let rest = double_quotes(field.drop_last());
        if field.last() == 0x22 {
            rest + seq![0x22u8, 0x22u8]
        } else {
            rest.push(field.last())
        }
    }
}

/// A CSV field as written: unchanged when no byte needs quoting, else
/// wrapped in quotes with its inner quotes doubled.
#[verifier::opaque]
pub open spec fn csv_field(field: Seq<u8>) -> Seq<u8> {
    if exists|i: int| 0 <= i < field.len() && needs_quoting(#[trigger] field[i]) {
        seq![0x22u8] + double_quotes(field) + seq![0x22u8]
    } else {
        field
    }
}

/// Appends `field` to `out` as one CSV field.
pub fn write_csv_field(out: &mut Vec<u8>, field: &[u8])
    ensures
        final(out)@ == old(out)@ + csv_field(field@),
{
    reveal(csv_field);
    let mut quoted = false;
    let mut k: usize = 0;
    while k < field.len()
        invariant
            k <= field.len(),
            quoted <==> exists|i: int| 0 <= i < k && needs_quoting(#[trigger] field@[i]),
        decreases field.len() - k,
    {
        let b = field[k];
        if b == 0x2c || b == 0x22 || b == 0x0a || b == 0x0d || b == 0x09 {
            quoted = true;
        }
        k += 1;
    }
    if !quoted {
        let mut j: usize = 0;
        while j < field.len()
            invariant
                j <= field.len(),
                out@ == old(out)@ + field@.take(j as int),
            decreases field.len() - j,
        {
            out.push(field[j]);
            assert(field@.take(j + 1) == field@.take(j as int).push(field@[j as int]));
            j += 1;
        }
        assert(field@.take(field.len() as int) == field@);
        return;
    }
    out.push(0x22);
    let ghost start = out@;
    let mut j: usize = 0;
    while j < field.len()
        invariant
            j <= field.len(),
            out@ == start + double_quotes(field@.take(j as int)),
        decreases field.len() - j,
    {
        let byte = field[j];
        assert(field@.take(j + 1).drop_last() == field@.take(j as int));
        if byte == 0x22 {
            out.push(0x22);
        }
        out.push(byte);
        j += 1;
    }
    assert(field@.take(field.len() as int) == field@);
    out.push(0x22);
}

/// Reads a quoted field's body back: each `""` pair is one `"`.
pub open spec fn undouble_quotes(body: Seq<u8>) -> Seq<u8>
    decreases body.len(),
{
    if body.len() == 0 {
        Seq::empty()
    } else if body.last() == 0x22 && body.len() >= 2 {
        undouble_quotes(body.drop_last().drop_last()).push(0x22)
    } else {
        undouble_quotes(body.drop_last()).push(body.last())
    }
}

/// Reads a CSV field back: a field in quotes has them removed and its
/// doubled quotes halved; any other field is taken as it is.
pub open spec fn parse_csv_field(text: Seq<u8>) -> Seq<u8> {
    if text.len() >= 2 && text[0] == 0x22 && text.last() == 0x22 {
        undouble_quotes(text.subrange(1, text.len() - 1))
    } else {
        text
    }
}

proof fn lemma_undouble_double(field: Seq<u8>)
    ensures
        undouble_quotes(double_quotes(field)) == field,
    decreases field.len(),
{
    if field.len() > 0 {
        lemma_undouble_double(field.drop_last());
        let rest = double_quotes(field.drop_last());
        if field.last() == 0x22 {
            let d = rest + seq![0x22u8, 0x22u8];
            assert(d.drop_last().drop_last() =~= rest);
        } else {
            assert(rest.push(field.last()).drop_last() =~= rest);
        }
        assert(field.drop_last().push(field.last()) =~= field);
    }
}

/// Writing a field and reading it back gives the field: CSV quoting loses
/// nothing.
pub proof fn lemma_csv_field_roundtrip(field: Seq<u8>)
    ensures
        parse_csv_field(csv_field(field)) == field,
{
    reveal(csv_field);
    if exists|i: int| 0 <= i < field.len() && needs_quoting(#[trigger] field[i]) {
        let text = seq![0x22u8] + double_quotes(field) + seq![0x22u8];
        assert(text.subrange(1, text.len() - 1) =~= double_quotes(field));
        lemma_undouble_double(field);
    } else {
        if field.len() >= 2 && field[0] == 0x22 {
            assert(needs_quoting(field[0]));
        }
    }
}

/// No byte of the field forces quoting.
pub open spec fn plain_field(field: Seq<u8>) -> bool {
    forall|i: int| 0 <= i < field.len() ==> !needs_quoting(#[trigger] field[i])
}

/// A field with no byte that forces quoting is written as it is.
pub proof fn lemma_plain_field_unquoted(field: Seq<u8>)
    requires
        plain_field(field),
    ensures
        csv_field(field) == field,
{
    reveal(csv_field);
}

/// Fields written as one CSV line: each as a CSV field, separated by
/// commas.
pub open spec fn csv_line(fields: Seq<Seq<u8>>) -> Seq<u8>
    decreases fields.len(),
{
    if fields.len() == 0 {
        Seq::empty()
    } else if fields.len() == 1 {
        csv_field(fields[0])
    } else {
        csv_field(fields[0]) + seq![0x2cu8] + csv_line(fields.drop_first())
    }
}

/// Reads a quoted field's body, from just after its opening quote: the
/// bytes up to the closing quote, a doubled quote read as one, and how many
/// bytes that took, the closing quote included.
pub open spec fn read_quoted_bytes(s: Seq<u8>) -> (Seq<u8>, nat)
    decreases s.len(),
{
    if s.len() == 0 {
        (Seq::empty(), 0)
    } else if s[0] == 0x22 {
        if s.len() >= 2 && s[1] == 0x22 {
            let rest = read_quoted_bytes(s.skip(2));
            (seq![0x22u8] + rest.0, rest.1 + 2)
        } else {
            (Seq::empty(), 1)
        }
    } else {
        let rest = read_quoted_bytes(s.skip(1));
        (seq![s[0]] + rest.0, rest.1 + 1)
    }
}

/// The length of an unquoted field: up to the first comma or line end.
pub open spec fn plain_len_bytes(s: Seq<u8>) -> nat
    decreases s.len(),
{
    if s.len() == 0 || s[0] == 0x2c || s[0] == 0x0a {
        0
    } else {
        1 + plain_len_bytes(s.skip(1))
    }
}

/// Reads the field at the start of a line: the field and how many bytes it
/// took.
pub open spec fn read_field_bytes(s: Seq<u8>) -> (Seq<u8>, nat) {
    if s.len() > 0 && s[0] == 0x22 {
        let quoted = read_quoted_bytes(s.skip(1));
        (quoted.0, quoted.1 + 1)
    } else {
        (s.take(plain_len_bytes(s) as int), plain_len_bytes(s))
    }
}

/// Reads a CSV line into its fields, as a CSV reader does: fields follow
/// one another while a comma follows a field.
pub open spec fn read_csv_line(s: Seq<u8>) -> Seq<Seq<u8>>
    decreases s.len(),
{
    let first = read_field_bytes(s);
    if first.1 < s.len() && s[first.1 as int] == 0x2c {
        seq![first.0] + read_csv_line(s.skip(first.1 as int + 1))
    } else {
        seq![first.0]
    }
}

proof fn lemma_double_quotes_concat(a: Seq<u8>, b: Seq<u8>)
    ensures
        double_quotes(a + b) == double_quotes(a) + double_quotes(b),
    decreases b.len(),
{
    if b.len() == 0 {
        assert(a + b =~= a);
        assert(double_quotes(b) =~= Seq::<u8>::empty());
        assert(double_quotes(a) + double_quotes(b) =~= double_quotes(a));
    } else {
        assert((a + b).drop_last() =~= a + b.drop_last());
        assert((a + b).last() == b.last());
        lemma_double_quotes_concat(a, b.drop_last());
        assert(double_quotes(a + b) =~= double_quotes(a) + double_quotes(b));
    }
}

/// What may follow a field: nothing, a comma or a line end.
pub open spec fn field_end(tail: Seq<u8>) -> bool {
    tail.len() == 0 || tail[0] == 0x2c || tail[0] == 0x0a
}

proof fn lemma_read_quoted_bytes(f: Seq<u8>, tail: Seq<u8>)
    requires
        field_end(tail),
    ensures
        read_quoted_bytes(double_quotes(f) + seq![0x22u8] + tail) == (f, double_quotes(f).len() + 1),
    decreases f.len(),
{
    let s = double_quotes(f) + seq![0x22u8] + tail;
    if f.len() == 0 {
        assert(double_quotes(f) =~= Seq::<u8>::empty());
        assert(s =~= seq![0x22u8] + tail);
    } else {
        let first = seq![f[0]];
        let rest = f.drop_first();
        assert(f =~= first + rest);
        lemma_double_quotes_concat(first, rest);
        assert(first.drop_last() =~= Seq::<u8>::empty());
        assert(first.last() == f[0]);
        assert(double_quotes(first.drop_last()) =~= Seq::<u8>::empty());
        lemma_read_quoted_bytes(rest, tail);
        let inner = double_quotes(rest) + seq![0x22u8] + tail;
        if f[0] == 0x22 {
            assert(double_quotes(first) =~= seq![0x22u8, 0x22u8]);
            assert(s =~= seq![0x22u8, 0x22u8] + inner);
            assert(s.skip(2) =~= inner);
            assert(seq![0x22u8] + rest =~= f);
        } else {
            assert(double_quotes(first) =~= seq![f[0]]);
            assert(s =~= seq![f[0]] + inner);
            assert(s.skip(1) =~= inner);
            assert(seq![f[0]] + rest =~= f);
        }
    }
}

proof fn lemma_plain_len_bytes(f: Seq<u8>, tail: Seq<u8>)
    requires
        plain_field(f),
        field_end(tail),
    ensures
        plain_len_bytes(f + tail) == f.len(),
    decreases f.len(),
{
    if f.len() == 0 {
        assert(f + tail =~= tail);
    } else {
        assert(!needs_quoting(f[0]));
        assert((f + tail).skip(1) =~= f.drop_first() + tail);
        assert forall|i: int| 0 <= i < f.drop_first().len() implies !needs_quoting(
            #[trigger] f.drop_first()[i],
        ) by {
            assert(f.drop_first()[i] == f[i + 1]);
        }
        lemma_plain_len_bytes(f.drop_first(), tail);
    }
}

proof fn lemma_read_field_bytes(f: Seq<u8>, tail: Seq<u8>)
    requires
        field_end(tail),
    ensures
        read_field_bytes(csv_field(f) + tail) == (f, csv_field(f).len()),
{
    reveal(csv_field);
    let s = csv_field(f) + tail;
    if exists|i: int| 0 <= i < f.len() && needs_quoting(#[trigger] f[i]) {
        let body = double_quotes(f);
        assert(s =~= seq![0x22u8] + (body + seq![0x22u8] + tail));
        assert(s.skip(1) =~= body + seq![0x22u8] + tail);
        lemma_read_quoted_bytes(f, tail);
    } else {
        lemma_plain_len_bytes(f, tail);
        assert(s =~= f + tail);
        assert((f + tail).take(f.len() as int) =~= f);
        if f.len() > 0 {
            assert(!needs_quoting(f[0]));
        }
    }
}

/// Appending a field to a line of at least one field adds a comma and the
/// written field.
pub proof fn lemma_csv_line_push(fields: Seq<Seq<u8>>, field: Seq<u8>)
    requires
        fields.len() > 0,
    ensures
        csv_line(fields.push(field)) == csv_line(fields) + seq![0x2cu8] + csv_field(field),
    decreases fields.len(),
{
    let all = fields.push(field);
    assert(all[0] == fields[0]);
    if fields.len() == 1 {
        assert(all.drop_first() =~= seq![field]);
        assert(csv_line(seq![field]) == csv_field(field));
    } else {
        assert(all.drop_first() =~= fields.drop_first().push(field));
        lemma_csv_line_push(fields.drop_first(), field);
    }
}

/// A CSV line, ended or not by a line end, reads back into the fields it
/// was written from.
pub proof fn lemma_csv_line_reads_back(fields: Seq<Seq<u8>>, end: Seq<u8>)
    requires
        fields.len() > 0,
        end.len() == 0 || end[0] == 0x0a,
    ensures
        read_csv_line(csv_line(fields) + end) == fields,
    decreases fields.len(),
{
    let s = csv_line(fields) + end;
    if fields.len() == 1 {
        lemma_read_field_bytes(fields[0], end);
        assert(csv_field(fields[0]) + end =~= s);
        assert(seq![fields[0]] =~= fields);
    } else {
        let rest = fields.drop_first();
        let tail = seq![0x2cu8] + (csv_line(rest) + end);
        lemma_read_field_bytes(fields[0], tail);
        assert(s =~= csv_field(fields[0]) + tail);
        let n = csv_field(fields[0]).len();
        assert(s[n as int] == 0x2c);
        assert(s.skip(n as int + 1) =~= csv_line(rest) + end);
        lemma_csv_line_reads_back(rest, end);
        assert(seq![fields[0]] + rest =~= fields);
    }
}

/// Seconds in a day.
pub const SECONDS_PER_DAY: u64 = 86_400;

/// The decimal digits of `n`, most significant first, without leading zeros.
pub open spec fn decimal(n: nat) -> Seq<u8>
    decreases n,
{
    if n < 10 {
        seq![(48 + n) as u8]
    } else {
        decimal(n / 10).push((48 + n % 10) as u8)
    }
}

/// The number a string of decimal digits stands for.
pub open spec fn decimal_value(digits: Seq<u8>) -> nat
    decreases digits.len(),
{
    if digits.len() == 0 {
        0
    } else {
        decimal_value(digits.drop_last()) * 10 + (digits.last() - 48) as nat
    }
}

/// Written digits read back as the number, with no leading zero except
/// in `0` itself.
pub proof fn lemma_decimal_roundtrip(n: nat)
    ensures
        decimal_value(decimal(n)) == n,
        decimal(n).len() > 0,
        decimal(n).len() > 1 <==> n >= 10,
        forall|i: int| 0 <= i < decimal(n).len() ==> 48 <= #[trigger] decimal(n)[i] <= 57,
        decimal(n).len() > 1 ==> decimal(n)[0] != 48,
    decreases n,
{
    if n >= 10 {
        lemma_decimal_roundtrip(n / 10);
        let last = (48 + n % 10) as u8;
        assert(decimal(n) == decimal(n / 10).push(last));
        assert(decimal(n).drop_last() =~= decimal(n / 10));
        assert(decimal(n).last() == last);
        assert(decimal_value(decimal(n)) == decimal_value(decimal(n / 10)) * 10 + (last - 48) as nat);
        assert forall|i: int| 0 <= i < decimal(n).len() implies 48 <= #[trigger] decimal(n)[i]
            <= 57 by {
            if i < decimal(n).len() - 1 {
                assert(decimal(n)[i] == decimal(n / 10)[i]);
            }
        }
        if n / 10 < 10 {
            assert(decimal(n / 10) == seq![(48 + n / 10) as u8]);
        }
        assert(decimal(n)[0] == decimal(n / 10)[0]);
    } else {
        let d = decimal(n);
        assert(d == seq![(48 + n) as u8]);
        assert(d.drop_last() =~= Seq::<u8>::empty());
        assert(decimal_value(d.drop_last()) == 0);
    }
}

/// The decimal digits of `n`, padded with leading zeros to `width`.
pub open spec fn padded_decimal(n: nat, width: nat) -> Seq<u8> {
    let digits = decimal(n);
    if digits.len() >= width {
        digits
    } else {
        Seq::new((width - digits.len()) as nat, |i: int| 48u8) + digits
    }
}

/// The ASCII bytes of a string literal.
pub open spec fn ascii(s: Seq<char>) -> Seq<u8> {
    s.map_values(|c: char| c as u8)
}

/// A Unix timestamp in the form `YYYY-MM-DDTHH:MM:SSZ` (UTC).
#[verifier::opaque]
pub open spec fn iso_timestamp(timestamp: nat) -> Seq<u8> {
    let date = civil_date((timestamp / 86400) as int);
    let remaining = timestamp % 86400;
    padded_decimal(date.0 as nat, 4) + seq![45u8] + padded_decimal(date.1 as nat, 2) + seq![45u8]
        + padded_decimal(date.2 as nat, 2) + seq![84u8] + padded_decimal(remaining / 3600, 2)
        + seq![58u8] + padded_decimal((remaining % 3600) / 60, 2) + seq![58u8] + padded_decimal(
        remaining % 60,
        2,
    ) + seq![90u8]
}

/// The fields a timestamp is written with stand for that same instant: a
/// real date from 1970 on, a time of day in range, and together exactly the
/// given number of seconds after 1970-01-01T00:00:00Z.
pub proof fn lemma_timestamp_fields(timestamp: nat)
    ensures
        ({
            let date = civil_date((timestamp / 86400) as int);
            let remaining = timestamp % 86400;
            &&& date.0 >= 1970
            &&& is_valid_date(date.0, date.1, date.2)
            &&& remaining / 3600 < 24
            &&& (remaining % 3600) / 60 < 60
            &&& remaining % 60 < 60
            &&& days_from_civil(date.0, date.1, date.2) * 86400 + (remaining / 3600) * 3600 + ((
            remaining % 3600) / 60) * 60 + remaining % 60 == timestamp
        }),
{
    lemma_civil_date((timestamp / 86400) as int);
}

/// `10` to the power `k`.
pub open spec fn pow10(k: nat) -> nat
    decreases k,
{
    if k == 0 {
        1
    } else {
        10 * pow10((k - 1) as nat)
    }
}

proof fn lemma_decimal_length(n: nat, k: nat)
    requires
        k >= 1,
        n < pow10(k),
    ensures
        decimal(n).len() <= k,
    decreases k,
{
    if n >= 10 {
        assert(pow10(1) == 10) by {
            reveal_with_fuel(pow10, 2);
        }
        assert(k >= 2);
        assert(pow10(k) == 10 * pow10((k - 1) as nat));
        assert(n / 10 < pow10((k - 1) as nat));
        lemma_decimal_length(n / 10, (k - 1) as nat);
    }
}

proof fn lemma_leading_zeros(zeros: nat, digits: Seq<u8>)
    ensures
        decimal_value(Seq::new(zeros, |i: int| 48u8) + digits) == decimal_value(digits),
    decreases digits.len() + zeros,
{
    let padded = Seq::new(zeros, |i: int| 48u8) + digits;
    if digits.len() > 0 {
        assert(padded.drop_last() =~= Seq::new(zeros, |i: int| 48u8) + digits.drop_last());
        lemma_leading_zeros(zeros, digits.drop_last());
    } else if zeros > 0 {
        assert(padded.drop_last() =~= Seq::new((zeros - 1) as nat, |i: int| 48u8) + digits);
        lemma_leading_zeros((zeros - 1) as nat, digits);
    } else {
        assert(padded =~= digits);
    }
}

/// A number below `10^width`, zero-padded to `width`, takes exactly `width`
/// digits and reads back as the number.
pub proof fn lemma_padded_roundtrip(n: nat, width: nat)
    requires
        width >= 1,
        n < pow10(width),
    ensures
        padded_decimal(n, width).len() == width,
        decimal_value(padded_decimal(n, width)) == n,
        forall|i: int|
            0 <= i < width ==> 48 <= #[trigger] padded_decimal(n, width)[i] <= 57,
{
    lemma_decimal_length(n, width);
    lemma_decimal_roundtrip(n);
    let digits = decimal(n);
    if digits.len() < width {
        lemma_leading_zeros((width - digits.len()) as nat, digits);
        let zeros = Seq::new((width - digits.len()) as nat, |i: int| 48u8);
        assert forall|i: int| 0 <= i < width implies 48 <= #[trigger] padded_decimal(n, width)[i]
            <= 57 by {
            if i >= zeros.len() {
                assert(padded_decimal(n, width)[i] == digits[i - zeros.len()]);
            }
        }
    }
}

/// Padded decimal digits are digits.
proof fn lemma_padded_digits(n: nat, width: nat)
    ensures
        forall|i: int| 0 <= i < padded_decimal(n, width).len() ==> 48 <= #[trigger] padded_decimal(n, width)[i] <= 57,
{
    lemma_decimal_roundtrip(n);
    let digits = decimal(n);
    if digits.len() < width {
        let zeros = Seq::new((width - digits.len()) as nat, |i: int| 48u8);
        assert forall|i: int| 0 <= i < padded_decimal(n, width).len() implies 48
            <= #[trigger] padded_decimal(n, width)[i] <= 57 by {
            if i >= zeros.len() {
                assert(padded_decimal(n, width)[i] == digits[i - zeros.len()]);
            }
        }
    }
}

/// The timestamp text, of any timestamp, holds no byte that forces CSV
/// quoting: only digits, `-`, `T`, `:` and `Z`.
pub proof fn lemma_iso_timestamp_plain(timestamp: nat)
    ensures
        plain_field(iso_timestamp(timestamp)),
{
    reveal(iso_timestamp);
    let date = civil_date((timestamp / 86400) as int);
    let remaining = timestamp % 86400;
    let p0 = padded_decimal(date.0 as nat, 4);
    let p1 = padded_decimal(date.1 as nat, 2);
    let p2 = padded_decimal(date.2 as nat, 2);
    let p3 = padded_decimal(remaining / 3600, 2);
    let p4 = padded_decimal((remaining % 3600) / 60, 2);
    let p5 = padded_decimal(remaining % 60, 2);
    lemma_padded_digits(date.0 as nat, 4);
    lemma_padded_digits(date.1 as nat, 2);
    lemma_padded_digits(date.2 as nat, 2);
    lemma_padded_digits(remaining / 3600, 2);
    lemma_padded_digits((remaining % 3600) / 60, 2);
    lemma_padded_digits(remaining % 60, 2);
    let t = iso_timestamp(timestamp);
    assert(plain_field(p0) && plain_field(p1) && plain_field(p2) && plain_field(p3) && plain_field(p4) && plain_field(p5));
    lemma_plain_concat(p0, seq![45u8]);
    lemma_plain_concat(p0 + seq![45u8], p1);
    lemma_plain_concat(p0 + seq![45u8] + p1, seq![45u8]);
    lemma_plain_concat(p0 + seq![45u8] + p1 + seq![45u8], p2);
    lemma_plain_concat(p0 + seq![45u8] + p1 + seq![45u8] + p2, seq![84u8]);
    lemma_plain_concat(p0 + seq![45u8] + p1 + seq![45u8] + p2 + seq![84u8], p3);
    lemma_plain_concat(p0 + seq![45u8] + p1 + seq![45u8] + p2 + seq![84u8] + p3, seq![58u8]);
    lemma_plain_concat(p0 + seq![45u8] + p1 + seq![45u8] + p2 + seq![84u8] + p3 + seq![58u8], p4);
    lemma_plain_concat(p0 + seq![45u8] + p1 + seq![45u8] + p2 + seq![84u8] + p3 + seq![58u8] + p4, seq![58u8]);
    lemma_plain_concat(p0 + seq![45u8] + p1 + seq![45u8] + p2 + seq![84u8] + p3 + seq![58u8] + p4 + seq![58u8], p5);
    lemma_plain_concat(p0 + seq![45u8] + p1 + seq![45u8] + p2 + seq![84u8] + p3 + seq![58u8] + p4 + seq![58u8] + p5, seq![90u8]);
}

/// Two fields with no byte that forces quoting, one after the other, have
/// none either.
pub proof fn lemma_plain_concat(a: Seq<u8>, b: Seq<u8>)
    requires
        plain_field(a),
        plain_field(b),
    ensures
        plain_field(a + b),
{
    assert forall|i: int| 0 <= i < (a + b).len() implies !needs_quoting(#[trigger] (a + b)[i]) by {
        if i >= a.len() {
            assert((a + b)[i] == b[i - a.len()]);
        }
    }
}

/// Reads an ISO timestamp written by `write_timestamp` back into seconds
/// since 1970-01-01T00:00:00Z.
pub open spec fn read_iso_timestamp(text: Seq<u8>) -> int {
    let year = decimal_value(text.subrange(0, 4)) as int;
    let month = decimal_value(text.subrange(5, 7)) as int;
    let day = decimal_value(text.subrange(8, 10)) as int;
    let hour = decimal_value(text.subrange(11, 13)) as int;
    let minute = decimal_value(text.subrange(14, 16)) as int;
    let second = decimal_value(text.subrange(17, 19)) as int;
    days_from_civil(year, month, day) * 86400 + hour * 3600 + minute * 60 + second
}

/// Up to the end of year 9999, the timestamp text is 20 bytes,
/// `YYYY-MM-DDTHH:MM:SSZ` with digits in the numeric places, and reads back
/// to the timestamp.
pub proof fn lemma_iso_timestamp_reads_back(timestamp: nat)
    requires
        timestamp < 253_402_300_800,
    ensures
        iso_timestamp(timestamp).len() == 20,
        iso_timestamp(timestamp)[4] == 45 && iso_timestamp(timestamp)[7] == 45,
        iso_timestamp(timestamp)[10] == 84 && iso_timestamp(timestamp)[19] == 90,
        iso_timestamp(timestamp)[13] == 58 && iso_timestamp(timestamp)[16] == 58,
        forall|i: int|
            0 <= i < 20 && i != 4 && i != 7 && i != 10 && i != 13 && i != 16 && i != 19 ==> 48
                <= #[trigger] iso_timestamp(timestamp)[i] <= 57,
        read_iso_timestamp(iso_timestamp(timestamp)) == timestamp,
{
    reveal(iso_timestamp);
    let days = (timestamp / 86400) as int;
    lemma_civil_date(days);
    lemma_four_digit_years(days);
    lemma_timestamp_fields(timestamp);
    let date = civil_date(days);
    let remaining = timestamp % 86400;
    assert(pow10(2) == 100 && pow10(4) == 10000) by {
        reveal_with_fuel(pow10, 5);
    }
    let y = padded_decimal(date.0 as nat, 4);
    let mo = padded_decimal(date.1 as nat, 2);
    let d = padded_decimal(date.2 as nat, 2);
    let h = padded_decimal(remaining / 3600, 2);
    let mi = padded_decimal((remaining % 3600) / 60, 2);
    let se = padded_decimal(remaining % 60, 2);
    lemma_padded_roundtrip(date.0 as nat, 4);
    lemma_padded_roundtrip(date.1 as nat, 2);
    lemma_padded_roundtrip(date.2 as nat, 2);
    lemma_padded_roundtrip(remaining / 3600, 2);
    lemma_padded_roundtrip((remaining % 3600) / 60, 2);
    lemma_padded_roundtrip(remaining % 60, 2);
    let text = iso_timestamp(timestamp);
    assert(text =~= y + seq![45u8] + mo + seq![45u8] + d + seq![84u8] + h + seq![58u8] + mi + seq![
        58u8,
    ] + se + seq![90u8]);
    assert(text.subrange(0, 4) =~= y);
    assert(text.subrange(5, 7) =~= mo);
    assert(text.subrange(8, 10) =~= d);
    assert(text.subrange(11, 13) =~= h);
    assert(text.subrange(14, 16) =~= mi);
    assert(text.subrange(17, 19) =~= se);
    assert forall|i: int|
        0 <= i < 20 && i != 4 && i != 7 && i != 10 && i != 13 && i != 16 && i != 19 implies 48
        <= #[trigger] text[i] <= 57 by {
        if i < 4 {
            assert(text[i] == y[i]);
        } else if i < 7 {
            assert(text[i] == mo[i - 5]);
        } else if i < 10 {
            assert(text[i] == d[i - 8]);
        } else if i < 13 {
            assert(text[i] == h[i - 11]);
        } else if i < 16 {
            assert(text[i] == mi[i - 14]);
        } else {
            assert(text[i] == se[i - 17]);
        }
    }
}

/// Appends the decimal digits of `n`.
pub fn write_decimal(out: &mut Vec<u8>, n: u64)
    ensures
        final(out)@ == old(out)@ + decimal(n as nat),
    decreases n,
{
    if n >= 10 {
        write_decimal(out, n / 10);
    }
    out.push((48 + n % 10) as u8);
    proof {
        if n < 10 {
            assert(out@ == old(out)@ + decimal(n as nat));
        } else {
            assert(out@ == old(out)@ + decimal((n / 10) as nat) + seq![(48 + n % 10) as u8]);
        }
    }
}

/// Appends the decimal digits of `n`, zero-padded to `width`.
pub fn write_padded(out: &mut Vec<u8>, n: u64, width: usize)
    ensures
        final(out)@ == old(out)@ + padded_decimal(n as nat, width as nat),
{
    let mut digits: Vec<u8> = Vec::new();
    write_decimal(&mut digits, n);
    assert(digits@ == decimal(n as nat));
    let ghost start = out@;
    let mut count = digits.len();
    while count < width
        invariant
            digits@ == decimal(n as nat),
            digits@.len() <= count <= width || (count == digits@.len() && count >= width),
            out@ == start + Seq::new((count - digits@.len()) as nat, |i: int| 48u8),
        decreases width - count,
    {
        out.push(48);
        count += 1;
        assert(out@ =~= start + Seq::new((count - digits@.len()) as nat, |i: int| 48u8));
    }
    let ghost padded = out@;
    for i in 0..digits.len()
        invariant
            out@ == padded + digits@.take(i as int),
    {
        out.push(digits[i]);
        assert(digits@.take(i + 1) == digits@.take(i as int).push(digits@[i as int]));
    }
    assert(digits@.take(digits@.len() as int) == digits@);
    assert(out@ =~= old(out)@ + padded_decimal(n as nat, width as nat));
}

/// Appends a Unix timestamp as `YYYY-MM-DDTHH:MM:SSZ`.
pub fn write_timestamp(out: &mut Vec<u8>, timestamp: u64)
    ensures
        final(out)@ == old(out)@ + iso_timestamp(timestamp as nat),
{
    let remaining = timestamp % SECONDS_PER_DAY;
    let (year, month, day) = civil_from_days(timestamp / SECONDS_PER_DAY);
    let mut text: Vec<u8> = Vec::new();
    write_padded(&mut text, year, 4);
    assert(text@ =~= padded_decimal(year as nat, 4));
    write_byte(&mut text, 45);
    write_padded(&mut text, month, 2);
    write_byte(&mut text, 45);
    write_padded(&mut text, day, 2);
    write_byte(&mut text, 84);
    write_padded(&mut text, remaining / 3600, 2);
    write_byte(&mut text, 58);
    write_padded(&mut text, (remaining % 3600) / 60, 2);
    write_byte(&mut text, 58);
    write_padded(&mut text, remaining % 60, 2);
    write_byte(&mut text, 90);
    proof {
        reveal(iso_timestamp);
    }
    assert(text@ == iso_timestamp(timestamp as nat));
    write_bytes(out, text.as_slice());
}

/// Appends one byte.
pub fn write_byte(out: &mut Vec<u8>, b: u8)
    ensures
        final(out)@ == old(out)@ + seq![b],
{
    out.push(b);
    assert(out@ =~= old(out)@ + seq![b]);
}

/// Appends `bytes`.
pub fn write_bytes(out: &mut Vec<u8>, bytes: &[u8])
    ensures
        final(out)@ == old(out)@ + bytes@,
{
    let ghost start = out@;
    for i in 0..bytes.len()
        invariant
            out@ == start + bytes@.take(i as int),
    {
        out.push(bytes[i]);
        assert(bytes@.take(i + 1) == bytes@.take(i as int).push(bytes@[i as int]));
    }
    assert(bytes@.take(bytes@.len() as int) == bytes@);
}

/// Appends the UTF-8 bytes of `text`.
pub fn write_str(out: &mut Vec<u8>, text: &str)
    ensures
        final(out)@ == old(out)@ + encode_utf8(text@),
{
    write_bytes(out, text.as_bytes());
}

/// The units of human-readable sizes, each 1024 times the one before.
pub open spec fn size_unit_spec(bytes: nat) -> nat {
    if bytes < 1024 {
        0
    } else if bytes < 1024 * 1024 {
        1
    } else if bytes < 1024 * 1024 * 1024 {
        2
    } else if bytes < 1024 * 1024 * 1024 * 1024 {
        3
    } else {
        4
    }
}

/// The unit of a size is the largest of the five that the size reaches:
/// a size shown in unit `u` is at least `1024^u` bytes (unless it is shown
/// in bytes) and, below the last unit, less than `1024^(u+1)`.
pub proof fn lemma_size_unit_is_largest_reached(bytes: nat)
    ensures
        size_unit_spec(bytes) <= 4,
        size_unit_spec(bytes) == 0 || pow(1024, size_unit_spec(bytes)) <= bytes,
        size_unit_spec(bytes) == 4 || bytes < pow(1024, size_unit_spec(bytes) + 1),
{
    reveal_with_fuel(pow, 6);
}

/// The unit in which a size is shown: the largest of B, KB, MB, GB and TB
/// (0 to 4) that the size reaches.
pub fn size_unit(bytes: u64) -> (unit: usize)
    ensures
        unit == size_unit_spec(bytes as nat),
{
    let mut unit: usize = 0;
    let mut threshold: u64 = 1024;
    while unit < 4 && bytes >= threshold
        invariant
            unit <= 4,
            threshold == if unit == 0 {
                1024u64
            } else if unit == 1 {
                1_048_576u64
            } else if unit == 2 {
                1_073_741_824u64
            } else if unit == 3 {
                1_099_511_627_776u64
            } else {
                1_125_899_906_842_624u64
            },
            unit == 0 || bytes >= threshold / 1024,
        decreases 4 - unit,
    {
        unit += 1;
        threshold = threshold * 1024;
    }
    unit
}

/// The name of each size unit.
pub fn size_unit_name(unit: usize) -> (name: &'static str)
    requires
        unit < 5,
    ensures
        name@ == if unit == 0 {
            "B"@
        } else if unit == 1 {
            "KB"@
        } else if unit == 2 {
            "MB"@
        } else if unit == 3 {
            "GB"@
        } else {
            "TB"@
        },
{
    if unit == 0 {
        "B"
    } else if unit == 1 {
        "KB"
    } else if unit == 2 {
        "MB"
    } else if unit == 3 {
        "GB"
    } else {
        "TB"
    }
}

/// An entry whose name starts with a dot byte is hidden (outside Windows).
pub fn is_hidden(name: &str) -> (r: bool)
    ensures
        r == (encode_utf8(name@).len() > 0 && encode_utf8(name@)[0] == 46),
{
    let bytes = name.as_bytes();
    bytes.len() > 0 && bytes[0] == 46
}

/// The `rwxrwxrwx` rendering of the permission bits of a Unix mode.
pub open spec fn permission_text(mode: u32) -> Seq<u8> {
    Seq::new(
        9,
        |i: int|
            if mode & (1u32 << ((8 - i) as u32)) != 0 {
                if i % 3 == 0 {
                    114u8
                } else if i % 3 == 1 {
                    119u8
                } else {
                    120u8
                }
            } else {
                45u8
            },
    )
}

/// Appends the `rwxrwxrwx` rendering of a Unix mode, with `-` for each
/// permission bit that is clear.
pub fn write_permissions(out: &mut Vec<u8>, mode: u32)
    ensures
        final(out)@ == old(out)@ + permission_text(mode),
{
    let ghost start = out@;
    for i in 0..9usize
        invariant
            out@ == start + permission_text(mode).take(i as int),
    {
        let bit: u32 = 1u32 << ((8 - i) as u32);
        let symbol = if mode & bit != 0 {
            if i % 3 == 0 {
                114
            } else if i % 3 == 1 {
                119
            } else {
                120
            }
        } else {
            45
        };
        assert(symbol == permission_text(mode)[i as int]);
        out.push(symbol);
        assert(permission_text(mode).take(i + 1) == permission_text(mode).take(i as int).push(
            symbol,
        ));
    }
    assert(permission_text(mode).take(9) == permission_text(mode));
}

} // verus!
