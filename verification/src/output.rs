//! CSV output: fields, records and the bookkeeping of the writer.
use vstd::prelude::*;

pub use crate::path::backup_path;

use crate::rotation::Rotation;
use crate::text;
use crate::text::{decimal_string, join, to_chars, white_space, CharClass};

verus! {

/// The first line of every CSV file.
pub const CSV_HEADER: &'static str = "timestamp,executable,args,pid,app_cpu_avg,app_cpu_peak,app_cpu_cycles,app_cpu_time_ms,app_ram_mb_avg,app_ram_mb_peak,app_priv_ram_mb_avg,app_priv_ram_mb_peak,app_priv_active_mb_avg,app_priv_active_mb_peak,app_net_rx_bytes,app_net_tx_bytes,system_cpu_avg,system_cpu_peak,system_ram_mb_avg,system_ram_mb_peak,samples\n";

/// Whether `c` cannot stand in an unquoted field.
pub open spec fn is_special(c: char) -> bool {
    c == ',' || c == '"' || c == '\n' || c == '\r'
}

/// Whether `field` has to be enclosed in double quotes: it contains commas,
/// quotes or line breaks, or has white space at an end.
pub open spec fn needs_quotes(field: Seq<char>) -> bool {
    ||| exists|i: int| 0 <= i < field.len() && is_special(#[trigger] field[i])
    ||| field.len() > 0 && (text::is_whitespace(field[0]) || text::is_whitespace(field.last()))
}

/// `s` with every double quote doubled.
pub open spec fn doubled(s: Seq<char>) -> Seq<char>
    decreases s.len(),
{
    if s.len() == 0 {
        Seq::empty()
    } else if s.last() == '"' {
        doubled(s.drop_last()).push('"').push('"')
    } else {
        doubled(s.drop_last()).push(s.last())
    }
}

/// The form of `field` in a CSV record.
pub open spec fn escaped(field: Seq<char>) -> Seq<char> {
    if needs_quotes(field) {
        seq!['"'] + doubled(field) + seq!['"']
    } else {
        field
    }
}

/// Tests whether a field has to be enclosed in double quotes.
fn wants_quotes(chars: &[char]) -> (r: bool)
    ensures
        r == needs_quotes(chars@),
{
    let n: usize = chars.len();
    if n > 0 && (white_space(chars[0]) || white_space(chars[n - 1])) {
        return true;
    }
    let mut i: usize = 0;
    while i < n
        invariant
            i <= n == chars@.len(),
            forall|j: int| 0 <= j < i ==> !is_special(#[trigger] chars@[j]),
        decreases n - i,
    {
        let c: char = chars[i];
        if c == ',' || c == '"' || c == '\n' || c == '\r' {
            assert(is_special(chars@[i as int]));
            return true;
        }
        i = i + 1;
    }
    false
}

/// Escapes a string for CSV according to RFC 4180.
/// Encloses in double quotes if it contains commas, quotes, line breaks,
/// or leading/trailing whitespace, and doubles up internal quotes.
pub fn escape_csv_field(field: &str) -> (s: String)
    ensures
        s@ == escaped(field@),
{
    let chars: Vec<char> = to_chars(field);
    if !wants_quotes(&chars) {
        return field.to_owned();
    }
    let mut s: String = String::new();
    s.push('"');
    let mut i: usize = 0;
    while i < chars.len()
        invariant
            chars@ == field@,
            i <= chars@.len(),
            s@ == seq!['"'] + doubled(chars@.take(i as int)),
        decreases chars@.len() - i,
    {
        assert(chars@.take(i + 1).drop_last() == chars@.take(i as int));
        let c: char = chars[i];
        if c == '"' {
            s.push('"');
            s.push('"');
        } else {
            s.push(c);
        }
        i = i + 1;
    }
    assert(chars@.take(i as int) == field@);
    s.push('"');
    s
}

/// One row of the CSV file. Percentages and sizes are given as the text that
/// stands in their columns: application CPU with three decimals, system CPU with
/// two, and memory in MB with one.
#[derive(Debug, Clone)]
pub struct CsvRecord<'a> {
    pub timestamp: &'a str,
    pub executable: &'a str,
    pub args: &'a str,
    pub pid: u32,
    pub app_cpu_avg: &'a str,
    pub app_cpu_peak: &'a str,
    pub app_cpu_cycles: u64,
    pub app_cpu_time_ms: u64,
    pub app_ram_ws_avg_mb: &'a str,
    pub app_ram_ws_peak_mb: &'a str,
    pub app_priv_ram_avg_mb: &'a str,
    pub app_priv_ram_peak_mb: &'a str,
    pub app_priv_active_avg_mb: &'a str,
    pub app_priv_active_peak_mb: &'a str,
    pub app_net_rx_bytes: u64,
    pub app_net_tx_bytes: u64,
    pub system_cpu_avg: &'a str,
    pub system_cpu_peak: &'a str,
    pub system_ram_avg_mb: &'a str,
    pub system_ram_peak_mb: &'a str,
    pub sample_count: u32,
}

impl<'a> CsvRecord<'a> {
    /// The values of the columns, in the order of the header.
    pub open spec fn values(self) -> Seq<Seq<char>> {
        seq![
            self.timestamp@,
            self.executable@,
            self.args@,
            text::decimal(self.pid as nat),
            self.app_cpu_avg@,
            self.app_cpu_peak@,
            text::decimal(self.app_cpu_cycles as nat),
            text::decimal(self.app_cpu_time_ms as nat),
            self.app_ram_ws_avg_mb@,
            self.app_ram_ws_peak_mb@,
            self.app_priv_ram_avg_mb@,
            self.app_priv_ram_peak_mb@,
            self.app_priv_active_avg_mb@,
            self.app_priv_active_peak_mb@,
            text::decimal(self.app_net_rx_bytes as nat),
            text::decimal(self.app_net_tx_bytes as nat),
            self.system_cpu_avg@,
            self.system_cpu_peak@,
            self.system_ram_avg_mb@,
            self.system_ram_peak_mb@,
            text::decimal(self.sample_count as nat),
        ]
    }

    /// The columns as they are written: the executable and its arguments are
    /// escaped, the others stand as they are.
    pub open spec fn columns(self) -> Seq<Seq<char>> {
        self.values().update(1, escaped(self.executable@)).update(2, escaped(self.args@))
    }

    /// The row: the columns with commas between them and a line feed at the end.
    pub open spec fn row(self) -> Seq<char> {
        text::joined(self.columns(), ","@) + "\n"@
    }

    /// Formats the record as a row of the CSV file.
    pub fn format_row(&self) -> (s: String)
        ensures
            s@ == self.row(),
    {
        let mut columns: Vec<String> = Vec::new();
        columns.push(self.timestamp.to_owned());
        columns.push(escape_csv_field(self.executable));
        columns.push(escape_csv_field(self.args));
        columns.push(decimal_string(self.pid as u64));
        columns.push(self.app_cpu_avg.to_owned());
        columns.push(self.app_cpu_peak.to_owned());
        columns.push(decimal_string(self.app_cpu_cycles));
        columns.push(decimal_string(self.app_cpu_time_ms));
        columns.push(self.app_ram_ws_avg_mb.to_owned());
        columns.push(self.app_ram_ws_peak_mb.to_owned());
        columns.push(self.app_priv_ram_avg_mb.to_owned());
        columns.push(self.app_priv_ram_peak_mb.to_owned());
        columns.push(self.app_priv_active_avg_mb.to_owned());
        columns.push(self.app_priv_active_peak_mb.to_owned());
        columns.push(decimal_string(self.app_net_rx_bytes));
        columns.push(decimal_string(self.app_net_tx_bytes));
        columns.push(self.system_cpu_avg.to_owned());
        columns.push(self.system_cpu_peak.to_owned());
        columns.push(self.system_ram_avg_mb.to_owned());
        columns.push(self.system_ram_peak_mb.to_owned());
        columns.push(decimal_string(self.sample_count as u64));
        assert(text::texts(columns@) == self.columns());
        let mut s: String = join(&columns, ",");
        s.append("\n");
        s
    }
}

/// Reads a quoted field from `i` on, the position after the opening quote: its
/// value and the position after the closing quote.
pub open spec fn read_quoted(s: Seq<char>, i: int) -> (Seq<char>, int)
    decreases s.len() - i,
{
    if i >= s.len() {
        (Seq::empty(), i)
    } else if s[i] != '"' {
        let rest = read_quoted(s, i + 1);
        (seq![s[i]] + rest.0, rest.1)
    } else if i + 1 < s.len() && s[i + 1] == '"' {
        let rest = read_quoted(s, i + 2);
        (seq!['"'] + rest.0, rest.1)
    } else {
        (Seq::empty(), i + 1)
    }
}

/// Reads a field of a CSV record from `i` on, as RFC 4180 describes it: its value
/// and the position after it.
pub open spec fn read_field(s: Seq<char>, i: int) -> (Seq<char>, int) {
    if i < s.len() && s[i] == '"' {
        read_quoted(s, i + 1)
    } else {
        let end = text::find_from(s, CharClass::FieldEnd, i);
        (s.subrange(i, end), end)
    }
}

/// Reads the fields of a CSV record from `i` on, and the position after the
/// last.
pub open spec fn read_record(s: Seq<char>, i: int) -> (Seq<Seq<char>>, int)
    decreases s.len() - i,
{
    let field = read_field(s, i);
    if i <= field.1 < s.len() && s[field.1] == ',' {
        let rest = read_record(s, field.1 + 1);
        (seq![field.0] + rest.0, rest.1)
    } else {
        (seq![field.0], field.1)
    }
}

/// Whether `value` can stand in a record as it is.
pub open spec fn is_plain(value: Seq<char>) -> bool {
    forall|i: int| 0 <= i < value.len() ==> !is_special(#[trigger] value[i])
}

/// Doubling quotes goes piece by piece.
proof fn lemma_doubled_concat(a: Seq<char>, b: Seq<char>)
    ensures
        doubled(a + b) == doubled(a) + doubled(b),
    decreases b.len(),
{
    if b.len() == 0 {
        assert(a + b == a);
    } else {
        assert((a + b).drop_last() == a + b.drop_last());
        lemma_doubled_concat(a, b.drop_last());
    }
}

/// Doubling quotes from the front.
proof fn lemma_doubled_first(s: Seq<char>)
    requires
        s.len() > 0,
    ensures
        doubled(s) == (if s[0] == '"' {
            seq!['"', '"']
        } else {
            seq![s[0]]
        }) + doubled(s.drop_first()),
{
    let head = seq![s[0]];
    assert(head + s.drop_first() == s);
    lemma_doubled_concat(head, s.drop_first());
    assert(head.drop_last() == Seq::<char>::empty());
    assert(doubled(Seq::<char>::empty()) == Seq::<char>::empty());
    if s[0] == '"' {
        assert(doubled(head) == seq!['"', '"']);
    } else {
        assert(doubled(head) == seq![s[0]]);
    }
}

/// A quoted field reads back as its value.
proof fn lemma_read_quoted(s: Seq<char>, i: int, value: Seq<char>)
    requires
        0 <= i,
        i + doubled(value).len() < s.len(),
        s.subrange(i, i + doubled(value).len()) == doubled(value),
        s[i + doubled(value).len()] == '"',
        i + doubled(value).len() + 1 < s.len() ==> s[i + doubled(value).len() + 1] != '"',
    ensures
        read_quoted(s, i) == (value, i + doubled(value).len() + 1),
    decreases value.len(),
{
    let d = doubled(value);
    if value.len() > 0 {
        lemma_doubled_first(value);
        let rest = value.drop_first();
        let step: int = if value[0] == '"' {
            2
        } else {
            1
        };
        assert(d.len() == step + doubled(rest).len());
        assert(s[i] == d[0]);
        if value[0] == '"' {
            assert(s[i + 1] == d[1]);
        }
        assert forall|k: int| 0 <= k < doubled(rest).len() implies s.subrange(
            i + step,
            i + d.len(),
        )[k] == doubled(rest)[k] by {
            assert(s.subrange(i, i + d.len())[step + k] == d[step + k]);
        }
        assert(s.subrange(i + step, i + d.len()) == doubled(rest));
        lemma_read_quoted(s, i + step, rest);
        assert(seq![value[0]] + rest == value);
    } else {
        assert(value == Seq::<char>::empty());
    }
}

/// Whether the column `written` is a way to write `value`.
pub open spec fn writes(written: Seq<char>, value: Seq<char>) -> bool {
    written == escaped(value) || (written == value && is_plain(value))
}

/// A column reads back as its value.
proof fn lemma_read_field(s: Seq<char>, i: int, written: Seq<char>, value: Seq<char>)
    requires
        writes(written, value),
        0 <= i,
        i + written.len() < s.len(),
        s.subrange(i, i + written.len()) == written,
        s[i + written.len()] == ',' || s[i + written.len()] == '\n',
    ensures
        read_field(s, i) == (value, (i + written.len()) as int),
{
    assert forall|k: int| 0 <= k < written.len() implies s[i + k] == #[trigger] written[k] by {
        assert(s.subrange(i, i + written.len())[k] == s[i + k]);
    }
    if written == escaped(value) && needs_quotes(value) {
        let d = doubled(value);
        assert(written[0] == '"');
        assert(written.last() == '"');
        assert(written.len() == d.len() + 2);
        assert forall|k: int| 0 <= k < d.len() implies s.subrange(i + 1, i + 1 + d.len())[k]
            == d[k] by {
            assert(written[k + 1] == d[k]);
            assert(s[i + (k + 1)] == written[k + 1]);
        }
        assert(s.subrange(i + 1, i + 1 + d.len()) == d);
        assert(s[i + (written.len() - 1)] == written[written.len() - 1]);
        lemma_read_quoted(s, i + 1, value);
    } else {
        assert(written == value && is_plain(value));
        let end = i + written.len();
        if written.len() > 0 {
            assert(s[i + 0] == written[0]);
        }
        text::lemma_find_from(s, CharClass::FieldEnd, i);
        let found = text::find_from(s, CharClass::FieldEnd, i);
        if found < end {
            assert(s[i + (found - i)] == written[found - i]);
        }
    }
}

/// A joined list begins with its first text.
proof fn lemma_joined_first(list: Seq<Seq<char>>, sep: Seq<char>)
    requires
        list.len() > 1,
    ensures
        text::joined(list, sep) == list[0] + sep + text::joined(list.drop_first(), sep),
    decreases list.len(),
{
    let tail = list.drop_first();
    if list.len() == 2 {
        assert(text::joined(list.drop_last(), sep) == list[0]);
        assert(text::joined(tail, sep) == list[1]);
    } else {
        lemma_joined_first(list.drop_last(), sep);
        assert(list.drop_last().drop_first() == tail.drop_last());
        assert(list.drop_last()[0] == list[0]);
        assert(tail.last() == list.last());
        assert(list[0] + sep + text::joined(tail.drop_last(), sep) + sep + list.last() == list[0]
            + sep + (text::joined(tail.drop_last(), sep) + sep + list.last()));
    }
}

/// A row of columns reads back as the values that the columns write.
proof fn lemma_read_record(
    s: Seq<char>,
    i: int,
    columns: Seq<Seq<char>>,
    values: Seq<Seq<char>>,
)
    requires
        0 <= i <= s.len(),
        columns.len() == values.len() > 0,
        forall|k: int| 0 <= k < columns.len() ==> writes(#[trigger] columns[k], values[k]),
        s.skip(i) == text::joined(columns, seq![',']) + seq!['\n'],
    ensures
        read_record(s, i) == (values, s.len() - 1),
    decreases columns.len(),
{
    let sep = seq![','];
    let rest = s.skip(i);
    let first = columns[0];
    let end = i + first.len();
    if columns.len() > 1 {
        lemma_joined_first(columns, sep);
    }
    assert(s.len() == i + rest.len());
    assert(first.len() < rest.len());
    assert(s.subrange(i, end) == first) by {
        assert forall|k: int| 0 <= k < first.len() implies s.subrange(i, end)[k] == first[k] by {
            assert(rest[k] == s[i + k]);
        }
    }
    assert(s[end] == rest[first.len() as int]);
    lemma_read_field(s, i, first, values[0]);
    if columns.len() > 1 {
        assert(s[end] == ',');
        let tail = text::joined(columns.drop_first(), sep) + seq!['\n'];
        assert(s.skip(end + 1) == tail) by {
            assert forall|k: int| 0 <= k < tail.len() implies s.skip(end + 1)[k] == tail[k] by {
                assert(rest[first.len() + 1 + k] == s[end + 1 + k]);
            }
        }
        assert forall|k: int| 0 <= k < columns.len() - 1 implies writes(
            #[trigger] columns.drop_first()[k],
            values.drop_first()[k],
        ) by {
            assert(columns.drop_first()[k] == columns[k + 1]);
        }
        lemma_read_record(s, end + 1, columns.drop_first(), values.drop_first());
        assert(seq![values[0]] + values.drop_first() == values);
    } else {
        assert(s[end] == '\n');
        assert(seq![values[0]] == values);
    }
}

/// Escaping loses nothing: a record reader that follows RFC 4180 gets the field
/// back, whatever it contains.
pub proof fn law_escaped_field_reads_back(field: Seq<char>)
    ensures
        read_record(escaped(field) + seq!['\n'], 0) == (seq![field], escaped(field).len() as int),
{
    let s = escaped(field) + seq!['\n'];
    let columns = seq![escaped(field)];
    assert(text::joined(columns, seq![',']) == escaped(field));
    assert(s.skip(0) == s);
    lemma_read_record(s, 0, columns, seq![field]);
}

/// Decimal digits need no escaping.
proof fn lemma_decimal_is_plain(n: nat)
    ensures
        is_plain(text::decimal(n)),
{
    text::lemma_decimal(n);
    assert forall|i: int| 0 <= i < text::decimal(n).len() implies !is_special(
        #[trigger] text::decimal(n)[i],
    ) by {
        assert(text::is_digit(text::decimal(n)[i]));
    }
}

/// A row of the CSV file reads back, by the rules of RFC 4180, as the values of
/// the record and the line feed after them, provided that the timestamp and the
/// texts of the measurements hold no comma, quote or line break. The executable
/// and the arguments may hold anything.
pub proof fn law_row_reads_back(record: CsvRecord)
    requires
        is_plain(record.timestamp@),
        is_plain(record.app_cpu_avg@),
        is_plain(record.app_cpu_peak@),
        is_plain(record.app_ram_ws_avg_mb@),
        is_plain(record.app_ram_ws_peak_mb@),
        is_plain(record.app_priv_ram_avg_mb@),
        is_plain(record.app_priv_ram_peak_mb@),
        is_plain(record.app_priv_active_avg_mb@),
        is_plain(record.app_priv_active_peak_mb@),
        is_plain(record.system_cpu_avg@),
        is_plain(record.system_cpu_peak@),
        is_plain(record.system_ram_avg_mb@),
        is_plain(record.system_ram_peak_mb@),
    ensures
        read_record(record.row(), 0) == (record.values(), record.row().len() - 1),
        record.row().last() == '\n',
{
    reveal_strlit(",");
    reveal_strlit("\n");
    assert(","@ == seq![',']);
    assert("\n"@ == seq!['\n']);
    let columns = record.columns();
    let values = record.values();
    lemma_decimal_is_plain(record.pid as nat);
    lemma_decimal_is_plain(record.app_cpu_cycles as nat);
    lemma_decimal_is_plain(record.app_cpu_time_ms as nat);
    lemma_decimal_is_plain(record.app_net_rx_bytes as nat);
    lemma_decimal_is_plain(record.app_net_tx_bytes as nat);
    lemma_decimal_is_plain(record.sample_count as nat);
    assert forall|k: int| 0 <= k < columns.len() implies writes(#[trigger] columns[k], values[k]) by {
        if k != 1 && k != 2 {
            assert(is_plain(values[k]));
        }
    }
    assert(record.row().skip(0) == record.row());
    lemma_read_record(record.row(), 0, columns, values);
}

/// The length of a text in bytes.
pub open spec fn byte_len(s: Seq<char>) -> u64 {
    vstd::utf8::encode_utf8(s).len() as usize as u64
}

/// The length of the header in bytes.
pub open spec fn header_len() -> u64 {
    byte_len(CSV_HEADER@)
}

/// What a CSV writer knows of its file: the path, the bytes written so far, the
/// limits, and whether the file is open.
#[verifier::ext_equal]
pub struct WriterModel {
    pub path: Seq<char>,
    pub current_bytes: u64,
    pub max_bytes: u64,
    pub max_files: u32,
    pub open: bool,
}

/// What a writer has to do for a row.
#[derive(Debug, Clone, Copy, PartialEq, Eq, Structural)]
pub enum WriteStep {
    /// Rotate the files, and then append the row.
    Rotate,
    /// Append the row.
    Append,
    /// Nothing: there is no open file.
    Skip,
}

/// `a + b`, or the largest number that a `u64` holds.
pub open spec fn saturating_sum(a: u64, b: u64) -> u64 {
    if a + b <= u64::MAX {
        (a + b) as u64
    } else {
        u64::MAX
    }
}

/// What has to be done for a row of `row_len` bytes: rotation comes first where
/// there is a limit and the row would exceed it.
pub open spec fn write_step(w: WriterModel, row_len: u64) -> WriteStep {
    if w.max_bytes > 0 && saturating_sum(w.current_bytes, row_len) > w.max_bytes {
        WriteStep::Rotate
    } else if w.open {
        WriteStep::Append
    } else {
        WriteStep::Skip
    }
}

impl WriterModel {
    /// What is known while a rotation is under way: the file counts as closed.
    pub open spec fn rotating(self) -> WriterModel {
        WriterModel { open: false, ..self }
    }

    /// What is known when the active file was created anew and holds the header.
    pub open spec fn renewed(self) -> WriterModel {
        WriterModel { open: true, current_bytes: header_len(), ..self }
    }

    /// What is known when a row of `row_len` bytes was appended. Without an open file
    /// nothing changes.
    pub open spec fn grown(self, row_len: u64) -> WriterModel {
        if self.open {
            WriterModel { current_bytes: saturating_sum(self.current_bytes, row_len), ..self }
        } else {
            self
        }
    }
}

/// The bookkeeping of a CSV file that is written to and rotated. The file itself
/// is in the hands of the holder, who reports what happened to it.
#[derive(Debug, Clone)]
pub struct CsvWriter {
    path: String,
    current_bytes: u64,
    max_bytes: u64,
    max_files: u32,
    open: bool,
}

impl View for CsvWriter {
    type V = WriterModel;

    closed spec fn view(&self) -> WriterModel {
        WriterModel {
            path: self.path@,
            current_bytes: self.current_bytes,
            max_bytes: self.max_bytes,
            max_files: self.max_files,
            open: self.open,
        }
    }
}

impl CsvWriter {
    /// Whether the header has to be written to a file that is opened with
    /// `file_size` bytes in it: only if it is new or empty.
    pub fn header_due(file_size: u64) -> (r: bool)
        ensures
            r == (file_size == 0),
    {
        file_size == 0
    }

    /// The writer of a file that has been opened with `file_size` bytes in it and
    /// has got the header if that was due.
    pub fn with_max_bytes(path: &str, max_bytes: u64, max_files: u32, file_size: u64) -> (w: Self)
        ensures
            w@ == (WriterModel {
                path: path@,
                current_bytes: if file_size == 0 {
                    header_len()
                } else {
                    file_size
                },
                max_bytes,
                max_files,
                open: true,
            }),
    {
        CsvWriter {
            path: path.to_owned(),
            current_bytes: if Self::header_due(file_size) {
                CSV_HEADER.len() as u64
            } else {
                file_size
            },
            max_bytes,
            max_files,
            open: true,
        }
    }

    /// The same as `with_max_bytes`.
    pub fn new(path: &str, max_bytes: u64, max_files: u32, file_size: u64) -> (w: Self)
        ensures
            w@ == (WriterModel {
                path: path@,
                current_bytes: if file_size == 0 {
                    header_len()
                } else {
                    file_size
                },
                max_bytes,
                max_files,
                open: true,
            }),
    {
        Self::with_max_bytes(path, max_bytes, max_files, file_size)
    }

    /// Formats `record` and tells what has to be done to write its row.
    pub fn write_record(&self, record: &CsvRecord) -> (r: (String, WriteStep))
        ensures
            r.0@ == record.row(),
            r.1 == write_step(self@, byte_len(record.row())),
    {
        let row: String = record.format_row();
        let row_len: u64 = row.as_str().len() as u64;
        let step: WriteStep = if self.max_bytes > 0 && self.current_bytes.saturating_add(row_len)
            > self.max_bytes {
            WriteStep::Rotate
        } else if self.open {
            WriteStep::Append
        } else {
            WriteStep::Skip
        };
        (row, step)
    }

    /// Begins a rotation: the file counts as closed until the rotation has come to
    /// its end.
    pub fn rotate(&mut self) -> (r: Rotation)
        ensures
            final(self)@ == old(self)@.rotating(),
            r == Rotation::started(old(self)@.max_files),
            r.wf(),
    {
        self.open = false;
        Rotation::start(self.max_files)
    }

    /// Reports that the active file was created anew and holds the header.
    pub fn rotated(&mut self)
        ensures
            final(self)@ == old(self)@.renewed(),
    {
        self.current_bytes = CSV_HEADER.len() as u64;
        self.open = true;
    }

    /// Reports that `row` was appended to the open file. Without an open file
    /// nothing changes.
    pub fn appended(&mut self, row: &str)
        ensures
            final(self)@ == old(self)@.grown(byte_len(row@)),
    {
        if self.open {
            self.current_bytes = self.current_bytes.saturating_add(row.len() as u64);
        }
    }

    /// Whether the file is open.
    pub fn is_open(&self) -> (r: bool)
        ensures
            r == self@.open,
    {
        self.open
    }

    /// The path of the active file.
    pub fn path(&self) -> (r: &str)
        ensures
            r@ == self@.path,
    {
        self.path.as_str()
    }

    /// The size of the active file in bytes.
    pub fn current_bytes(&self) -> (r: u64)
        ensures
            r == self@.current_bytes,
    {
        self.current_bytes
    }

    /// The size in bytes that the active file may reach; zero means any.
    pub fn max_bytes(&self) -> (r: u64)
        ensures
            r == self@.max_bytes,
    {
        self.max_bytes
    }

    /// The number of backups that are kept.
    pub fn max_files(&self) -> (r: u32)
        ensures
            r == self@.max_files,
    {
        self.max_files
    }
}

/// What a writer knows after a row of `row_len` bytes was written and every file
/// operation for it succeeded.
pub open spec fn after_record(w: WriterModel, row_len: u64) -> WriterModel {
    match write_step(w, row_len) {
        WriteStep::Rotate => WriterModel {
            open: true,
            current_bytes: saturating_sum(header_len(), row_len),
            ..w
        },
        WriteStep::Append => WriterModel {
            current_bytes: saturating_sum(w.current_bytes, row_len),
            ..w
        },
        WriteStep::Skip => w,
    }
}

/// What `rotate`, `rotated` and `appended` report, taken in the order that
/// `write_record` asks for, ends in `after_record`. A row without an open file to go to
/// changes nothing, even if it is reported as appended.
pub proof fn law_steps_end_after_record(w: WriterModel, row_len: u64)
    ensures
        after_record(w, row_len) == match write_step(w, row_len) {
            WriteStep::Rotate => w.rotating().renewed().grown(row_len),
            WriteStep::Append => w.grown(row_len),
            WriteStep::Skip => w.grown(row_len),
        },
{
}

/// With a size limit, the file stays within it, as long as each row fits into a
/// file beside the header.
pub proof fn law_file_stays_within_limit(w: WriterModel, row_len: u64)
    requires
        w.max_bytes > 0,
        header_len() + row_len <= w.max_bytes,
        w.open,
    ensures
        after_record(w, row_len).current_bytes <= w.max_bytes,
        after_record(w, row_len).open,
{
}

/// Without a size limit the files are never rotated.
pub proof fn law_no_limit_no_rotation(w: WriterModel, row_len: u64)
    requires
        w.max_bytes == 0,
    ensures
        write_step(w, row_len) != WriteStep::Rotate,
{
}

/// Whether rows go to the open file or to a new one is decided by the limit: with an
/// open file, a row that fits within the limit, or meets none, is appended, and a row
/// that would exceed the limit is preceded by a rotation.
pub proof fn law_rotation_comes_only_at_the_limit(
    w: CsvWriter,
    record: CsvRecord,
    r: (String, WriteStep),
)
    requires
        call_ensures(CsvWriter::write_record, (&w, &record), r),
        vstd::utf8::encode_utf8(r.0@).len() <= usize::MAX,
    ensures
        ({
            let size = w@.current_bytes + vstd::utf8::encode_utf8(r.0@).len();
            &&& w@.open && (w@.max_bytes == 0 || size <= w@.max_bytes) ==> r.1
                == WriteStep::Append
            &&& w@.max_bytes > 0 && size > w@.max_bytes && w@.max_bytes < u64::MAX ==> r.1
                == WriteStep::Rotate
            &&& r.1 == WriteStep::Rotate ==> w@.max_bytes > 0 && size > w@.max_bytes
            &&& !w@.open && (w@.max_bytes == 0 || size <= w@.max_bytes) ==> r.1 == WriteStep::Skip
        }),
{
}

/// A new writer goes on with a file that holds something, and counts the header in one
/// that does not; the limits are those that it is given.
pub proof fn law_new_writer_knows_its_file(
    path: &str,
    max_bytes: u64,
    max_files: u32,
    file_size: u64,
    due: bool,
    w: CsvWriter,
)
    requires
        call_ensures(CsvWriter::header_due, (file_size,), due),
        call_ensures(CsvWriter::new, (path, max_bytes, max_files, file_size), w) || call_ensures(
            CsvWriter::with_max_bytes,
            (path, max_bytes, max_files, file_size),
            w,
        ),
        vstd::utf8::encode_utf8(CSV_HEADER@).len() <= usize::MAX,
    ensures
        due <==> file_size == 0,
        w@.path == path@,
        w@.max_bytes == max_bytes,
        w@.max_files == max_files,
        w@.open,
        w@.current_bytes == file_size + (if due {
            vstd::utf8::encode_utf8(CSV_HEADER@).len() as int
        } else {
            0
        }),
{
}

/// A row that is appended makes the file longer by its length in bytes, and changes
/// nothing else; nor does it change anything where no file is open.
pub proof fn law_appended_row_counts_its_bytes(w: &mut CsvWriter, row: &str)
    requires
        call_ensures(CsvWriter::appended, (w, row), ()),
        vstd::utf8::encode_utf8(row@).len() <= usize::MAX,
    ensures
        old(w)@.open && old(w)@.current_bytes + vstd::utf8::encode_utf8(row@).len() <= u64::MAX
            ==> final(w)@.current_bytes == old(w)@.current_bytes + vstd::utf8::encode_utf8(
            row@,
        ).len(),
        old(w)@.open && old(w)@.current_bytes + vstd::utf8::encode_utf8(row@).len() > u64::MAX
            ==> final(w)@.current_bytes == u64::MAX,
        !old(w)@.open ==> final(w)@.current_bytes == old(w)@.current_bytes,
        final(w)@.open == old(w)@.open,
        final(w)@.path == old(w)@.path,
        final(w)@.max_bytes == old(w)@.max_bytes,
        final(w)@.max_files == old(w)@.max_files,
{
}

/// A rotation closes the file until it is over, and then the file is open again and as
/// long as the header. Path and limits stay, and the rotation keeps as many backups as
/// the writer may have.
pub proof fn law_rotated_file_holds_the_header(
    begun: &mut CsvWriter,
    ended: &mut CsvWriter,
    rotation: Rotation,
    started: Rotation,
)
    requires
        call_ensures(CsvWriter::rotate, (begun,), rotation),
        call_ensures(Rotation::start, (old(begun)@.max_files,), started),
        call_ensures(CsvWriter::rotated, (ended,), ()),
        *old(ended) == *final(begun),
        vstd::utf8::encode_utf8(CSV_HEADER@).len() <= usize::MAX,
    ensures
        rotation == started,
        rotation.max_files == old(begun)@.max_files,
        !final(begun)@.open,
        final(begun)@.current_bytes == old(begun)@.current_bytes,
        final(ended)@.open,
        final(ended)@.current_bytes == vstd::utf8::encode_utf8(CSV_HEADER@).len(),
        final(ended)@.path == old(begun)@.path,
        final(ended)@.max_bytes == old(begun)@.max_bytes,
        final(ended)@.max_files == old(begun)@.max_files,
{
}

/// A field stands in a row as it is just where it holds no comma, quote or line break
/// and no white space at an end. Any other field stands between quotes.
pub proof fn law_only_fields_in_need_are_quoted(field: &str, s: String)
    requires
        call_ensures(escape_csv_field, (field,), s),
    ensures
        (forall|i: int|
            0 <= i < field@.len() ==> #[trigger] field@[i] != ',' && field@[i] != '"' && field@[i]
                != '\n' && field@[i] != '\r') && (field@.len() > 0 ==> !text::is_whitespace(
            field@[0],
        ) && !text::is_whitespace(field@.last())) <==> s@ == field@,
        s@ != field@ ==> s@.len() >= field@.len() + 2 && s@[0] == '"' && s@.last() == '"',
{
    let f = field@;
    lemma_doubled_len(f);
    if needs_quotes(f) {
        if exists|i: int| 0 <= i < f.len() && is_special(#[trigger] f[i]) {
            let i = choose|i: int| 0 <= i < f.len() && is_special(#[trigger] f[i]);
            assert(f[i] == ',' || f[i] == '"' || f[i] == '\n' || f[i] == '\r');
        }
    } else {
        assert forall|i: int| 0 <= i < f.len() implies #[trigger] f[i] != ',' && f[i] != '"' && f[i]
            != '\n' && f[i] != '\r' by {
            assert(!is_special(f[i]));
        }
    }
}

/// Doubling quotes makes a text no shorter.
proof fn lemma_doubled_len(s: Seq<char>)
    ensures
        doubled(s).len() >= s.len(),
        (forall|i: int| 0 <= i < s.len() ==> #[trigger] s[i] != '"') ==> doubled(s) == s,
    decreases s.len(),
{
    if s.len() > 0 {
        lemma_doubled_len(s.drop_last());
        if forall|i: int| 0 <= i < s.len() ==> #[trigger] s[i] != '"' {
            assert forall|i: int| 0 <= i < s.drop_last().len() implies #[trigger] s.drop_last()[i]
                != '"' by {
                assert(s.drop_last()[i] == s[i]);
            }
            assert(s[s.len() - 1] != '"');
            assert(s.drop_last().push(s.last()) == s);
        }
    } else {
        assert(doubled(s) =~= s);
    }
}

/// A field without quotes stands between quotes unchanged where it stands between
/// quotes at all, and a quote in a field is written as two.
pub proof fn law_quotes_are_doubled(field: &str, parts: (&str, &str), s: (String, String, String))
    requires
        call_ensures(escape_csv_field, (field,), s.0),
        field@ == parts.0@.push('"') + parts.1@,
        forall|i: int| 0 <= i < parts.0@.len() ==> #[trigger] parts.0@[i] != '"',
        forall|i: int| 0 <= i < parts.1@.len() ==> #[trigger] parts.1@[i] != '"',
        call_ensures(escape_csv_field, (parts.0,), s.1),
        call_ensures(escape_csv_field, (parts.1,), s.2),
    ensures
        s.0@ == seq!['"'] + parts.0@ + seq!['"', '"'] + parts.1@ + seq!['"'],
        s.1@ == parts.0@ || s.1@ == seq!['"'] + parts.0@ + seq!['"'],
        s.2@ == parts.1@ || s.2@ == seq!['"'] + parts.1@ + seq!['"'],
{
    let (a, b) = (parts.0@, parts.1@);
    lemma_doubled_len(a);
    lemma_doubled_len(b);
    lemma_doubled_concat(a.push('"'), b);
    assert(a.push('"').drop_last() == a);
    assert(a.push('"').last() == '"');
    assert(doubled(a.push('"')) == a.push('"').push('"'));
    assert(field@[a.len() as int] == '"');
    assert(is_special(field@[a.len() as int]));
    assert(needs_quotes(field@));
    assert(s.0@ == seq!['"'] + (a.push('"').push('"') + b) + seq!['"']);
}

/// A row holds its columns in the order of the header, with a comma after each but the
/// last, and a line feed at the end. The executable and the arguments are escaped.
pub proof fn law_row_holds_the_columns_in_order(
    record: CsvRecord,
    row: String,
    executable: String,
    args: String,
)
    requires
        call_ensures(CsvRecord::format_row, (&record,), row),
        call_ensures(escape_csv_field, (record.executable,), executable),
        call_ensures(escape_csv_field, (record.args,), args),
    ensures
        ({
            let c = seq![','];
            let who = record.timestamp@ + c + executable@ + c + args@ + c + text::decimal(
                record.pid as nat,
            ) + c;
            let cpu = record.app_cpu_avg@ + c + record.app_cpu_peak@ + c + text::decimal(
                record.app_cpu_cycles as nat,
            ) + c + text::decimal(record.app_cpu_time_ms as nat) + c;
            let ram = record.app_ram_ws_avg_mb@ + c + record.app_ram_ws_peak_mb@ + c
                + record.app_priv_ram_avg_mb@ + c + record.app_priv_ram_peak_mb@ + c
                + record.app_priv_active_avg_mb@ + c + record.app_priv_active_peak_mb@ + c;
            let net = text::decimal(record.app_net_rx_bytes as nat) + c + text::decimal(
                record.app_net_tx_bytes as nat,
            ) + c;
            let system = record.system_cpu_avg@ + c + record.system_cpu_peak@ + c
                + record.system_ram_avg_mb@ + c + record.system_ram_peak_mb@ + c;
            row@ == who + (cpu + (ram + (net + (system + text::decimal(
                record.sample_count as nat,
            ))))) + seq!['\n']
        }),
{
    reveal_strlit(",");
    reveal_strlit("\n");
    let c = seq![','];
    assert(","@ == c && "\n"@ == seq!['\n']);
    let v = record.columns();
    assert(v.len() == 21);
    assert(v[1] == executable@ && v[2] == args@);
    lemma_joined_part(v, c, 4);
    lemma_joined_part(v.skip(4), c, 4);
    assert(v.skip(4).skip(4) == v.skip(8));
    lemma_joined_part(v.skip(8), c, 6);
    assert(v.skip(8).skip(6) == v.skip(14));
    lemma_joined_part(v.skip(14), c, 2);
    assert(v.skip(14).skip(2) == v.skip(16));
    lemma_joined_part(v.skip(16), c, 4);
    assert(v.skip(16).skip(4) == v.skip(20));
    assert(v.skip(20).len() == 1 && text::joined(v.skip(20), c) == v[20]);
    reveal_with_fuel(followed_each, 7);
    assert(Seq::<char>::empty() + v[0] == v[0]);
    assert(Seq::<char>::empty() + v[4] == v[4]);
    assert(Seq::<char>::empty() + v[8] == v[8]);
    assert(Seq::<char>::empty() + v[14] == v[14]);
    assert(Seq::<char>::empty() + v[16] == v[16]);
}

/// The first `n` texts of a list, each with `sep` after it.
spec fn followed_each(list: Seq<Seq<char>>, sep: Seq<char>, n: nat) -> Seq<char>
    decreases n,
{
    if n == 0 {
        Seq::empty()
    } else {
        followed_each(list, sep, (n - 1) as nat) + list[n - 1] + sep
    }
}

/// A joined list begins with its first texts, each with a separator after it.
proof fn lemma_joined_part(list: Seq<Seq<char>>, sep: Seq<char>, n: nat)
    requires
        n < list.len(),
    ensures
        text::joined(list, sep) == followed_each(list, sep, n) + text::joined(
            list.skip(n as int),
            sep,
        ),
    decreases n,
{
    if n == 0 {
        assert(list.skip(0) == list);
        assert(Seq::<char>::empty() + text::joined(list, sep) == text::joined(list, sep));
    } else {
        lemma_joined_part(list, sep, (n - 1) as nat);
        let rest = list.skip(n - 1);
        lemma_joined_first(rest, sep);
        assert(rest.drop_first() == list.skip(n as int));
        let a = followed_each(list, sep, (n - 1) as nat);
        let z = text::joined(list.skip(n as int), sep);
        assert(a + (list[n - 1] + sep + z) == a + list[n - 1] + sep + z);
    }
}

/// The header names the columns in the order of a row, with commas between the names and
/// a line break at the end.
pub proof fn law_header_names_each_column()
    ensures
        ({
            let h = CSV_HEADER@;
            &&& h.subrange(0, 9) == "timestamp"@
            &&& h.subrange(10, 20) == "executable"@
            &&& h.subrange(21, 25) == "args"@
            &&& h.subrange(26, 29) == "pid"@
            &&& h.subrange(30, 41) == "app_cpu_avg"@
            &&& h.subrange(42, 54) == "app_cpu_peak"@
            &&& h.subrange(55, 69) == "app_cpu_cycles"@
            &&& h.subrange(70, 85) == "app_cpu_time_ms"@
            &&& h.subrange(86, 100) == "app_ram_mb_avg"@
            &&& h.subrange(101, 116) == "app_ram_mb_peak"@
            &&& h.subrange(117, 136) == "app_priv_ram_mb_avg"@
            &&& h.subrange(137, 157) == "app_priv_ram_mb_peak"@
            &&& h.subrange(158, 180) == "app_priv_active_mb_avg"@
            &&& h.subrange(181, 204) == "app_priv_active_mb_peak"@
            &&& h.subrange(205, 221) == "app_net_rx_bytes"@
            &&& h.subrange(222, 238) == "app_net_tx_bytes"@
            &&& h.subrange(239, 253) == "system_cpu_avg"@
            &&& h.subrange(254, 269) == "system_cpu_peak"@
            &&& h.subrange(270, 287) == "system_ram_mb_avg"@
            &&& h.subrange(288, 306) == "system_ram_mb_peak"@
            &&& h.subrange(307, 314) == "samples"@
            &&& forall|i: int|
                0 <= i < h.len() ==> (#[trigger] h[i] == ',' <==> (
                i == 9 || i == 20 || i == 25 || i == 29 || i == 41 || i == 54
                    || i == 69 || i == 85 || i == 100 || i == 116 || i == 136 || i == 157
                    || i == 180 || i == 204 || i == 221 || i == 238 || i == 253 || i == 269
                    || i == 287 || i == 306))
            &&& h.len() == 315 && h.last() == '\n'
        }),
{
    reveal_strlit("timestamp,executable,args,pid,app_cpu_avg,app_cpu_peak,app_cpu_cycles,app_cpu_time_ms,app_ram_mb_avg,app_ram_mb_peak,app_priv_ram_mb_avg,app_priv_ram_mb_peak,app_priv_active_mb_avg,app_priv_active_mb_peak,app_net_rx_bytes,app_net_tx_bytes,system_cpu_avg,system_cpu_peak,system_ram_mb_avg,system_ram_mb_peak,samples\n");
    reveal_strlit("timestamp");
    reveal_strlit("executable");
    reveal_strlit("args");
    reveal_strlit("pid");
    reveal_strlit("app_cpu_avg");
    reveal_strlit("app_cpu_peak");
    reveal_strlit("app_cpu_cycles");
    reveal_strlit("app_cpu_time_ms");
    reveal_strlit("app_ram_mb_avg");
    reveal_strlit("app_ram_mb_peak");
    reveal_strlit("app_priv_ram_mb_avg");
    reveal_strlit("app_priv_ram_mb_peak");
    reveal_strlit("app_priv_active_mb_avg");
    reveal_strlit("app_priv_active_mb_peak");
    reveal_strlit("app_net_rx_bytes");
    reveal_strlit("app_net_tx_bytes");
    reveal_strlit("system_cpu_avg");
    reveal_strlit("system_cpu_peak");
    reveal_strlit("system_ram_mb_avg");
    reveal_strlit("system_ram_mb_peak");
    reveal_strlit("samples");
    let h = CSV_HEADER@;
    assert(h.subrange(0, 9) =~= "timestamp"@);
    assert(h.subrange(10, 20) =~= "executable"@);
    assert(h.subrange(21, 25) =~= "args"@);
    assert(h.subrange(26, 29) =~= "pid"@);
    assert(h.subrange(30, 41) =~= "app_cpu_avg"@);
    assert(h.subrange(42, 54) =~= "app_cpu_peak"@);
    assert(h.subrange(55, 69) =~= "app_cpu_cycles"@);
    assert(h.subrange(70, 85) =~= "app_cpu_time_ms"@);
    assert(h.subrange(86, 100) =~= "app_ram_mb_avg"@);
    assert(h.subrange(101, 116) =~= "app_ram_mb_peak"@);
    assert(h.subrange(117, 136) =~= "app_priv_ram_mb_avg"@);
    assert(h.subrange(137, 157) =~= "app_priv_ram_mb_peak"@);
    assert(h.subrange(158, 180) =~= "app_priv_active_mb_avg"@);
    assert(h.subrange(181, 204) =~= "app_priv_active_mb_peak"@);
    assert(h.subrange(205, 221) =~= "app_net_rx_bytes"@);
    assert(h.subrange(222, 238) =~= "app_net_tx_bytes"@);
    assert(h.subrange(239, 253) =~= "system_cpu_avg"@);
    assert(h.subrange(254, 269) =~= "system_cpu_peak"@);
    assert(h.subrange(270, 287) =~= "system_ram_mb_avg"@);
    assert(h.subrange(288, 306) =~= "system_ram_mb_peak"@);
    assert(h.subrange(307, 314) =~= "samples"@);
}

/// What a writer shows of itself is what it knows.
pub proof fn law_writer_shows_what_it_knows(
    w: CsvWriter,
    open: bool,
    path: &str,
    sizes: (u64, u64, u32),
)
    requires
        call_ensures(CsvWriter::is_open, (&w,), open),
        call_ensures(CsvWriter::path, (&w,), path),
        call_ensures(CsvWriter::current_bytes, (&w,), sizes.0),
        call_ensures(CsvWriter::max_bytes, (&w,), sizes.1),
        call_ensures(CsvWriter::max_files, (&w,), sizes.2),
    ensures
        open == w@.open,
        path@ == w@.path,
        sizes.0 == w@.current_bytes,
        sizes.1 == w@.max_bytes,
        sizes.2 == w@.max_files,
{
}

/// How a field that stands between quotes grows with its last character: a quote is
/// written twice, and any other character as it is, behind what the field without it is
/// written as.
pub proof fn law_quoted_fields_grow_by_their_characters(
    field: &str,
    shorter: &str,
    s: (String, String),
)
    requires
        call_ensures(escape_csv_field, (field,), s.0),
        call_ensures(escape_csv_field, (shorter,), s.1),
        field@.len() > 0,
        shorter@ == field@.drop_last(),
        s.0@ != field@,
    ensures
        ({
            let before = if s.1@ == shorter@ {
                shorter@
            } else {
                s.1@.subrange(1, s.1@.len() - 1)
            };
            let own = if field@.last() == '"' {
                seq!['"', '"']
            } else {
                seq![field@.last()]
            };
            s.0@ == seq!['"'] + before + own + seq!['"']
        }),
{
    let (f, g) = (field@, shorter@);
    lemma_doubled_len(g);
    lemma_doubled_len(f);
    if needs_quotes(g) {
        assert(s.1@.subrange(1, s.1@.len() - 1) == doubled(g));
    } else {
        assert forall|i: int| 0 <= i < g.len() implies #[trigger] g[i] != '"' by {
            assert(!is_special(g[i]));
        }
    }
    assert(needs_quotes(f));
}

/// The row that is written is the record as it is formatted.
pub proof fn law_written_row_is_the_formatted_record(
    w: CsvWriter,
    record: CsvRecord,
    r: (String, WriteStep),
    row: String,
)
    requires
        call_ensures(CsvWriter::write_record, (&w, &record), r),
        call_ensures(CsvRecord::format_row, (&record,), row),
    ensures
        r.0@ == row@,
{
}

} // verus!
