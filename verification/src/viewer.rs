//! The logic of the WAL viewer: decoding a log file into a list of records
//! with their offsets, moving the selection through that list, reading the
//! viewer's arguments, and previewing keys and values as text.
use vstd::prelude::*;
use vstd::string::{StrSliceExecFns, StringExecFns};
use vstd::utf8::{decode_utf8, valid_utf8};

use crate::error::{decimal_digits, decimal_string};
use crate::engine::lsm::{log_end, log_records, replay_records, replay_result};
use crate::error::Error;
use crate::storage::wal::{
    read_header, read_header_spec, read_record_at, read_record_spec, ReadRecord, ReadView,
    RecordView, WalRecord, FILE_HEADER_BYTES,
};

verus! {

/// The kind of a viewed record.
#[derive(Debug, Clone, Copy, PartialEq, Eq)]
pub enum RecordKind {
    Put,
    Delete,
}

/// A decoded record with its place in the log.
#[derive(Debug, Clone, PartialEq, Eq)]
pub struct ViewedRecord {
    /// The position of the record in the log, from 0.
    pub index: usize,
    /// The offset where the record starts.
    pub offset: u64,
    /// The offset just past the record.
    pub end_offset: u64,
    pub kind: RecordKind,
    pub key: Vec<u8>,
    /// The value of a put; a delete has none.
    pub value: Option<Vec<u8>>,
}

impl ViewedRecord {
    /// The log record this viewed record shows.
    pub open spec fn record_view(&self) -> RecordView {
        match self.kind {
            RecordKind::Put => RecordView::Put(
                self.key@,
                match self.value {
                    Some(v) => v@,
                    None => Seq::empty(),
                },
            ),
            RecordKind::Delete => RecordView::Delete(self.key@),
        }
    }

    /// The viewed record for `record`, found at position `index` between the
    /// offsets `offset` and `end_offset`.
    pub fn from_record(index: usize, offset: u64, end_offset: u64, record: WalRecord) -> (r: Self)
        ensures
            r.index == index,
            r.offset == offset,
            r.end_offset == end_offset,
            r.record_view() == record@,
            r.kind == (match record {
                WalRecord::Put { .. } => RecordKind::Put,
                WalRecord::Delete { .. } => RecordKind::Delete,
            }),
            r.value is Some <==> r.kind == RecordKind::Put,
    {
        match record {
            WalRecord::Put { key, value } => ViewedRecord {
                index,
                offset,
                end_offset,
                kind: RecordKind::Put,
                key,
                value: Some(value),
            },
            WalRecord::Delete { key } => ViewedRecord {
                index,
                offset,
                end_offset,
                kind: RecordKind::Delete,
                key,
                value: None,
            },
        }
    }
}

/// The selection after moving to the next of `len` records from `sel`,
/// stopping at the last.
pub open spec fn next_selection(len: int, sel: int) -> int {
    if len == 0 {
        sel
    } else if sel + 1 < len {
        sel + 1
    } else {
        len - 1
    }
}

/// The selection after moving to the previous record from `sel`, stopping
/// at the first.
pub open spec fn previous_selection(sel: int) -> int {
    if sel == 0 {
        0
    } else {
        sel - 1
    }
}

/// The selection on the last of `len` records, or 0 when there is none.
pub open spec fn last_selection(len: int) -> int {
    if len == 0 {
        0
    } else {
        len - 1
    }
}

/// Moving the selection among `len` records never leaves them and never
/// wraps around: the next record is one further on, except at the last,
/// which stays; the previous record is one back, except at the first, which
/// stays; the last selection is the final record.
pub proof fn law_selection_moves_by_one_and_stops_at_the_ends(len: int, sel: int)
    requires
        0 <= sel < len,
    ensures
        0 <= next_selection(len, sel) < len,
        next_selection(len, sel) == sel + 1 || (sel == len - 1 && next_selection(len, sel) == sel),
        0 <= previous_selection(sel) < len,
        previous_selection(sel) == sel - 1 || (sel == 0 && previous_selection(sel) == 0),
        last_selection(len) == len - 1,
{
}

/// A list of viewed records with one of them selected.
pub struct RecordBrowser {
    records: Vec<ViewedRecord>,
    selected: usize,
}

impl RecordBrowser {
    /// The selection is on a record, or at 0 when there is none.
    pub closed spec fn wf(&self) -> bool {
        if self.records@.len() == 0 {
            self.selected == 0
        } else {
            self.selected < self.records@.len()
        }
    }

    /// The records.
    pub closed spec fn records_view(&self) -> Seq<ViewedRecord> {
        self.records@
    }

    /// The position of the selection.
    pub closed spec fn selection(&self) -> int {
        self.selected as int
    }

    /// An empty list.
    pub fn new() -> (r: Self)
        ensures
            r.wf(),
            r.records_view().len() == 0,
            r.selection() == 0,
    {
        RecordBrowser { records: Vec::new(), selected: 0 }
    }

    /// The records.
    pub fn records(&self) -> (r: &Vec<ViewedRecord>)
        ensures
            r@ == self.records_view(),
    {
        &self.records
    }

    /// The position of the selection.
    pub fn selected(&self) -> (r: usize)
        ensures
            r == self.selection(),
    {
        self.selected
    }

    /// Replaces the records, keeping the selection where it is when it still
    /// names a record and moving it to the last record otherwise.
    pub fn replace(&mut self, records: Vec<ViewedRecord>)
        ensures
            final(self).wf(),
            final(self).records_view() == records@,
            final(self).selection() == if records@.len() == 0 {
                0
            } else if old(self).selection() >= records@.len() {
                records@.len() - 1
            } else {
                old(self).selection()
            },
    {
        self.records = records;
        if self.records.len() == 0 {
            self.selected = 0;
        } else if self.selected >= self.records.len() {
            self.selected = self.records.len() - 1;
        }
    }

    /// Moves the selection to the next record, stopping at the last.
    pub fn next(&mut self)
        requires
            old(self).wf(),
        ensures
            final(self).wf(),
            final(self).records_view() == old(self).records_view(),
            final(self).selection() == next_selection(
                old(self).records_view().len() as int,
                old(self).selection(),
            ),
    {
        if self.records.len() == 0 {
            return ;
        }
        let last = self.records.len() - 1;
        let candidate = self.selected + 1;
        self.selected = if candidate < last {
            candidate
        } else {
            last
        };
    }

    /// Moves the selection to the previous record, stopping at the first.
    pub fn previous(&mut self)
        requires
            old(self).wf(),
        ensures
            final(self).wf(),
            final(self).records_view() == old(self).records_view(),
            final(self).selection() == previous_selection(old(self).selection()),
    {
        self.selected = if self.selected == 0 {
            0
        } else {
            self.selected - 1
        };
    }

    /// Selects the first record.
    pub fn select_first(&mut self)
        requires
            old(self).wf(),
        ensures
            final(self).wf(),
            final(self).records_view() == old(self).records_view(),
            final(self).selection() == 0,
    {
        self.selected = 0;
    }

    /// Selects the last record, when there is one.
    pub fn select_last(&mut self)
        requires
            old(self).wf(),
        ensures
            final(self).wf(),
            final(self).records_view() == old(self).records_view(),
            final(self).selection() == last_selection(old(self).records_view().len() as int),
    {
        if self.records.len() != 0 {
            self.selected = self.records.len() - 1;
        }
    }

    /// The selected record, if any.
    pub fn selected_record(&self) -> (r: Option<&ViewedRecord>)
        requires
            self.wf(),
        ensures
            match r {
                Some(rec) => self.selection() < self.records_view().len() && *rec
                    == self.records_view()[self.selection()],
                None => self.records_view().len() == 0,
            },
    {
        if self.selected < self.records.len() {
            Some(&self.records[self.selected])
        } else {
            None
        }
    }
}

/// Decodes `bytes` as UTF-8 with `std::str::from_utf8`, which accepts
/// exactly the valid UTF-8 byte strings and yields the characters they
/// encode.
#[verifier::external_body]
fn utf8_text(bytes: &[u8]) -> (r: Option<&str>)
    ensures
        match r {
            Some(text) => valid_utf8(bytes@) && text@ == decode_utf8(bytes@),
            None => !valid_utf8(bytes@),
        },
{
    match std::str::from_utf8(bytes) {
        Ok(text) => Some(text),
        Err(_) => None,
    }
}

/// Whether `c` is a control character (general category Cc, as
/// `char::is_control` decides it).
fn is_control(c: char) -> (r: bool)
    ensures
        r == is_control_spec(c),
{
    let v: u32 = c as u32;
    v <= 0x1f || (0x7f <= v && v <= 0x9f)
}

/// The control characters, general category Cc.
pub open spec fn is_control_spec(c: char) -> bool {
    (c as u32) <= 0x1f || (0x7f <= (c as u32) && (c as u32) <= 0x9f)
}

/// The first `max` characters of `text`, with "..." after them when the text
/// is longer.
pub open spec fn truncate_spec(text: Seq<char>, max: nat) -> Seq<char> {
    if text.len() > max {
        text.subrange(0, max as int) + "..."@
    } else {
        text
    }
}

/// The first `max` characters of `text`, with "..." after them when the text
/// is longer.
pub fn truncate_chars(text: &str, max: usize) -> (r: String)
    ensures
        r@ == truncate_spec(text@, max as nat),
{
    let count = text.unicode_len();
    if count > max {
        String::from_str(text.substring_char(0, max)).concat("...")
    } else {
        String::from_str(text)
    }
}

/// The placeholder for bytes that are not shown as text.
pub open spec fn binary_placeholder(len: nat) -> Seq<char> {
    "<binary "@ + decimal_digits(len) + " bytes>"@
}

fn binary_text(len: usize) -> (r: String)
    ensures
        r@ == binary_placeholder(len as nat),
{
    String::from_str("<binary ").concat(decimal_string(len as u64).as_str()).concat(" bytes>")
}

/// The preview of a value: its text, truncated to `max` characters, when
/// it is valid UTF-8, and a placeholder with its length otherwise.
pub open spec fn preview_value_spec(bytes: Seq<u8>, max: nat) -> Seq<char> {
    if valid_utf8(bytes) {
        truncate_spec(decode_utf8(bytes), max)
    } else {
        binary_placeholder(bytes.len())
    }
}

/// The preview of a key: its text, truncated to `max` characters, when it
/// is valid UTF-8 without control characters, and a placeholder with its
/// length otherwise.
pub open spec fn preview_key_spec(bytes: Seq<u8>, max: nat) -> Seq<char> {
    if valid_utf8(bytes) && forall|i: int|
        0 <= i < decode_utf8(bytes).len() ==> !is_control_spec(#[trigger] decode_utf8(bytes)[i]) {
        truncate_spec(decode_utf8(bytes), max)
    } else {
        binary_placeholder(bytes.len())
    }
}

/// A value that is valid UTF-8 is previewed as its text, whatever
/// characters it holds, control characters included: whole when it has at
/// most `max` characters, and otherwise its first `max` characters followed
/// by "...". Only bytes that are not valid UTF-8 are shown as
/// "<binary N bytes>".
pub proof fn law_preview_value_shows_any_text(bytes: Seq<u8>, max: nat)
    ensures
        valid_utf8(bytes) && decode_utf8(bytes).len() <= max ==> preview_value_spec(bytes, max)
            == decode_utf8(bytes),
        valid_utf8(bytes) && decode_utf8(bytes).len() > max ==> preview_value_spec(bytes, max)
            == decode_utf8(bytes).subrange(0, max as int) + "..."@,
        !valid_utf8(bytes) ==> preview_value_spec(bytes, max) == "<binary "@ + decimal_digits(
            bytes.len(),
        ) + " bytes>"@,
{
}

/// A key is hidden as "<binary N bytes>" exactly when it is not valid UTF-8
/// or holds a control character of general category Cc, a code point up to
/// U+001F or from U+007F to U+009F. A valid key of other characters, such as
/// letters outside ASCII, is previewed as its text, cut to `max` characters
/// with "..." after them when it is longer.
pub proof fn law_preview_key_hides_only_control_characters(bytes: Seq<u8>, max: nat)
    ensures
        valid_utf8(bytes) && (forall|i: int|
            0 <= i < decode_utf8(bytes).len() ==> {
                let v = (#[trigger] decode_utf8(bytes)[i]) as u32;
                (0x20 <= v && v <= 0x7e) || 0xa0 <= v
            }) ==> preview_key_spec(bytes, max) == if decode_utf8(bytes).len() <= max {
            decode_utf8(bytes)
        } else {
            decode_utf8(bytes).subrange(0, max as int) + "..."@
        },
        (!valid_utf8(bytes) || exists|i: int|
            0 <= i < decode_utf8(bytes).len() && {
                let v = (#[trigger] decode_utf8(bytes)[i]) as u32;
                v <= 0x1f || (0x7f <= v && v <= 0x9f)
            }) ==> preview_key_spec(bytes, max) == "<binary "@ + decimal_digits(bytes.len())
            + " bytes>"@,
{
}

/// A preview of a value: its text, truncated to `max` characters, when it
/// is valid UTF-8, and a placeholder with its length otherwise.
pub fn preview_value(bytes: &[u8], max: usize) -> (r: String)
    ensures
        r@ == preview_value_spec(bytes@, max as nat),
{
    match utf8_text(bytes) {
        Some(text) => truncate_chars(text, max),
        None => binary_text(bytes.len()),
    }
}

/// A preview of a key: its text, truncated to `max` characters, when it is
/// valid UTF-8 without control characters, and a placeholder with its
/// length otherwise.
pub fn preview_key(bytes: &[u8], max: usize) -> (r: String)
    ensures
        r@ == preview_key_spec(bytes@, max as nat),
{
    if let Some(text) = utf8_text(bytes) {
        let mut printable = true;
        broadcast use vstd::string::group_string_axioms;

        for c in it: text.chars()
            invariant
                it.seq() == text@,
                printable == forall|j: int|
                    0 <= j < it.index() ==> !is_control_spec(#[trigger] it.seq()[j]),
        {
            if is_control(c) {
                printable = false;
            }
        }
        if printable {
            return truncate_chars(text, max);
        }
    }
    binary_text(bytes.len())
}

/// `n` spaces, none when `n` is not positive.
pub open spec fn spaces(n: int) -> Seq<char> {
    Seq::new(if n > 0 { n as nat } else { 0 }, |i: int| ' ')
}

/// `text` padded with spaces on its right to `width` characters.
pub open spec fn pad_end(text: Seq<char>, width: int) -> Seq<char> {
    text + spaces(width - text.len())
}

/// `text` padded with spaces on its left to `width` characters.
pub open spec fn pad_start(text: Seq<char>, width: int) -> Seq<char> {
    spaces(width - text.len()) + text
}

/// Padding keeps the text and fills with spaces up to the width: on the
/// right, the text stands at the start; on the left, it stands at the end;
/// either way the result has `width` characters, or the text's own length
/// when that is longer.
pub proof fn law_padding_keeps_text(text: Seq<char>, width: int)
    ensures
        pad_end(text, width).len() == if text.len() < width { width } else { text.len() as int },
        pad_start(text, width).len() == pad_end(text, width).len(),
        pad_end(text, width).subrange(0, text.len() as int) == text,
        forall|i: int|
            text.len() <= i < pad_end(text, width).len() ==> #[trigger] pad_end(text, width)[i]
                == ' ',
        pad_start(text, width).subrange(
            pad_start(text, width).len() - text.len(),
            pad_start(text, width).len() as int,
        ) == text,
        forall|i: int|
            0 <= i < pad_start(text, width).len() - text.len() ==> #[trigger] pad_start(
                text,
                width,
            )[i] == ' ',
{
    assert(pad_end(text, width).subrange(0, text.len() as int) =~= text);
    assert(pad_start(text, width).subrange(
        pad_start(text, width).len() - text.len(),
        pad_start(text, width).len() as int,
    ) =~= text);
}

fn spaces_text(n: usize) -> (r: String)
    ensures
        r@ == spaces(n as int),
{
    let mut acc = String::new();
    let mut i: usize = 0;
    while i < n
        invariant
            i <= n,
            acc@ == spaces(i as int),
        decreases n - i,
    {
        proof {
            reveal_strlit(" ");
        }
        acc = acc.concat(" ");
        proof {
            assert(acc@ =~= spaces(i + 1));
        }
        i = i + 1;
    }
    acc
}

fn pad_end_text(text: String, width: usize) -> (r: String)
    ensures
        r@ == pad_end(text@, width as int),
{
    let len = text.as_str().unicode_len();
    if len < width {
        text.concat(spaces_text(width - len).as_str())
    } else {
        proof {
            assert(text@ =~= pad_end(text@, width as int));
        }
        text
    }
}

fn pad_start_text(text: String, width: usize) -> (r: String)
    ensures
        r@ == pad_start(text@, width as int),
{
    let len = text.as_str().unicode_len();
    if len < width {
        spaces_text(width - len).concat(text.as_str())
    } else {
        proof {
            assert(text@ =~= pad_start(text@, width as int));
        }
        text
    }
}

/// The label of a record's kind in the list of records.
pub open spec fn kind_column(kind: RecordKind) -> Seq<char> {
    match kind {
        RecordKind::Put => "PUT   "@,
        RecordKind::Delete => "DELETE"@,
    }
}

/// The line of a record in the list of records: its position, its offsets
/// and kind in aligned columns, and a preview of its key.
pub open spec fn record_line_spec(record: ViewedRecord) -> Seq<char> {
    "#"@ + pad_end(decimal_digits(record.index as nat), 4) + " "@ + pad_start(
        decimal_digits(record.offset as nat),
        10,
    ) + ".."@ + pad_end(decimal_digits(record.end_offset as nat), 10) + " "@ + kind_column(
        record.kind,
    ) + " key="@ + preview_key_spec(record.key@, 36)
}

/// The line of a record in the list of records.
pub fn record_line(record: &ViewedRecord) -> (r: String)
    ensures
        r@ == record_line_spec(*record),
{
    let kind = match record.kind {
        RecordKind::Put => "PUT   ",
        RecordKind::Delete => "DELETE",
    };
    String::from_str("#").concat(
        pad_end_text(decimal_string(record.index as u64), 4).as_str(),
    ).concat(" ").concat(pad_start_text(decimal_string(record.offset), 10).as_str()).concat(
        "..",
    ).concat(pad_end_text(decimal_string(record.end_offset), 10).as_str()).concat(" ").concat(
        kind,
    ).concat(" key=").concat(preview_key(record.key.as_slice(), 36).as_str())
}

/// The lines that describe a record in detail: its position, offsets, size,
/// kind, key length, and its value's length and preview, or that it is a
/// tombstone.
pub open spec fn detail_texts_spec(record: ViewedRecord) -> Seq<Seq<char>> {
    seq![
        "index       "@ + decimal_digits(record.index as nat),
        "offset      "@ + decimal_digits(record.offset as nat),
        "end offset  "@ + decimal_digits(record.end_offset as nat),
        "bytes       "@ + decimal_digits((record.end_offset - record.offset) as nat),
        "kind        "@ + match record.kind {
            RecordKind::Put => "PUT"@,
            RecordKind::Delete => "DELETE"@,
        },
        "key len     "@ + decimal_digits(record.key@.len()),
        match record.value {
            Some(v) => "value len   "@ + decimal_digits(v@.len()),
            None => "value len   0"@,
        },
        match record.value {
            Some(v) => "value       "@ + preview_value_spec(v@, 96),
            None => "value       tombstone"@,
        },
    ]
}

/// The lines that describe a record in detail.
pub fn detail_texts(record: &ViewedRecord) -> (r: Vec<String>)
    requires
        record.offset <= record.end_offset,
    ensures
        r@.len() == 8,
        forall|i: int| 0 <= i < 8 ==> (#[trigger] r@[i])@ == detail_texts_spec(*record)[i],
{
    let kind = match record.kind {
        RecordKind::Put => "PUT",
        RecordKind::Delete => "DELETE",
    };
    let mut lines: Vec<String> = Vec::new();
    lines.push(String::from_str("index       ").concat(decimal_string(record.index as u64).as_str()));
    lines.push(String::from_str("offset      ").concat(decimal_string(record.offset).as_str()));
    lines.push(
        String::from_str("end offset  ").concat(decimal_string(record.end_offset).as_str()),
    );
    lines.push(
        String::from_str("bytes       ").concat(
            decimal_string(record.end_offset - record.offset).as_str(),
        ),
    );
    lines.push(String::from_str("kind        ").concat(kind));
    lines.push(
        String::from_str("key len     ").concat(decimal_string(record.key.len() as u64).as_str()),
    );
    match &record.value {
        Some(value) => {
            lines.push(
                String::from_str("value len   ").concat(decimal_string(value.len() as u64).as_str()),
            );
            lines.push(
                String::from_str("value       ").concat(preview_value(value.as_slice(), 96).as_str()),
            );
        },
        None => {
            lines.push(String::from_str("value len   0"));
            lines.push(String::from_str("value       tombstone"));
        },
    }
    lines
}

/// The viewer's usage line.
pub fn usage() -> (r: &'static str)
    ensures
        r@ == usage_spec(),
{
    "usage: bloomy-viewer [--tail|--snapshot] path/to/bloomy.wal"
}

/// The viewer's usage line.
pub open spec fn usage_spec() -> Seq<char> {
    "usage: bloomy-viewer [--tail|--snapshot] path/to/bloomy.wal"@
}

/// The viewer's settings: the log file to show, and whether to keep
/// re-reading it as it grows.
#[derive(Debug, Clone, PartialEq, Eq)]
pub struct ViewerArgs {
    pub path: String,
    pub tail: bool,
}

/// Why the viewer's arguments were refused.
#[derive(Debug, Clone, PartialEq, Eq)]
pub enum ViewerArgsError {
    /// Help was asked for.
    Help,
    /// An option is not recognised.
    UnknownArgument { arg: String },
    /// More than one path was given.
    ExtraPath,
    /// No path was given.
    MissingPath,
}

/// The message of a refusal: the usage line, after the reason when there
/// is one.
pub open spec fn viewer_args_message_spec(e: ViewerArgsError) -> Seq<char> {
    match e {
        ViewerArgsError::Help => usage_spec(),
        ViewerArgsError::UnknownArgument { arg } => "unknown argument: "@ + arg@ + "\n\n"@
            + usage_spec(),
        ViewerArgsError::ExtraPath => "expected one WAL path\n\n"@ + usage_spec(),
        ViewerArgsError::MissingPath => "missing WAL path\n\n"@ + usage_spec(),
    }
}

impl ViewerArgsError {
    /// The message of the refusal.
    pub fn message(&self) -> (r: String)
        ensures
            r@ == viewer_args_message_spec(*self),
    {
        match self {
            ViewerArgsError::Help => String::from_str(usage()),
            ViewerArgsError::UnknownArgument { arg } => String::from_str(
                "unknown argument: ",
            ).concat(arg.as_str()).concat("\n\n").concat(usage()),
            ViewerArgsError::ExtraPath => String::from_str("expected one WAL path\n\n").concat(
                usage(),
            ),
            ViewerArgsError::MissingPath => String::from_str("missing WAL path\n\n").concat(
                usage(),
            ),
        }
    }
}

/// The effect of one argument on the path and tail setting read so far.
pub open spec fn viewer_arg_step(arg: String, path: Option<String>, tail: bool) -> Result<
    (Option<String>, bool),
    ViewerArgsError,
> {
    if arg@ == "--snapshot"@ {
        Ok((path, false))
    } else if arg@ == "--tail"@ {
        Ok((path, true))
    } else if arg@ == "-h"@ || arg@ == "--help"@ {
        Err(ViewerArgsError::Help)
    } else if arg@.len() > 0 && arg@[0] == '-' {
        Err(ViewerArgsError::UnknownArgument { arg })
    } else if path is Some {
        Err(ViewerArgsError::ExtraPath)
    } else {
        Ok((Some(arg), tail))
    }
}

/// The path and tail setting after reading the first `n` arguments, or the
/// first refusal.
pub open spec fn viewer_args_prefix(args: Seq<String>, n: int) -> Result<
    (Option<String>, bool),
    ViewerArgsError,
>
    decreases n,
{
    if n <= 0 {
        Ok((None, true))
    } else {
        match viewer_args_prefix(args, n - 1) {
            Err(e) => Err(e),
            Ok((path, tail)) => viewer_arg_step(args[n - 1], path, tail),
        }
    }
}

fn string_is(s: &String, lit: &str) -> (r: bool)
    ensures
        r == (s@ == lit@),
{
    *s == String::from_str(lit)
}

impl ViewerArgs {
    /// Reads the viewer's arguments (the program name left out): one log path,
    /// and `--snapshot` or `--tail` (the default) in any place.
    pub fn parse(args: Vec<String>) -> (r: Result<ViewerArgs, ViewerArgsError>)
        ensures
            match viewer_args_prefix(args@, args@.len() as int) {
                Ok((Some(path), tail)) => r == Ok::<ViewerArgs, ViewerArgsError>(
                    ViewerArgs { path, tail },
                ),
                Ok((None, _)) => r == Err::<ViewerArgs, ViewerArgsError>(ViewerArgsError::MissingPath),
                Err(e) => r == Err::<ViewerArgs, ViewerArgsError>(e),
            },
    {
        let mut path: Option<String> = None;
        let mut tail = true;
        let mut i: usize = 0;
        while i < args.len()
            invariant
                i <= args@.len(),
                viewer_args_prefix(args@, i as int) == Ok::<(Option<String>, bool), ViewerArgsError>(
                    (path, tail),
                ),
            decreases args.len() - i,
        {
            let arg = args[i].clone();
            if string_is(&arg, "--snapshot") {
                tail = false;
            } else if string_is(&arg, "--tail") {
                tail = true;
            } else if string_is(&arg, "-h") || string_is(&arg, "--help") {
                proof {
                    assert(viewer_args_prefix(args@, i + 1) == Err::<
                        (Option<String>, bool),
                        ViewerArgsError,
                    >(ViewerArgsError::Help));
                    lemma_viewer_args_stay_refused(args@, i + 1, args@.len() as int);
                }
                return Err(ViewerArgsError::Help);
            } else if arg.as_str().unicode_len() > 0 && arg.as_str().get_char(0) == '-' {
                proof {
                    lemma_viewer_args_stay_refused(args@, i + 1, args@.len() as int);
                }
                return Err(ViewerArgsError::UnknownArgument { arg });
            } else if path.is_some() {
                proof {
                    lemma_viewer_args_stay_refused(args@, i + 1, args@.len() as int);
                }
                return Err(ViewerArgsError::ExtraPath);
            } else {
                path = Some(arg);
            }
            i = i + 1;
        }
        match path {
            Some(path) => Ok(ViewerArgs { path, tail }),
            None => Err(ViewerArgsError::MissingPath),
        }
    }
}

/// Once an argument is refused, later arguments do not change the refusal.
proof fn lemma_viewer_args_stay_refused(args: Seq<String>, n: int, m: int)
    requires
        n <= m,
        viewer_args_prefix(args, n) is Err,
    ensures
        viewer_args_prefix(args, m) == viewer_args_prefix(args, n),
    decreases m - n,
{
    if n < m {
        lemma_viewer_args_stay_refused(args, n, m - 1);
    }
}

/// Whether `arg` sets the viewer's mode: `--snapshot` or `--tail`.
pub open spec fn is_mode_flag(arg: String) -> bool {
    arg@ == "--snapshot"@ || arg@ == "--tail"@
}

/// Whether `arg` is taken as the log's path: it does not start with `-`.
pub open spec fn is_path_arg(arg: String) -> bool {
    !(arg@.len() > 0 && arg@[0] == '-')
}

/// Whether among the first `n` arguments a `--snapshot` comes after every
/// `--tail`, so that the last mode flag asks for a snapshot.
pub open spec fn snapshot_last(args: Seq<String>, n: int) -> bool {
    exists|i: int|
        0 <= i < n && (#[trigger] args[i])@ == "--snapshot"@ && forall|j: int|
            i < j < n ==> (#[trigger] args[j])@ != "--tail"@
}

/// The viewer's arguments are accepted exactly when each is `--snapshot`,
/// `--tail` or a path, and at most one is a path. Then the path is that
/// argument, missing when there is none, and the viewer tails unless the
/// last mode flag is `--snapshot`.
pub proof fn law_viewer_args_closed(args: Seq<String>, n: int)
    requires
        0 <= n <= args.len(),
    ensures
        viewer_args_prefix(args, n) is Ok <==> {
            &&& forall|i: int|
                0 <= i < n ==> is_mode_flag(#[trigger] args[i]) || is_path_arg(args[i])
            &&& forall|i: int, j: int|
                0 <= i < n && 0 <= j < n && is_path_arg(#[trigger] args[i]) && is_path_arg(
                    #[trigger] args[j],
                ) ==> i == j
        },
        viewer_args_prefix(args, n) matches Ok((path, tail)) ==> {
            &&& tail == !snapshot_last(args, n)
            &&& forall|i: int| 0 <= i < n && is_path_arg(#[trigger] args[i]) ==> path == Some(args[i])
            &&& path is None <==> forall|i: int| 0 <= i < n ==> !is_path_arg(#[trigger] args[i])
        },
    decreases n,
{
    reveal_strlit("--snapshot");
    reveal_strlit("--tail");
    reveal_strlit("-h");
    reveal_strlit("--help");
    if n > 0 {
        law_viewer_args_closed(args, n - 1);
        let a = args[n - 1];
        match viewer_args_prefix(args, n - 1) {
            Err(_) => {},
            Ok((path, tail)) => {
                if a@ == "--snapshot"@ {
                    assert(snapshot_last(args, n)) by {
                        assert(args[n - 1]@ == "--snapshot"@);
                    }
                } else if a@ == "--tail"@ {
                    assert(!snapshot_last(args, n)) by {
                        assert forall|i: int| 0 <= i < n && (#[trigger] args[i])@ == "--snapshot"@
                            implies !(forall|j: int| i < j < n ==> (#[trigger] args[j])@ != "--tail"@) by {
                            assert(i != n - 1);
                            assert(args[n - 1]@ == "--tail"@);
                        }
                    }
                } else if a@ == "-h"@ || a@ == "--help"@ {
                    assert(!is_mode_flag(args[n - 1]) && !is_path_arg(args[n - 1]));
                } else if a@.len() > 0 && a@[0] == '-' {
                    assert(!is_mode_flag(args[n - 1]) && !is_path_arg(args[n - 1]));
                } else if path is Some {
                    assert(!forall|i: int| 0 <= i < n - 1 ==> !is_path_arg(#[trigger] args[i]));
                    let i = choose|i: int| 0 <= i < n - 1 && is_path_arg(#[trigger] args[i]);
                    assert(is_path_arg(args[i]) && is_path_arg(args[n - 1]) && i != n - 1);
                } else {
                    assert(is_path_arg(args[n - 1]));
                    assert(a@ != "--tail"@ && a@ != "--snapshot"@);
                    assert(snapshot_last(args, n) == snapshot_last(args, n - 1)) by {
                        if snapshot_last(args, n) {
                            let i = choose|i: int|
                                0 <= i < n && (#[trigger] args[i])@ == "--snapshot"@ && forall|j: int|
                                    i < j < n ==> (#[trigger] args[j])@ != "--tail"@;
                            assert(i != n - 1);
                            assert(forall|j: int| i < j < n - 1 ==> (#[trigger] args[j])@ != "--tail"@);
                        }
                        if snapshot_last(args, n - 1) {
                            let i = choose|i: int|
                                0 <= i < n - 1 && (#[trigger] args[i])@ == "--snapshot"@ && forall|j: int|
                                    i < j < n - 1 ==> (#[trigger] args[j])@ != "--tail"@;
                            assert(forall|j: int| i < j < n ==> (#[trigger] args[j])@ != "--tail"@);
                        }
                    }
                }
            },
        }
    }
}

/// Where the viewer stands on the log file.
#[derive(Debug, Clone, PartialEq, Eq)]
pub enum ViewerStatus {
    /// The log ends cleanly at `offset`.
    CleanEof { offset: u64 },
    /// A record cut short starts at `offset`.
    PartialTail { offset: u64 },
    /// The log is not there yet, or not complete enough to read.
    Waiting(String),
    /// The log is corrupt.
    Corrupt(String),
}

/// The records of a log file and where reading it stopped.
#[derive(Debug, Clone, PartialEq, Eq)]
pub struct WalSnapshot {
    pub records: Vec<ViewedRecord>,
    pub status: ViewerStatus,
}

/// The log records that viewed records show.
pub open spec fn record_views(recs: Seq<ViewedRecord>) -> Seq<RecordView> {
    recs.map_values(|r: ViewedRecord| r.record_view())
}

/// The log `s` holds, at offset `off`, the record `r` taking `n` bytes.
#[verifier::opaque]
pub open spec fn record_at(s: Seq<u8>, off: int, r: RecordView, n: int) -> bool {
    read_record_spec(s.skip(off)) == Ok::<(ReadView, int), Error>((ReadView::Record(r), n))
}

/// The viewed records stand one after another from `start` on, numbered
/// from 0, each the record that the log holds at its offset.
pub open spec fn records_laid_out(s: Seq<u8>, recs: Seq<ViewedRecord>, start: int) -> bool {
    &&& recs.len() > 0 ==> recs[0].offset == start
    &&& forall|i: int, j: int|
        0 <= i && j == i + 1 && j < recs.len() ==> (#[trigger] recs[j]).offset == (
        #[trigger] recs[i]).end_offset
    &&& forall|i: int|
        0 <= i < recs.len() ==> {
            &&& (#[trigger] recs[i]).index == i
            &&& record_at(
                s,
                recs[i].offset as int,
                recs[i].record_view(),
                recs[i].end_offset - recs[i].offset,
            )
        }
}

/// Adding the record that stands right after laid-out records keeps them
/// laid out.
proof fn lemma_laid_out_push(s: Seq<u8>, prev: Seq<ViewedRecord>, recs: Seq<ViewedRecord>, start: int)
    requires
        records_laid_out(s, prev, start),
        recs.len() == prev.len() + 1,
        forall|i: int| 0 <= i < prev.len() ==> recs[i] == prev[i],
        recs.last().index == prev.len(),
        recs.last().offset == if prev.len() == 0 {
            start
        } else {
            prev.last().end_offset as int
        },
        record_at(
            s,
            recs.last().offset as int,
            recs.last().record_view(),
            recs.last().end_offset - recs.last().offset,
        ),
    ensures
        records_laid_out(s, recs, start),
{
    assert forall|i: int| 0 <= i < prev.len() implies #[trigger] recs[i] == prev[i] by {}
    assert forall|i: int| 0 <= i < recs.len() implies {
        &&& (#[trigger] recs[i]).index == i
        &&& record_at(
            s,
            recs[i].offset as int,
            recs[i].record_view(),
            recs[i].end_offset - recs[i].offset,
        )
    } by {
        if i < prev.len() {
            assert(prev[i] == prev[i]);
        }
    }
    assert forall|i: int, j: int| 0 <= i && j == i + 1 && j < recs.len() implies (
    #[trigger] recs[j]).offset == (#[trigger] recs[i]).end_offset by {
        if j < prev.len() {
            assert(prev[i] == prev[i]);
            assert(prev[j] == prev[j]);
        } else {
            assert(prev.last() == prev[i]);
        }
    }
}

/// The message shown while the log is shorter than its header.
pub open spec fn waiting_for_header_spec(len: nat) -> Seq<char> {
    "waiting for WAL header: "@ + decimal_digits(len) + " / "@ + decimal_digits(
        FILE_HEADER_BYTES as nat,
    ) + " bytes"@
}

/// Decodes the bytes of a log file for viewing: every complete record with
/// its offsets, and whether the log ends cleanly or with a cut-short record.
/// A log shorter than its header is waited for; a corrupt log is an error.
pub fn inspect_wal_bytes(bytes: &[u8]) -> (r: Result<WalSnapshot, Error>)
    ensures
        bytes@.len() < FILE_HEADER_BYTES ==> match r {
            Ok(snap) => snap.records@.len() == 0 && match snap.status {
                ViewerStatus::Waiting(msg) => msg@ == waiting_for_header_spec(bytes@.len()),
                _ => false,
            },
            Err(_) => false,
        },
        bytes@.len() >= FILE_HEADER_BYTES ==> match replay_result(bytes@) {
            Ok(end) => match r {
                Ok(snap) => {
                &&& record_views(snap.records@) == replay_records(bytes@)
                &&& forall|i: int|
                    0 <= i < snap.records@.len() ==> ((#[trigger] snap.records@[i]).value is Some
                        <==> snap.records@[i].kind == RecordKind::Put)
                &&& records_laid_out(bytes@, snap.records@, FILE_HEADER_BYTES as int)
                &&& end == if snap.records@.len() == 0 {
                    FILE_HEADER_BYTES as int
                } else {
                    snap.records@.last().end_offset as int
                }
                &&& snap.status == if end == bytes@.len() {
                    ViewerStatus::CleanEof { offset: end as u64 }
                } else {
                    ViewerStatus::PartialTail { offset: end as u64 }
                }
                },
                Err(_) => false,
            },
            Err(e) => r == Err::<WalSnapshot, Error>(e),
        },
{
    if bytes.len() < FILE_HEADER_BYTES {
        let msg = String::from_str("waiting for WAL header: ").concat(
            decimal_string(bytes.len() as u64).as_str(),
        ).concat(" / ").concat(decimal_string(FILE_HEADER_BYTES as u64).as_str()).concat(" bytes");
        return Ok(WalSnapshot { records: Vec::new(), status: ViewerStatus::Waiting(msg) });
    }
    if let Err(e) = read_header(bytes) {
        return Err(e);
    }
    let mut records: Vec<ViewedRecord> = Vec::new();
    let mut pos: usize = FILE_HEADER_BYTES;
    loop
        invariant
            read_header_spec(bytes@) is Ok,
            FILE_HEADER_BYTES <= pos <= bytes@.len(),
            replay_records(bytes@) == record_views(records@) + log_records(bytes@, pos as int),
            replay_result(bytes@) == log_end(bytes@, pos as int),
            records_laid_out(bytes@, records@, FILE_HEADER_BYTES as int),
            forall|i: int|
                0 <= i < records@.len() ==> ((#[trigger] records@[i]).value is Some
                    <==> records@[i].kind == RecordKind::Put),
            pos == if records@.len() == 0 {
                FILE_HEADER_BYTES as int
            } else {
                records@.last().end_offset as int
            },
        decreases bytes@.len() - pos,
    {
        let offset = pos;
        proof {
            reveal(crate::engine::lsm::read_at);
        }
        match read_record_at(bytes, pos) {
            Err(e) => {
                return Err(e);
            },
            Ok((ReadRecord::Record(record), next)) => {
                let ghost rs = log_records(bytes@, pos as int);
                let ghost prev = records@;
                let viewed = ViewedRecord::from_record(
                    records.len(),
                    offset as u64,
                    next as u64,
                    record,
                );
                records.push(viewed);
                proof {
                    assert(rs.drop_first() =~= log_records(bytes@, next as int));
                    assert(record_views(records@) =~= record_views(prev).push(rs[0]));
                    assert(record_views(prev) + rs =~= record_views(records@) + rs.drop_first());
                    assert(record_at(
                        bytes@,
                        offset as int,
                        records@.last().record_view(),
                        records@.last().end_offset - records@.last().offset,
                    )) by {
                        reveal(record_at);
                    }
                    lemma_laid_out_push(bytes@, prev, records@, FILE_HEADER_BYTES as int);
                }
                pos = next;
            },
            Ok((ReadRecord::CleanEof, _)) => {
                return Ok(
                    WalSnapshot { records, status: ViewerStatus::CleanEof { offset: offset as u64 } },
                );
            },
            Ok((ReadRecord::PartialTail, _)) => {
                return Ok(
                    WalSnapshot {
                        records,
                        status: ViewerStatus::PartialTail { offset: offset as u64 },
                    },
                );
            },
        }
    }
}

/// How often a tailing viewer re-reads the log, in milliseconds.
pub const POLL_INTERVAL_MS: u64 = 250;

/// A key pressed in the viewer.
#[derive(Debug, Clone, Copy, PartialEq, Eq)]
pub enum ViewerKey {
    Char(char),
    Esc,
    Up,
    Down,
    Home,
    End,
    Other,
}

/// What the viewer's loop does next.
#[derive(Debug, Clone, Copy, PartialEq, Eq)]
pub enum ViewerAction {
    /// Draw and wait for the next event.
    Continue,
    /// Re-read the log, then go on.
    Refresh,
    /// Leave the viewer.
    Quit,
}

/// What a key asks the viewer's loop to do: `q` and Esc quit, `r` and `t`
/// re-read the log, every other key lets it go on.
pub open spec fn key_action(key: ViewerKey) -> ViewerAction {
    if key == ViewerKey::Char('q') || key == ViewerKey::Esc {
        ViewerAction::Quit
    } else if key == ViewerKey::Char('r') || key == ViewerKey::Char('t') {
        ViewerAction::Refresh
    } else {
        ViewerAction::Continue
    }
}

/// Where a key moves the selection `sel` among `len` records: Down and `j`
/// to the next record, Up and `k` to the previous one, Home to the first,
/// End to the last; other keys leave it.
pub open spec fn key_selection(len: int, sel: int, key: ViewerKey) -> int {
    if key == ViewerKey::Down || key == ViewerKey::Char('j') {
        next_selection(len, sel)
    } else if key == ViewerKey::Up || key == ViewerKey::Char('k') {
        previous_selection(sel)
    } else if key == ViewerKey::Home {
        0
    } else if key == ViewerKey::End {
        last_selection(len)
    } else {
        sel
    }
}

/// The state of the viewer: the records with their selection, whether it
/// tails the log, and where reading the log stopped.
pub struct ViewerState {
    browser: RecordBrowser,
    tail: bool,
    status: ViewerStatus,
}

impl ViewerState {
    /// The records with their selection are well formed.
    pub closed spec fn wf(&self) -> bool {
        self.browser.wf()
    }

    /// The records with their selection.
    pub closed spec fn browser_view(&self) -> RecordBrowser {
        self.browser
    }

    /// Whether the viewer tails the log.
    pub closed spec fn tailing(&self) -> bool {
        self.tail
    }

    /// Where reading the log stopped.
    pub closed spec fn status_view(&self) -> ViewerStatus {
        self.status
    }

    /// A viewer with no records yet, waiting to open the log.
    pub fn new(tail: bool) -> (r: Self)
        ensures
            r.wf(),
            r.browser_view().records_view().len() == 0,
            r.browser_view().selection() == 0,
            r.tailing() == tail,
            r.status_view() matches ViewerStatus::Waiting(msg) && msg@ == "opening WAL"@,
    {
        ViewerState {
            browser: RecordBrowser::new(),
            tail,
            status: ViewerStatus::Waiting(String::from_str("opening WAL")),
        }
    }

    /// The records with their selection.
    pub fn browser(&self) -> (r: &RecordBrowser)
        ensures
            *r == self.browser_view(),
    {
        &self.browser
    }

    /// Whether the viewer tails the log.
    pub fn tail(&self) -> (r: bool)
        ensures
            r == self.tailing(),
    {
        self.tail
    }

    /// Where reading the log stopped.
    pub fn status(&self) -> (r: &ViewerStatus)
        ensures
            *r == self.status_view(),
    {
        &self.status
    }

    /// Takes in what re-reading the log gave: a snapshot replaces the
    /// records and the status, keeping the selection where it still names a
    /// record; a failure, with its message, marks the log corrupt and keeps
    /// the records.
    pub fn apply_refresh(&mut self, result: Result<WalSnapshot, String>)
        requires
            old(self).wf(),
        ensures
            final(self).wf(),
            final(self).tailing() == old(self).tailing(),
            match result {
                Ok(snap) => {
                    &&& final(self).browser_view().records_view() == snap.records@
                    &&& final(self).browser_view().selection() == if snap.records@.len() == 0 {
                        0
                    } else if old(self).browser_view().selection() >= snap.records@.len() {
                        snap.records@.len() - 1
                    } else {
                        old(self).browser_view().selection()
                    }
                    &&& final(self).status_view() == snap.status
                },
                Err(msg) => {
                    &&& final(self).browser_view() == old(self).browser_view()
                    &&& final(self).status_view() == ViewerStatus::Corrupt(msg)
                },
            },
    {
        match result {
            Ok(snap) => {
                self.browser.replace(snap.records);
                self.status = snap.status;
            },
            Err(msg) => {
                self.status = ViewerStatus::Corrupt(msg);
            },
        }
    }

    /// What a tick of the clock asks for, `since_refresh_ms` milliseconds
    /// after the last reading of the log: a tailing viewer re-reads the log
    /// once the poll interval has passed.
    pub fn on_tick(&self, since_refresh_ms: u64) -> (a: ViewerAction)
        ensures
            a == if self.tailing() && since_refresh_ms >= POLL_INTERVAL_MS {
                ViewerAction::Refresh
            } else {
                ViewerAction::Continue
            },
    {
        if self.tail && since_refresh_ms >= POLL_INTERVAL_MS {
            ViewerAction::Refresh
        } else {
            ViewerAction::Continue
        }
    }

    /// Handles a key: `q` and Esc quit, `r` re-reads the log, `t` turns
    /// tailing on or off and re-reads the log, Down and `j` select the next
    /// record, Up and `k` the previous one, Home the first and End the last;
    /// every other key changes nothing.
    pub fn on_key(&mut self, key: ViewerKey) -> (a: ViewerAction)
        requires
            old(self).wf(),
        ensures
            final(self).wf(),
            a == key_action(key),
            final(self).browser_view().records_view() == old(self).browser_view().records_view(),
            final(self).browser_view().selection() == key_selection(
                old(self).browser_view().records_view().len() as int,
                old(self).browser_view().selection(),
                key,
            ),
            final(self).tailing() == if key == ViewerKey::Char('t') {
                !old(self).tailing()
            } else {
                old(self).tailing()
            },
            final(self).status_view() == old(self).status_view(),
    {
        match key {
            ViewerKey::Char('q') | ViewerKey::Esc => ViewerAction::Quit,
            ViewerKey::Char('r') => ViewerAction::Refresh,
            ViewerKey::Char('t') => {
                self.tail = !self.tail;
                ViewerAction::Refresh
            },
            ViewerKey::Down | ViewerKey::Char('j') => {
                self.browser.next();
                ViewerAction::Continue
            },
            ViewerKey::Up | ViewerKey::Char('k') => {
                self.browser.previous();
                ViewerAction::Continue
            },
            ViewerKey::Home => {
                self.browser.select_first();
                ViewerAction::Continue
            },
            ViewerKey::End => {
                self.browser.select_last();
                ViewerAction::Continue
            },
            _ => ViewerAction::Continue,
        }
    }
}

} // verus!
