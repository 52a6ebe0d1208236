//! Reading a table from comma-separated text.
//!
//! The text is cut into records and fields by the `csv` reader, with commas
//! between fields, no record set apart as a header, and every record of the
//! same length. Before that the text is scanned once for a quoted field that
//! never ends, which the reader would let pass.

use crate::table::{is_rectangular, CsvTable};
use vstd::prelude::*;

verus! {

/// The byte between two fields.
pub const COMMA: u8 = 0x2C;

/// The byte that opens and closes a quoted field.
pub const QUOTE: u8 = 0x22;

/// The line feed, which ends a record.
pub const LINE_FEED: u8 = 0x0A;

/// The carriage return, which ends a record too.
pub const CARRIAGE_RETURN: u8 = 0x0D;

/// Where a scan of the text stands with regard to quotes.
#[derive(Clone, Copy, Debug, PartialEq, Eq, Structural)]
pub enum QuoteState {
    /// At the start of a field: a quote here opens a quoted field.
    FieldStart,
    /// In a field without quotes: a quote here is a byte like any other.
    Unquoted,
    /// In a quoted field, which only a quote ends.
    Quoted,
    /// After a quote in a quoted field: a second quote stands for a quote in
    /// the field, anything else shows that the first one closed the field.
    QuoteSeen,
}

/// `byte` ends a field or a record.
pub open spec fn is_separator(byte: u8) -> bool {
    byte == COMMA || byte == LINE_FEED || byte == CARRIAGE_RETURN
}

/// Where the scan stands after `byte`, read in `state`.
pub open spec fn state_after_byte(state: QuoteState, byte: u8) -> QuoteState {
    match state {
        QuoteState::Quoted => if byte == QUOTE {
            QuoteState::QuoteSeen
        } else {
            QuoteState::Quoted
        },
        QuoteState::Unquoted => if is_separator(byte) {
            QuoteState::FieldStart
        } else {
            QuoteState::Unquoted
        },
        QuoteState::FieldStart => if byte == QUOTE {
            QuoteState::Quoted
        } else if is_separator(byte) {
            QuoteState::FieldStart
        } else {
            QuoteState::Unquoted
        },
        QuoteState::QuoteSeen => if byte == QUOTE {
            QuoteState::Quoted
        } else if is_separator(byte) {
            QuoteState::FieldStart
        } else {
            QuoteState::Unquoted
        },
    }
}

/// The text begins with a byte-order mark, the three bytes that some programs
/// put in front of UTF-8 text.
pub open spec fn has_byte_order_mark(raw: Seq<u8>) -> bool {
    raw.len() >= 3 && raw[0] == 0xEF && raw[1] == 0xBB && raw[2] == 0xBF
}

/// Where the first field begins: behind the byte-order mark, where there is
/// one. The reader takes the mark for no part of the first field either.
pub open spec fn first_field_start(raw: Seq<u8>) -> int {
    if has_byte_order_mark(raw) {
        3
    } else {
        0
    }
}

/// Where the scan stands after the first `n` bytes of `raw`.
pub open spec fn state_after(raw: Seq<u8>, n: int) -> QuoteState
    decreases n,
{
    if n <= first_field_start(raw) {
        QuoteState::FieldStart
    } else {
        state_after_byte(state_after(raw, n - 1), raw[n - 1])
    }
}

/// The text ends inside a quoted field: a quote opened it and none closed it.
pub open spec fn ends_in_open_quote(raw: Seq<u8>) -> bool {
    state_after(raw, raw.len() as int) == QuoteState::Quoted
}

/// Where the scan stands after `byte`, read in `state`.
pub fn next_state(state: QuoteState, byte: u8) -> (next: QuoteState)
    ensures
        next == state_after_byte(state, byte),
{
    let separator = byte == COMMA || byte == LINE_FEED || byte == CARRIAGE_RETURN;
    match state {
        QuoteState::Quoted => if byte == QUOTE {
            QuoteState::QuoteSeen
        } else {
            QuoteState::Quoted
        },
        QuoteState::Unquoted => if separator {
            QuoteState::FieldStart
        } else {
            QuoteState::Unquoted
        },
        _ => if byte == QUOTE {
            QuoteState::Quoted
        } else if separator {
            QuoteState::FieldStart
        } else {
            QuoteState::Unquoted
        },
    }
}

/// Whether `raw` ends inside a quoted field.
pub fn has_open_quote(raw: &[u8]) -> (open: bool)
    ensures
        open == ends_in_open_quote(raw@),
{
    let mut state = QuoteState::FieldStart;
    let mut n: usize = 0;
    if raw.len() >= 3 && raw[0] == 0xEF && raw[1] == 0xBB && raw[2] == 0xBF {
        n = 3;
    }
    while n < raw.len()
        invariant
            first_field_start(raw@) <= n <= raw.len(),
            state == state_after(raw@, n as int),
        decreases raw.len() - n,
    {
        state = next_state(state, raw[n]);
        n += 1;
    }
    state == QuoteState::Quoted
}

/// Why a text was not read as a table.
#[derive(Clone, Debug, PartialEq, Eq)]
pub enum ParseError {
    /// A quoted field is still open where the text ends.
    UnterminatedQuote,
    /// The reader refused the text: a record is longer or shorter than the
    /// first one, or a field is no UTF-8. The message is the reader's own.
    Malformed { message: String },
}

/// `csv::Error`, what the reader reports. Nothing inside it is seen here.
#[verifier::external_type_specification]
#[verifier::external_body]
pub struct ExReadError(csv::Error);

/// The records that the `csv` reader cuts `raw` into, each as the list of its
/// fields; `None` where the reader reports an error. The reader is the one
/// that `csv::ReaderBuilder` builds with `has_headers(false)` and nothing else
/// set.
pub uninterp spec fn csv_records(raw: Seq<u8>) -> Option<Seq<Seq<Seq<char>>>>;

/// `csv::Reader::records`, collected, on a reader over `raw` that sets no
/// record apart as a header. The reader is not flexible, so it reports a
/// record that is longer or shorter than the first one as an error: the
/// records that come back all have the same length. What it reads is fixed by
/// the bytes.
#[verifier::external_body]
fn read_records(raw: &[u8]) -> (read: Result<Vec<Vec<String>>, csv::Error>)
    ensures
        match read {
            Ok(records) => csv_records(raw@) == Some(records.deep_view()) && is_rectangular(
                records.deep_view(),
            ),
            Err(_) => csv_records(raw@) is None,
        },
{
    let mut reader = csv::ReaderBuilder::new().has_headers(false).from_reader(raw);
    reader.records().map(
        |record| record.map(|fields| fields.iter().map(String::from).collect()),
    ).collect()
}

/// `ToString::to_string` of a `csv::Error`: the reader's words for what it
/// found wrong.
#[verifier::external_body]
fn error_message(error: &csv::Error) -> (message: String) {
    error.to_string()
}

/// Reads `raw` as a table: the records in the order of the text, the first of
/// them the header. All records of the table have the same number of fields.
///
/// A text that ends inside a quoted field is refused. So is a text that the
/// reader refuses. A text without records gives a table without records.
pub fn parse_csv(raw: &[u8]) -> (result: Result<CsvTable, ParseError>)
    ensures
        match result {
            Ok(table) => {
                &&& !ends_in_open_quote(raw@)
                &&& csv_records(raw@) == Some(table@)
                &&& is_rectangular(table@)
            },
            Err(ParseError::UnterminatedQuote) => ends_in_open_quote(raw@),
            Err(ParseError::Malformed { .. }) => {
                &&& !ends_in_open_quote(raw@)
                &&& csv_records(raw@) is None
            },
        },
{
    if has_open_quote(raw) {
        return Err(ParseError::UnterminatedQuote);
    }
    match read_records(raw) {
        Ok(records) => Ok(CsvTable::new(records)),
        Err(error) => Err(ParseError::Malformed { message: error_message(&error) }),
    }
}

} // verus!
