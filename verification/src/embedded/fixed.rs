//! Storage of fixed capacity, from the `heapless` crate.
//!
//! What `heapless` does is believed, as its source shows it; the comment on
//! each function says what. Text is taken as its bytes.

use super::ui::DecodedRow;
use vstd::prelude::*;

verus! {

/// A string of at most `N` bytes.
#[verifier::external_type_specification]
#[verifier::external_body]
pub struct ExFixedString<const N: usize>(heapless::String<N>);

/// A queue of at most `N` items that is open at both ends.
#[verifier::external_type_specification]
#[verifier::external_body]
#[verifier::reject_recursive_types(T)]
pub struct ExFixedDeque<T, const N: usize>(heapless::Deque<T, N>);

/// A list of at most `N` items.
#[verifier::external_type_specification]
#[verifier::external_body]
#[verifier::reject_recursive_types(T)]
pub struct ExFixedVec<T, const N: usize>(heapless::Vec<T, N>);

/// Bytes of a text.
pub open spec fn bytes_of(text: &str) -> Seq<u8> {
    vstd::utf8::encode_utf8(text@)
}

/// Bytes of a log line.
pub uninterp spec fn line_bytes(line: heapless::String<80>) -> Seq<u8>;

/// `heapless::String::new`: the string is empty.
#[verifier::external_body]
pub(crate) fn line_new() -> (line: heapless::String<80>)
    ensures
        line_bytes(line) == Seq::<u8>::empty(),
{
    heapless::String::new()
}

/// `heapless::String::push_str`: the text is appended if all of it fits into
/// 80 bytes; otherwise the string stays as it is.
#[verifier::external_body]
pub(crate) fn line_push_str(line: &mut heapless::String<80>, text: &str) -> (r: Result<(), ()>)
    ensures
        r is Ok <==> line_bytes(*old(line)).len() + bytes_of(text).len() <= 80,
        line_bytes(*final(line)) == (if r is Ok {
            line_bytes(*old(line)) + bytes_of(text)
        } else {
            line_bytes(*old(line))
        }),
{
    line.push_str(text)
}

/// `heapless::String::as_str`: the whole string.
#[verifier::external_body]
pub(crate) fn line_as_str(line: &heapless::String<80>) -> (text: &str)
    ensures
        bytes_of(text) == line_bytes(*line),
{
    line.as_str()
}

/// Bytes of a message.
pub uninterp spec fn message_bytes(msg: heapless::String<22>) -> Seq<u8>;

/// `heapless::String::new`: the string is empty.
#[verifier::external_body]
pub(crate) fn message_new() -> (msg: heapless::String<22>)
    ensures
        message_bytes(msg) == Seq::<u8>::empty(),
{
    heapless::String::new()
}

/// `heapless::String::push_str`: the text is appended if all of it fits into
/// 22 bytes; otherwise the string stays as it is.
#[verifier::external_body]
pub(crate) fn message_push_str(msg: &mut heapless::String<22>, text: &str) -> (r: Result<(), ()>)
    ensures
        r is Ok <==> message_bytes(*old(msg)).len() + bytes_of(text).len() <= 22,
        message_bytes(*final(msg)) == (if r is Ok {
            message_bytes(*old(msg)) + bytes_of(text)
        } else {
            message_bytes(*old(msg))
        }),
{
    msg.push_str(text)
}

/// `heapless::String::as_str`: the whole string.
#[verifier::external_body]
pub(crate) fn message_as_str(msg: &heapless::String<22>) -> (text: &str)
    ensures
        bytes_of(text) == message_bytes(*msg),
{
    msg.as_str()
}

/// Bytes of a row of the display.
pub uninterp spec fn row_bytes(row: heapless::String<32>) -> Seq<u8>;

/// `heapless::String::new`: the string is empty.
#[verifier::external_body]
pub(crate) fn row_new() -> (row: heapless::String<32>)
    ensures
        row_bytes(row) == Seq::<u8>::empty(),
{
    heapless::String::new()
}

/// `heapless::String::push`: the character is appended if its bytes fit into
/// 32; otherwise the string stays as it is.
#[verifier::external_body]
pub(crate) fn row_push(row: &mut heapless::String<32>, c: char) -> (r: Result<(), ()>)
    ensures
        r is Ok <==> row_bytes(*old(row)).len() + vstd::utf8::encode_scalar(c as u32).len() <= 32,
        row_bytes(*final(row)) == (if r is Ok {
            row_bytes(*old(row)) + vstd::utf8::encode_scalar(c as u32)
        } else {
            row_bytes(*old(row))
        }),
{
    row.push(c)
}

/// `heapless::String::push_str`: the text is appended if all of it fits into
/// 32 bytes; otherwise the string stays as it is.
#[verifier::external_body]
pub(crate) fn row_push_str(row: &mut heapless::String<32>, text: &str) -> (r: Result<(), ()>)
    ensures
        r is Ok <==> row_bytes(*old(row)).len() + bytes_of(text).len() <= 32,
        row_bytes(*final(row)) == (if r is Ok {
            row_bytes(*old(row)) + bytes_of(text)
        } else {
            row_bytes(*old(row))
        }),
{
    row.push_str(text)
}

/// Lines of the scroll panel, as bytes, oldest first.
pub uninterp spec fn panel_lines(lines: heapless::Deque<heapless::String<80>, 12>) -> Seq<Seq<u8>>;

/// `heapless::Deque::new`: the queue is empty.
#[verifier::external_body]
pub(crate) fn panel_new() -> (lines: heapless::Deque<heapless::String<80>, 12>)
    ensures
        panel_lines(lines) == Seq::<Seq<u8>>::empty(),
{
    heapless::Deque::new()
}

/// `heapless::Deque::len`: the number of items, which the capacity bounds.
#[verifier::external_body]
pub(crate) fn panel_len(lines: &heapless::Deque<heapless::String<80>, 12>) -> (n: usize)
    ensures
        n == panel_lines(*lines).len(),
        n <= 12,
{
    lines.len()
}

/// `heapless::Deque::is_empty`: whether there are no items.
#[verifier::external_body]
pub(crate) fn panel_is_empty(lines: &heapless::Deque<heapless::String<80>, 12>) -> (yes: bool)
    ensures
        yes == (panel_lines(*lines).len() == 0),
{
    lines.is_empty()
}

/// `heapless::Deque::is_full`: whether there are as many items as fit.
#[verifier::external_body]
pub(crate) fn panel_is_full(lines: &heapless::Deque<heapless::String<80>, 12>) -> (full: bool)
    ensures
        full ==> panel_lines(*lines).len() == 12,
        !full ==> panel_lines(*lines).len() < 12,
{
    lines.is_full()
}

/// `heapless::Deque::pop_front`: the first item is taken out, if there is one.
#[verifier::external_body]
pub(crate) fn panel_pop_front(lines: &mut heapless::Deque<heapless::String<80>, 12>) -> (first:
    Option<heapless::String<80>>)
    ensures
        first is Some <==> panel_lines(*old(lines)).len() > 0,
        first matches Some(line) ==> line_bytes(line) == panel_lines(*old(lines))[0],
        panel_lines(*final(lines)) == (if first is Some {
            panel_lines(*old(lines)).skip(1)
        } else {
            panel_lines(*old(lines))
        }),
{
    lines.pop_front()
}

/// `heapless::Deque::push_back`: the item is appended if there is room for it;
/// otherwise it is handed back.
#[verifier::external_body]
pub(crate) fn panel_push_back(
    lines: &mut heapless::Deque<heapless::String<80>, 12>,
    line: heapless::String<80>,
) -> (r: Result<(), heapless::String<80>>)
    ensures
        r == (if panel_lines(*old(lines)).len() < 12 {
            Ok::<(), heapless::String<80>>(())
        } else {
            Err(line)
        }),
        panel_lines(*final(lines)) == (if r is Ok {
            panel_lines(*old(lines)).push(line_bytes(line))
        } else {
            panel_lines(*old(lines))
        }),
{
    lines.push_back(line)
}

/// `heapless::Deque::as_slices`: the items in order, in two pieces.
#[verifier::external_body]
pub(crate) fn panel_slices(lines: &heapless::Deque<heapless::String<80>, 12>) -> (pieces: (
    &[heapless::String<80>],
    &[heapless::String<80>],
))
    ensures
        pieces.0@.map_values(|l: heapless::String<80>| line_bytes(l)) + pieces.1@.map_values(
            |l: heapless::String<80>| line_bytes(l),
        ) == panel_lines(*lines),
{
    lines.as_slices()
}

/// Staged lines, as bytes, oldest first.
pub uninterp spec fn staged_lines(lines: heapless::Deque<heapless::String<80>, 32>) -> Seq<Seq<u8>>;

/// `heapless::Deque::new`: the queue is empty.
#[verifier::external_body]
pub(crate) fn staging_new() -> (lines: heapless::Deque<heapless::String<80>, 32>)
    ensures
        staged_lines(lines) == Seq::<Seq<u8>>::empty(),
{
    heapless::Deque::new()
}

/// `heapless::Deque::is_full`: whether there are as many items as fit.
#[verifier::external_body]
pub(crate) fn staging_is_full(lines: &heapless::Deque<heapless::String<80>, 32>) -> (full: bool)
    ensures
        full ==> staged_lines(*lines).len() == 32,
        !full ==> staged_lines(*lines).len() < 32,
{
    lines.is_full()
}

/// `heapless::Deque::pop_front`: the first item is taken out, if there is one.
#[verifier::external_body]
pub(crate) fn staging_pop_front(lines: &mut heapless::Deque<heapless::String<80>, 32>) -> (first:
    Option<heapless::String<80>>)
    ensures
        first is Some <==> staged_lines(*old(lines)).len() > 0,
        first matches Some(line) ==> line_bytes(line) == staged_lines(*old(lines))[0],
        staged_lines(*final(lines)) == (if first is Some {
            staged_lines(*old(lines)).skip(1)
        } else {
            staged_lines(*old(lines))
        }),
{
    lines.pop_front()
}

/// `heapless::Deque::push_back`: the item is appended if there is room for it;
/// otherwise it is handed back.
#[verifier::external_body]
pub(crate) fn staging_push_back(
    lines: &mut heapless::Deque<heapless::String<80>, 32>,
    line: heapless::String<80>,
) -> (r: Result<(), heapless::String<80>>)
    ensures
        r == (if staged_lines(*old(lines)).len() < 32 {
            Ok::<(), heapless::String<80>>(())
        } else {
            Err(line)
        }),
        staged_lines(*final(lines)) == (if r is Ok {
            staged_lines(*old(lines)).push(line_bytes(line))
        } else {
            staged_lines(*old(lines))
        }),
{
    lines.push_back(line)
}

/// Decoded rows, oldest first.
pub uninterp spec fn decoded_rows(rows: heapless::Deque<DecodedRow, 16>) -> Seq<DecodedRow>;

/// `heapless::Deque::new`: the queue is empty.
#[verifier::external_body]
pub(crate) fn rows_new() -> (rows: heapless::Deque<DecodedRow, 16>)
    ensures
        decoded_rows(rows) == Seq::<DecodedRow>::empty(),
{
    heapless::Deque::new()
}

/// `heapless::Deque::len`: the number of items, which the capacity bounds.
#[verifier::external_body]
pub(crate) fn rows_len(rows: &heapless::Deque<DecodedRow, 16>) -> (n: usize)
    ensures
        n == decoded_rows(*rows).len(),
        n <= 16,
{
    rows.len()
}

/// `heapless::Deque::is_full`: whether there are as many items as fit.
#[verifier::external_body]
pub(crate) fn rows_is_full(rows: &heapless::Deque<DecodedRow, 16>) -> (full: bool)
    ensures
        full ==> decoded_rows(*rows).len() == 16,
        !full ==> decoded_rows(*rows).len() < 16,
{
    rows.is_full()
}

/// `heapless::Deque::pop_front`: the first item is taken out, if there is one.
#[verifier::external_body]
pub(crate) fn rows_pop_front(rows: &mut heapless::Deque<DecodedRow, 16>) -> (first: Option<
    DecodedRow,
>)
    ensures
        first == (if decoded_rows(*old(rows)).len() > 0 {
            Some(decoded_rows(*old(rows))[0])
        } else {
            None
        }),
        decoded_rows(*final(rows)) == (if first is Some {
            decoded_rows(*old(rows)).skip(1)
        } else {
            decoded_rows(*old(rows))
        }),
{
    rows.pop_front()
}

/// `heapless::Deque::push_back`: the item is appended if there is room for it;
/// otherwise it is handed back.
#[verifier::external_body]
pub(crate) fn rows_push_back(rows: &mut heapless::Deque<DecodedRow, 16>, row: DecodedRow) -> (r:
    Result<(), DecodedRow>)
    ensures
        r == (if decoded_rows(*old(rows)).len() < 16 {
            Ok::<(), DecodedRow>(())
        } else {
            Err(row)
        }),
        decoded_rows(*final(rows)) == (if r is Ok {
            decoded_rows(*old(rows)).push(row)
        } else {
            decoded_rows(*old(rows))
        }),
{
    rows.push_back(row)
}

/// `heapless::Deque::as_slices`: the items in order, in two pieces.
#[verifier::external_body]
pub(crate) fn rows_slices(rows: &heapless::Deque<DecodedRow, 16>) -> (pieces: (
    &[DecodedRow],
    &[DecodedRow],
))
    ensures
        pieces.0@ + pieces.1@ == decoded_rows(*rows),
{
    rows.as_slices()
}

/// Addresses found on a bus.
pub uninterp spec fn found_addresses(found: heapless::Vec<u8, 16>) -> Seq<u8>;

/// `heapless::Vec::new`: the list is empty.
#[verifier::external_body]
pub(crate) fn found_new() -> (found: heapless::Vec<u8, 16>)
    ensures
        found_addresses(found) == Seq::<u8>::empty(),
{
    heapless::Vec::new()
}

/// `heapless::Vec::push`: the item is appended if there is room for it;
/// otherwise it is handed back.
#[verifier::external_body]
pub(crate) fn found_push(found: &mut heapless::Vec<u8, 16>, addr: u8) -> (r: Result<(), u8>)
    ensures
        r == (if found_addresses(*old(found)).len() < 16 {
            Ok::<(), u8>(())
        } else {
            Err(addr)
        }),
        found_addresses(*final(found)) == (if r is Ok {
            found_addresses(*old(found)).push(addr)
        } else {
            found_addresses(*old(found))
        }),
{
    found.push(addr)
}

/// `heapless::Vec::as_slice`: the whole list.
#[verifier::external_body]
pub(crate) fn found_as_slice(found: &heapless::Vec<u8, 16>) -> (all: &[u8])
    ensures
        all@ == found_addresses(*found),
{
    found.as_slice()
}

} // verus!
