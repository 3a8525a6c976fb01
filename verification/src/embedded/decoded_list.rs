//! Rows of the list of decoded messages.

use super::fixed;
use super::ui;
use super::ui::DecodedRow;
use vstd::prelude::*;

verus! {

/// Decimal digits of a number.
pub open spec fn digits(n: nat) -> Seq<u8>
    decreases n,
{
    if n < 10 {
        seq![(48 + n) as u8]
    } else {
        digits(n / 10).push((48 + n % 10) as u8)
    }
}

/// A text, set to the right in a field of `width`.
pub open spec fn padded(text: Seq<u8>, width: nat) -> Seq<u8> {
    if text.len() < width {
        Seq::new((width - text.len()) as nat, |i: int| 32u8) + text
    } else {
        text
    }
}

/// A number with its sign.
pub open spec fn signed(v: int) -> Seq<u8> {
    if v < 0 {
        seq![45u8] + digits((-v) as nat)
    } else {
        seq![43u8] + digits(v as nat)
    }
}

/// Signal strength as shown: thirty decibels either way at most.
pub open spec fn shown_snr(snr_db: i8) -> int {
    if snr_db < -30 {
        -30
    } else if snr_db > 30 {
        30
    } else {
        snr_db as int
    }
}

/// What stands in front of the message: strength and frequency.
pub open spec fn row_prefix(snr_db: i8, df_hz: u16) -> Seq<u8> {
    padded(signed(shown_snr(snr_db)), 3).push(32) + padded(digits(df_hz as nat), 4).push(32)
}

/// Bytes of the message that are shown.
pub open spec fn shown_len(message_len: int, prefix_len: int) -> int {
    let room = if 22 - prefix_len - 1 > 0 {
        22 - prefix_len - 1
    } else {
        0
    };
    if message_len < room {
        message_len
    } else {
        room
    }
}

/// A row of the list: prefix, message, and a mark where it is doubtful.
pub open spec fn row_line(row: DecodedRow) -> Seq<u8> {
    let prefix = row_prefix(row.snr_db, row.df_hz);
    let msg = fixed::message_bytes(row.msg);
    let shown = msg.take(shown_len(msg.len() as int, prefix.len() as int));
    if row.hard_errors >= ui::DOUBTFUL_ERRORS {
        (prefix + shown).push(33)
    } else {
        prefix + shown
    }
}

/// How many digits a number has.
proof fn lemma_digit_count(n: nat)
    requires
        n < 100000,
    ensures
        1 <= digits(n).len() <= 5,
        n < 10 ==> digits(n).len() == 1,
        n < 100 ==> digits(n).len() <= 2,
{
    reveal_with_fuel(digits, 6);
}

/// The prefix leaves room for the message.
proof fn lemma_prefix_len(snr_db: i8, df_hz: u16)
    ensures
        9 <= row_prefix(snr_db, df_hz).len() <= 10,
        padded(signed(shown_snr(snr_db)), 3).len() == 3,
        4 <= padded(digits(df_hz as nat), 4).len() <= 5,
{
    let v = shown_snr(snr_db);
    lemma_digit_count(
        if v < 0 {
            (-v) as nat
        } else {
            v as nat
        },
    );
    lemma_digit_count(df_hz as nat);
}

/// Every row fits the display.
pub proof fn law_rows_fit_the_display(row: DecodedRow)
    ensures
        row_line(row).len() <= ui::ROW_CHARS,
{
    lemma_prefix_len(row.snr_db, row.df_hz);
}

/// Append a character of the basic set.
fn push_ascii(row: &mut heapless::String<32>, b: u8)
    requires
        b < 128,
        fixed::row_bytes(*old(row)).len() < 32,
    ensures
        fixed::row_bytes(*final(row)) == fixed::row_bytes(*old(row)).push(b),
{
    let c: char = b as char;
    proof {
        let u: u32 = c as u32;
        assert(u == b as u32);
        assert((u & 0x7f) as u8 == b) by (bit_vector)
            requires
                u == b as u32,
                b < 128,
        ;
        assert(vstd::utf8::encode_scalar(c as u32) =~= seq![b]);
        assert(fixed::row_bytes(*row) + seq![b] =~= fixed::row_bytes(*row).push(b));
    }
    let _ = fixed::row_push(row, c);
}

/// Append spaces.
fn push_spaces(row: &mut heapless::String<32>, n: usize)
    requires
        fixed::row_bytes(*old(row)).len() + n <= 32,
    ensures
        fixed::row_bytes(*final(row)) == fixed::row_bytes(*old(row)) + Seq::new(
            n as nat,
            |i: int| 32u8,
        ),
{
    let ghost start = fixed::row_bytes(*row);
    assert(start =~= start + Seq::new(0nat, |i: int| 32u8));
    for k in 0..n
        invariant
            start.len() + n <= 32,
            fixed::row_bytes(*row) == start + Seq::new(k as nat, |i: int| 32u8),
    {
        push_ascii(row, 32);
        assert(fixed::row_bytes(*row) =~= start + Seq::new((k + 1) as nat, |i: int| 32u8));
    }
}

/// Append a number.
fn push_digits(row: &mut heapless::String<32>, n: u32)
    requires
        fixed::row_bytes(*old(row)).len() + digits(n as nat).len() <= 32,
    ensures
        fixed::row_bytes(*final(row)) == fixed::row_bytes(*old(row)) + digits(n as nat),
    decreases n,
{
    let ghost start = fixed::row_bytes(*row);
    if n >= 10 {
        push_digits(row, n / 10);
        assert(start + digits((n / 10) as nat).push((48 + n % 10) as u8) =~= (start + digits(
            (n / 10) as nat,
        )).push((48 + n % 10) as u8));
    } else {
        assert(start + seq![(48 + n) as u8] =~= start.push((48 + n) as u8));
    }
    push_ascii(row, (48 + n % 10) as u8);
}

/// Number of digits.
fn digit_count(n: u32) -> (count: usize)
    ensures
        count == digits(n as nat).len(),
        count <= n + 1,
    decreases n,
{
    if n < 10 {
        1
    } else {
        digit_count(n / 10) + 1
    }
}

/// The text of a row.
pub fn row_text(row: &DecodedRow) -> (text: heapless::String<32>)
    requires
        vstd::utf8::is_char_boundary(
            fixed::message_bytes(row.msg),
            shown_len(
                fixed::message_bytes(row.msg).len() as int,
                row_prefix(row.snr_db, row.df_hz).len() as int,
            ),
        ),
    ensures
        fixed::row_bytes(text) == row_line(*row),
{
    proof {
        lemma_prefix_len(row.snr_db, row.df_hz);
        lemma_digit_count(row.df_hz as nat);
    }
    let mut text: heapless::String<32> = fixed::row_new();
    // strength
    let snr: i32 = if row.snr_db < -30 {
        -30
    } else if row.snr_db > 30 {
        30
    } else {
        row.snr_db as i32
    };
    let size: u32 = if snr < 0 {
        (-snr) as u32
    } else {
        snr as u32
    };
    proof {
        lemma_digit_count(size as nat);
    }
    let n_digits: usize = digit_count(size);
    push_spaces(
        &mut text,
        if n_digits < 2 {
            2 - n_digits
        } else {
            0
        },
    );
    push_ascii(
        &mut text,
        if snr < 0 {
            45
        } else {
            43
        },
    );
    push_digits(&mut text, size);
    assert(fixed::row_bytes(text) =~= padded(signed(shown_snr(row.snr_db)), 3));
    push_ascii(&mut text, 32);
    // frequency
    let df_digits: usize = digit_count(row.df_hz as u32);
    push_spaces(
        &mut text,
        if df_digits < 4 {
            4 - df_digits
        } else {
            0
        },
    );
    push_digits(&mut text, row.df_hz as u32);
    push_ascii(&mut text, 32);
    let ghost prefix = row_prefix(row.snr_db, row.df_hz);
    assert(fixed::row_bytes(text) =~= prefix);
    // message
    let prefix_len: usize = 5 + (if df_digits < 4 {
        4
    } else {
        df_digits
    });
    let msg: &str = fixed::message_as_str(&row.msg);
    let room: usize = ui::ROW_CHARS.saturating_sub(prefix_len).saturating_sub(1);
    let msg_len: usize = msg.as_bytes().len();
    let take: usize = if msg_len < room {
        msg_len
    } else {
        room
    };
    let (shown, _): (&str, &str) = msg.split_at(take);
    assert(fixed::bytes_of(shown) =~= fixed::message_bytes(row.msg).take(take as int));
    let _ = fixed::row_push_str(&mut text, shown);
    if row.hard_errors >= ui::DOUBTFUL_ERRORS {
        push_ascii(&mut text, 33);
    }
    text
}

/// The text of a row, unless the end of the row would cut a character in two.
pub fn try_row_text(row: &DecodedRow) -> (text: Option<heapless::String<32>>)
    ensures
        text is Some <==> vstd::utf8::is_char_boundary(
            fixed::message_bytes(row.msg),
            shown_len(
                fixed::message_bytes(row.msg).len() as int,
                row_prefix(row.snr_db, row.df_hz).len() as int,
            ),
        ),
        text matches Some(t) ==> fixed::row_bytes(t) == row_line(*row),
{
    proof {
        lemma_prefix_len(row.snr_db, row.df_hz);
        lemma_digit_count(row.df_hz as nat);
    }
    let df_digits: usize = digit_count(row.df_hz as u32);
    let room: usize = if df_digits < 5 {
        12
    } else {
        11
    };
    let msg: &str = fixed::message_as_str(&row.msg);
    let msg_len: usize = msg.as_bytes().len();
    let take: usize = if msg_len < room {
        msg_len
    } else {
        room
    };
    if msg.is_char_boundary(take) {
        Some(row_text(row))
    } else {
        None
    }
}

/// Whether a row is shown as doubtful.
pub fn is_doubtful(row: &DecodedRow) -> (doubtful: bool)
    ensures
        doubtful == (row.hard_errors >= ui::DOUBTFUL_ERRORS),
{
    row.hard_errors >= ui::DOUBTFUL_ERRORS
}

/// First of `n` rows that is visible: the newest rows are.
pub fn first_visible(n: usize) -> (start: usize)
    ensures
        start == (if n < 7 {
            0
        } else {
            n - 7
        }),
{
    n - (if n < ui::ROWS {
        n
    } else {
        ui::ROWS
    })
}

/// Line of the display at which visible row `i` stands.
pub fn row_y(i: usize) -> (y: i32)
    requires
        i < 7,
    ensures
        y == 114 + 16 * i + 3,
        y + 10 <= 226,
{
    ui::ORIGIN_Y + 16 * (i as i32) + 3
}

/// Make a row of a decoded message; what is too long of its text is cut off.
pub fn decoded_row(text: &str, df_hz: u16, snr_db: i8, hard_errors: u32, slot_seq: u32) -> (row:
    DecodedRow)
    requires
        fixed::bytes_of(text).len() > 22 ==> vstd::utf8::is_char_boundary(
            fixed::bytes_of(text),
            22,
        ),
    ensures
        row.df_hz == df_hz,
        row.snr_db == snr_db,
        row.hard_errors == (if hard_errors < 255 {
            hard_errors
        } else {
            255
        }),
        row.slot_seq == slot_seq,
        fixed::message_bytes(row.msg) == (if fixed::bytes_of(text).len() > 22 {
            fixed::bytes_of(text).take(22)
        } else {
            fixed::bytes_of(text)
        }),
{
    let mut msg: heapless::String<22> = fixed::message_new();
    if text.as_bytes().len() > ui::MESSAGE_BYTES {
        let (start, _): (&str, &str) = text.split_at(ui::MESSAGE_BYTES);
        assert(fixed::bytes_of(start) =~= fixed::bytes_of(text).take(22));
        assert(Seq::<u8>::empty() + fixed::bytes_of(start) =~= fixed::bytes_of(start));
        let _ = fixed::message_push_str(&mut msg, start);
    } else {
        assert(Seq::<u8>::empty() + fixed::bytes_of(text) =~= fixed::bytes_of(text));
        let _ = fixed::message_push_str(&mut msg, text);
    }
    DecodedRow {
        df_hz,
        snr_db,
        hard_errors: if hard_errors < 255 {
            hard_errors as u8
        } else {
            255
        },
        msg,
        slot_seq,
    }
}

/// What the painting loop remembers.
pub struct Painter {
    /// Passes so far.
    pub tick: u32,
    /// Number of the change that was painted last.
    pub last_ui_seq: u32,
}

impl Painter {
    /// Nothing painted yet.
    pub fn new() -> (p: Painter)
        ensures
            p.tick == 0,
            p.last_ui_seq == u32::MAX,
    {
        Painter { tick: 0, last_ui_seq: u32::MAX }
    }

    /// One pass of the loop: whether waterfall and list are to be painted anew.
    pub fn pass(&mut self, ui_seq: u32) -> (repaint: bool)
        ensures
            repaint == (ui_seq != old(self).last_ui_seq),
            final(self).last_ui_seq == ui_seq,
            final(self).tick == (if old(self).tick == u32::MAX {
                0
            } else {
                old(self).tick + 1
            }),
    {
        let repaint: bool = ui_seq != self.last_ui_seq;
        if repaint {
            self.last_ui_seq = ui_seq;
        }
        self.tick = self.tick.wrapping_add(1);
        repaint
    }
}

} // verus!
