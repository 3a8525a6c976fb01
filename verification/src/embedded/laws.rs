//! What the station promises of its lists, its lines and its slots.

use super::decoded_list;
use super::fixed;
use super::log_sink;
use super::log_sink::{Level, LevelFilter};
use super::pipeline;
use super::stage1_inc;
use super::stage1_inc::Stage1;
use super::ui;
use super::ui::DecodedRow;
use crate::ft8::spectrogram;
use crate::ft8::spectrogram::Fft16;
use vstd::prelude::*;

verus! {

/// The last `capacity` entries of a history, or all where there are fewer.
pub open spec fn newest<T>(history: Seq<T>, capacity: int) -> Seq<T> {
    if history.len() > capacity {
        history.skip(history.len() - capacity)
    } else {
        history
    }
}

/// A ring holds the newest entries of everything that ever came in, in their
/// order.
pub proof fn law_a_ring_holds_the_newest<T>(history: Seq<T>, entry: T, capacity: int)
    requires
        0 < capacity,
    ensures
        ui::ring_push(newest(history, capacity), entry, capacity) == newest(
            history.push(entry),
            capacity,
        ),
{
    assert(ui::ring_push(newest(history, capacity), entry, capacity) =~= newest(
        history.push(entry),
        capacity,
    ));
}

/// After the waiting lines have been moved to a panel it shows the newest twelve
/// of its own lines and those.
pub proof fn law_a_flush_shows_the_newest(panel: Seq<Seq<u8>>, waiting: Seq<Seq<u8>>, n: int)
    requires
        panel.len() <= 12,
        0 <= n <= waiting.len(),
    ensures
        log_sink::scrolled(panel, waiting, n) == newest(panel + waiting.take(n), 12),
    decreases n,
{
    if n > 0 {
        law_a_flush_shows_the_newest(panel, waiting, n - 1);
        law_a_ring_holds_the_newest(panel + waiting.take(n - 1), waiting[n - 1], 12);
        assert((panel + waiting.take(n - 1)).push(waiting[n - 1]) =~= panel + waiting.take(n));
    } else {
        assert(panel + waiting.take(0) =~= panel);
    }
}

/// The number that decimal digits spell.
pub open spec fn spelled(text: Seq<u8>) -> int
    decreases text.len(),
{
    if text.len() == 0 {
        0
    } else {
        10 * spelled(text.drop_last()) + (text.last() - 48)
    }
}

/// The digits of a number spell it, and no nought stands in front.
pub proof fn law_digits_spell_the_number(n: nat)
    ensures
        spelled(decoded_list::digits(n)) == n,
        decoded_list::digits(n).len() >= 1,
        forall|i: int|
            0 <= i < decoded_list::digits(n).len() ==> 48 <= #[trigger] decoded_list::digits(n)[i]
                <= 57,
        n > 0 ==> decoded_list::digits(n)[0] != 48,
    decreases n,
{
    let text = decoded_list::digits(n);
    if n >= 10 {
        law_digits_spell_the_number(n / 10);
        assert(text.drop_last() =~= decoded_list::digits(n / 10));
    } else {
        assert(text.drop_last() =~= Seq::<u8>::empty());
        assert(spelled(Seq::<u8>::empty()) == 0);
    }
}

/// A row of the list. Strength stands in the first three places, to the right and
/// with its sign; frequency in the next field, to the right of four places or
/// wider; then up to twelve bytes of the message, or eleven behind a frequency
/// of five digits; and an exclamation mark where 24 bits or more were wrong.
pub proof fn law_what_stands_in_a_row(row: DecodedRow)
    ensures
        ({
            let line = decoded_list::row_line(row);
            let msg = fixed::message_bytes(row.msg);
            let snr = if row.snr_db < -30 {
                -30
            } else if row.snr_db > 30 {
                30
            } else {
                row.snr_db as int
            };
            let size = if snr < 0 {
                -snr
            } else {
                snr
            };
            let sign = if snr < 0 {
                45u8
            } else {
                43u8
            };
            let wide = if row.df_hz < 10000 {
                4int
            } else {
                5
            };
            let room = 16 - wide;
            let shown = if msg.len() < room {
                msg.len() as int
            } else {
                room
            };
            &&& size < 10 ==> line[0] == 32 && line[1] == sign && line[2] == 48 + size
            &&& size >= 10 ==> line[0] == sign && line[1] == 48 + size / 10 && line[2] == 48 + size
                % 10
            &&& line[3] == 32
            &&& line[4 + wide] == 32
            &&& line[3 + wide] == 48 + row.df_hz % 10
            &&& spelled_field(line.subrange(4, 4 + wide)) == row.df_hz
            &&& forall|i: int| 0 <= i < shown ==> #[trigger] line[5 + wide + i] == msg[i]
            &&& line.len() == 5 + wide + shown + (if row.hard_errors >= 24 {
                1int
            } else {
                0
            })
            &&& row.hard_errors >= 24 ==> line.last() == 33
        }),
{
    let line = decoded_list::row_line(row);
    let snr = decoded_list::shown_snr(row.snr_db);
    let size = if snr < 0 {
        (-snr) as nat
    } else {
        snr as nat
    };
    let df = row.df_hz as nat;
    reveal_with_fuel(decoded_list::digits, 6);
    let ds = decoded_list::digits(size);
    let strength = decoded_list::signed(snr);
    if size < 10 {
        assert(ds =~= seq![(48 + size) as u8]);
        assert(strength.len() == 2);
    } else {
        assert(ds =~= seq![(48 + size / 10) as u8, (48 + size % 10) as u8]);
        assert(strength.len() == 3);
    }
    let field = decoded_list::padded(strength, 3);
    assert(field.len() == 3);
    let freq = decoded_list::padded(decoded_list::digits(df), 4);
    let wide = if row.df_hz < 10000 {
        4int
    } else {
        5
    };
    assert(freq.len() == wide);
    let prefix = decoded_list::row_prefix(row.snr_db, row.df_hz);
    assert(prefix =~= field.push(32) + freq.push(32));
    assert(line.subrange(4, 4 + wide) =~= freq);
    lemma_spelled_field(df);
}

/// The number that digits spell behind spaces.
pub open spec fn spelled_field(text: Seq<u8>) -> int
    decreases text.len(),
{
    if text.len() > 0 && text[0] == 32 {
        spelled_field(text.skip(1))
    } else {
        spelled(text)
    }
}

proof fn lemma_spelled_field(n: nat)
    requires
        n < 100000,
    ensures
        spelled_field(decoded_list::padded(decoded_list::digits(n), 4)) == n,
{
    law_digits_spell_the_number(n);
    let ds = decoded_list::digits(n);
    let text = decoded_list::padded(ds, 4);
    assert(text.skip(text.len() - ds.len()) =~= ds);
    lemma_spaces_do_not_count(ds, text);
}

proof fn lemma_spaces_do_not_count(ds: Seq<u8>, text: Seq<u8>)
    requires
        ds.len() >= 1,
        48 <= ds[0] <= 57,
        text.len() >= ds.len(),
        text.skip(text.len() - ds.len()) == ds,
        forall|i: int| 0 <= i < text.len() - ds.len() ==> #[trigger] text[i] == 32,
    ensures
        spelled_field(text) == spelled(ds),
    decreases text.len(),
{
    if text.len() > ds.len() {
        let rest = text.skip(1);
        assert(text[0] == 32);
        assert(rest.skip(rest.len() - ds.len()) =~= text.skip(text.len() - ds.len()));
        lemma_spaces_do_not_count(ds, rest);
    } else {
        assert(text.skip(0) =~= text);
    }
}

/// Which records are kept: none with the filter off, and with a filter those of
/// its level and the graver ones.
pub proof fn law_which_records_are_kept(filter: LevelFilter)
    ensures
        Level::Error.rank() <= filter.rank() <==> filter != LevelFilter::Off,
        Level::Warn.rank() <= filter.rank() <==> filter != LevelFilter::Off && filter
            != LevelFilter::Error,
        Level::Info.rank() <= filter.rank() <==> filter == LevelFilter::Info || filter
            == LevelFilter::Debug || filter == LevelFilter::Trace,
        Level::Debug.rank() <= filter.rank() <==> filter == LevelFilter::Debug || filter
            == LevelFilter::Trace,
        Level::Trace.rank() <= filter.rank() <==> filter == LevelFilter::Trace,
{
}

/// All pieces of a line, one after the other.
pub open spec fn all_pieces(pieces: Seq<&str>, n: int) -> Seq<u8>
    decreases pieces.len() - n,
{
    if n < 0 || n >= pieces.len() {
        Seq::empty()
    } else {
        fixed::bytes_of(pieces[n]) + all_pieces(pieces, n + 1)
    }
}

/// A line of pieces is the start of all of them put together, no longer than 80
/// bytes, and it is the whole where that fits.
pub proof fn law_a_line_is_the_start_of_its_pieces(line: Seq<u8>, pieces: Seq<&str>, n: int)
    requires
        0 <= n <= pieces.len(),
        line.len() <= 80,
    ensures
        log_sink::joined(line, pieces, n).len() <= 80,
        log_sink::joined(line, pieces, n).is_prefix_of(line + all_pieces(pieces, n)),
        (line + all_pieces(pieces, n)).len() <= 80 ==> log_sink::joined(line, pieces, n) == line
            + all_pieces(pieces, n),
    decreases pieces.len() - n,
{
    if n < pieces.len() {
        let piece = fixed::bytes_of(pieces[n]);
        let rest = all_pieces(pieces, n + 1);
        assert(line + (piece + rest) =~= (line + piece) + rest);
        if line.len() + piece.len() <= 80 {
            law_a_line_is_the_start_of_its_pieces(line + piece, pieces, n + 1);
        }
    } else {
        assert(line + Seq::<u8>::empty() =~= line);
    }
}

/// Samples are read as they were written: a recording that holds sample `s` as
/// two bytes, the lower one first, from byte `44 + 2 i` on gives `s` as its
/// sample number `i`.
pub proof fn law_samples_are_read_as_written(wav: Seq<u8>, i: int, s: i16)
    requires
        0 <= i < 180000,
        44 + 2 * i + 1 < wav.len(),
        wav[44 + 2 * i] == (s as int) % 256,
        wav[44 + 2 * i + 1] == ((s as int) / 256) % 256,
    ensures
        i < pipeline::wav_samples(wav).len() <= 180000,
        pipeline::wav_samples(wav)[i] == s,
{
    let lo = wav[44 + 2 * i] as int;
    let hi = wav[44 + 2 * i + 1] as int;
    let v = s as int;
    assert(v == 256 * (v / 256) + v % 256);
    if v >= 0 {
        assert(0 <= v / 256 <= 127);
        assert(hi == v / 256);
    } else {
        assert(-128 <= v / 256 <= -1);
        assert(hi == v / 256 + 256);
    }
    assert(lo + 256 * hi == (if v >= 0 {
        v
    } else {
        v + 65536
    }));
}

/// A pair of spectra is computed as soon as the last sample of the second one is
/// there, and no sooner: pair `j` has its spectra from samples `1920 j` and
/// `1920 j + 960` on, 1920 samples each.
pub proof fn law_a_pair_is_ready_with_its_last_sample(j: int, fill: int)
    requires
        0 <= j < 92,
        0 <= fill,
    ensures
        j < stage1_inc::pairs_ready(fill) <==> 1920 * j + 960 + 1920 <= fill,
        stage1_inc::pairs_ready(fill) <= 92,
{
}

/// A transform of two real slices at once is exact at a bin: it is the first
/// slice's transform plus the imaginary unit times the second's, there and at
/// the mirror image.
pub open spec fn is_exact<F: Fft16>(
    fft: &F,
    audio: Seq<i16>,
    first: int,
    second: int,
    shift: nat,
    window: Seq<i16>,
    k: int,
) -> bool {
    let a = fft.transform(spectrogram::single_frame(audio, first, shift, window))[k];
    let b = fft.transform(spectrogram::single_frame(audio, second, shift, window))[k];
    let both = fft.transform(spectrogram::paired_frame(audio, first, second, shift, window));
    &&& both[k].re == a.re - b.im
    &&& both[k].im == a.im + b.re
    &&& both[(4096 - k) % 4096].re == a.re + b.im
    &&& both[(4096 - k) % 4096].im == b.re - a.im
}

/// What is computed while the audio comes in is what would be computed at its
/// end: with an exact transform the two spectra of a pair are those of the
/// slices from sample `960 (2 j)` and `960 (2 j + 1)` on, each transformed alone
/// with the same gain.
pub proof fn law_spectra_are_the_same_while_the_audio_comes_in<F: Fft16>(
    stage: &Stage1<F>,
    j: int,
    i: int,
)
    requires
        stage.well_formed(),
        stage.up_to_date(),
        0 <= j < stage.next_pair,
        0 <= i < stage.n_freq,
        is_exact(
            &stage.fft,
            stage.audio@,
            1920 * j,
            1920 * j + 960,
            stage.shift as nat,
            stage.window@,
            i,
        ),
    ensures
        ({
            let early = stage.fft.transform(
                spectrogram::single_frame(
                    stage.audio@,
                    960 * (2 * j),
                    stage.shift as nat,
                    stage.window@,
                ),
            )[i];
            let late = stage.fft.transform(
                spectrogram::single_frame(
                    stage.audio@,
                    960 * (2 * j + 1),
                    stage.shift as nat,
                    stage.window@,
                ),
            )[i];
            &&& stage.spec@[2 * j * stage.n_freq + i] == spectrogram::cell(
                early.re as int,
                early.im as int,
            )
            &&& stage.spec@[(2 * j + 1) * stage.n_freq + i] == spectrogram::cell(
                late.re as int,
                late.im as int,
            )
        }),
{
    assert(stage.pair_holds(j));
    let out = stage.fft.transform(
        spectrogram::paired_frame(
            stage.audio@,
            1920 * j,
            1920 * j + 960,
            stage.shift as nat,
            stage.window@,
        ),
    );
    let a = stage.fft.transform(
        spectrogram::single_frame(stage.audio@, 1920 * j, stage.shift as nat, stage.window@),
    )[i];
    let b = stage.fft.transform(
        spectrogram::single_frame(
            stage.audio@,
            1920 * j + 960,
            stage.shift as nat,
            stage.window@,
        ),
    )[i];
    let y = out[i];
    let n = out[(4096 - i) % 4096];
    assert((y.re + n.re) / 2 == a.re);
    assert((y.im - n.im) / 2 == a.im);
    assert((y.im + n.im) / 2 == b.re);
    assert((n.re - y.re) / 2 == b.im);
    assert(960 * (2 * j) == 1920 * j);
    assert(960 * (2 * j + 1) == 1920 * j + 960);
    let cells = stage1_inc::cells_of(
        &stage.fft,
        stage.audio@,
        stage.shift as nat,
        stage.window@,
        j,
        i,
    );
    assert(stage.spec@[2 * j * stage.n_freq + i] == cells.0);
    assert(stage.spec@[(2 * j + 1) * stage.n_freq + i] == cells.1);
}

/// A slot is worth decoding from 168000 samples on; the gain is fixed after 12000.
pub proof fn law_how_much_of_a_slot_is_needed(buffered: usize, yes: bool)
    requires
        call_ensures(pipeline::slot_is_complete, (buffered,), yes),
    ensures
        yes == (buffered >= 168000),
        stage1_inc::GAIN_SAMPLES == 12000,
{
}

/// Chunk `c` of a recording holds the samples from sample `1200 c` on, as they
/// stand in the recording.
pub proof fn law_chunks_keep_the_samples(
    wav: &[u8],
    wav_idx: usize,
    msgs: Vec<pipeline::ChunkMsg>,
    c: int,
    k: int,
)
    requires
        wav@.len() >= 44,
        call_ensures(pipeline::chunk_messages, (wav, wav_idx), msgs),
        0 <= c < msgs@.len() - 1,
        0 <= k < msgs@[c]->Samples_0@.len(),
    ensures
        msgs@[c] is Samples,
        1200 * c + k < pipeline::wav_samples(wav@).len(),
        msgs@[c]->Samples_0@[k] == pipeline::wav_samples(wav@)[1200 * c + k],
{
    lemma_joined_at(msgs@, msgs@.len() - 1, c, k);
}

proof fn lemma_joined_at(msgs: Seq<pipeline::ChunkMsg>, n: int, c: int, k: int)
    requires
        0 <= c < n <= msgs.len(),
        forall|i: int| 0 <= i < n ==> #[trigger] msgs[i] is Samples,
        forall|i: int| 0 <= i < n - 1 ==> (#[trigger] msgs[i])->Samples_0@.len() == 1200,
        0 <= k < msgs[c]->Samples_0@.len(),
    ensures
        1200 * c + k < pipeline::joined_samples(msgs, n).len(),
        pipeline::joined_samples(msgs, n)[1200 * c + k] == msgs[c]->Samples_0@[k],
    decreases n,
{
    lemma_joined_len(msgs, n - 1);
    assert(msgs[n - 1] is Samples);
    if c < n - 1 {
        lemma_joined_at(msgs, n - 1, c, k);
    }
}

proof fn lemma_joined_len(msgs: Seq<pipeline::ChunkMsg>, n: int)
    requires
        0 <= n <= msgs.len(),
        forall|i: int| 0 <= i < n ==> #[trigger] msgs[i] is Samples,
        forall|i: int| 0 <= i < n ==> (#[trigger] msgs[i])->Samples_0@.len() == 1200,
    ensures
        pipeline::joined_samples(msgs, n).len() == 1200 * n,
    decreases n,
{
    if n > 0 {
        lemma_joined_len(msgs, n - 1);
        assert(msgs[n - 1] is Samples && msgs[n - 1]->Samples_0@.len() == 1200);
    }
}

} // verus!
