//! From recorded audio to chunks, and from chunks to slots.

use super::stage1_inc;
use super::stage1_inc::Stage1;
use crate::ft8::coarse;
use crate::ft8::spectrogram;
use crate::ft8::spectrogram::{Fft16, Spectrogram};
use vstd::prelude::*;

verus! {

/// Samples of a chunk: a tenth of a second.
pub const CHUNK_LEN: usize = 1200;

/// Samples of a slot.
pub const SLOT_LEN: usize = 180000;

/// Bytes in front of the samples of a recording.
pub const WAV_HEADER_BYTES: usize = 44;

/// Samples without which a slot is not worth decoding.
pub const MIN_SLOT_SAMPLES: usize = 168000;

/// What the audio source sends.
pub enum ChunkMsg {
    /// The next samples of the slot.
    Samples(Vec<i16>),
    /// The slot is over.
    SlotEnd { wav_idx: usize, total_samples: usize },
}

/// A finished slot.
pub struct Slot {
    pub audio: Vec<i16>,
    pub spec: Spectrogram,
    pub allsum_head: Vec<u32>,
    pub allsum_tail: Vec<u32>,
    pub wav_idx: usize,
    pub inc_total_us: i64,
}

/// The number that two bytes hold, the lower one first.
pub open spec fn le_sample(lo: u8, hi: u8) -> int {
    let v = lo + 256 * hi;
    if v < 32768 {
        v
    } else {
        v - 65536
    }
}

/// The number that two bytes hold.
fn sample_at(lo: u8, hi: u8) -> (s: i16)
    ensures
        s == le_sample(lo, hi),
{
    let v: i32 = lo as i32 + 256 * (hi as i32);
    if v < 32768 {
        v as i16
    } else {
        (v - 65536) as i16
    }
}

/// Samples of a recording, a slot at most.
pub open spec fn sample_count(wav_len: int) -> int {
    if (wav_len - 44) / 2 < 180000 {
        (wav_len - 44) / 2
    } else {
        180000
    }
}

/// The samples of a recording.
pub open spec fn wav_samples(wav: Seq<u8>) -> Seq<i16> {
    Seq::new(
        sample_count(wav.len() as int) as nat,
        |i: int| le_sample(wav[44 + 2 * i], wav[44 + 2 * i + 1]) as i16,
    )
}

/// Samples from `from` up to `to` of a recording.
fn read_samples(wav: &[u8], from: usize, to: usize) -> (samples: Vec<i16>)
    requires
        wav@.len() >= 44,
        from <= to <= sample_count(wav@.len() as int),
    ensures
        samples@ == wav_samples(wav@).subrange(from as int, to as int),
{
    let mut samples: Vec<i16> = Vec::new();
    for i in from..to
        invariant
            wav@.len() >= 44,
            from <= to <= sample_count(wav@.len() as int),
            samples@ == wav_samples(wav@).subrange(from as int, i as int),
    {
        let off: usize = WAV_HEADER_BYTES + 2 * i;
        samples.push(sample_at(wav[off], wav[off + 1]));
        assert(samples@ =~= wav_samples(wav@).subrange(from as int, i + 1));
    }
    assert(samples@ =~= wav_samples(wav@).subrange(from as int, to as int));
    samples
}

/// Number of samples of a recording, a slot at most.
pub fn wav_len(wav: &[u8]) -> (n: usize)
    requires
        wav@.len() >= 44,
    ensures
        n == sample_count(wav@.len() as int),
        n == wav_samples(wav@).len(),
{
    let n: usize = (wav.len() - WAV_HEADER_BYTES) / 2;
    if n < SLOT_LEN {
        n
    } else {
        SLOT_LEN
    }
}

/// A whole slot from a recording; what the recording lacks is silence.
pub fn load_wav_slot(wav: &[u8]) -> (slot: Vec<i16>)
    requires
        wav@.len() >= 44,
    ensures
        slot@.len() == 180000,
        slot@ == wav_samples(wav@) + Seq::new(
            (180000 - wav_samples(wav@).len()) as nat,
            |i: int| 0i16,
        ),
{
    let n: usize = wav_len(wav);
    let mut slot: Vec<i16> = read_samples(wav, 0, n);
    let ghost read = wav_samples(wav@);
    assert(slot@ =~= read);
    while slot.len() < SLOT_LEN
        invariant
            read.len() <= slot@.len() <= 180000,
            forall|i: int| 0 <= i < read.len() ==> #[trigger] slot@[i] == read[i],
            forall|i: int| read.len() <= i < slot@.len() ==> #[trigger] slot@[i] == 0,
        decreases 180000 - slot@.len(),
    {
        slot.push(0);
    }
    assert(slot@ =~= read + Seq::new((180000 - read.len()) as nat, |i: int| 0i16));
    slot
}

/// The chunk of a recording that starts at sample `start`.
pub fn next_chunk(wav: &[u8], start: usize) -> (chunk: Vec<i16>)
    requires
        wav@.len() >= 44,
        start < sample_count(wav@.len() as int),
    ensures
        chunk@.len() == (if start + 1200 <= sample_count(wav@.len() as int) {
            1200
        } else {
            sample_count(wav@.len() as int) - start
        }),
        chunk@ == wav_samples(wav@).subrange(start as int, start + chunk@.len()),
{
    let n: usize = wav_len(wav);
    let end: usize = if n - start < CHUNK_LEN {
        n
    } else {
        start + CHUNK_LEN
    };
    read_samples(wav, start, end)
}

/// All chunks of a recording, then the end of the slot. Every chunk but the
/// last is full.
pub fn chunk_messages(wav: &[u8], wav_idx: usize) -> (msgs: Vec<ChunkMsg>)
    requires
        wav@.len() >= 44,
    ensures
        msgs@.len() > 0,
        msgs@.last() == (ChunkMsg::SlotEnd {
            wav_idx,
            total_samples: sample_count(wav@.len() as int) as usize,
        }),
        forall|i: int|
            0 <= i < msgs@.len() - 1 ==> #[trigger] msgs@[i] is Samples && 0
                < msgs@[i]->Samples_0@.len() <= 1200,
        forall|i: int|
            0 <= i < msgs@.len() - 2 ==> (#[trigger] msgs@[i])->Samples_0@.len() == 1200,
        joined_samples(msgs@, msgs@.len() - 1) == wav_samples(wav@),
{
    let n: usize = wav_len(wav);
    let mut msgs: Vec<ChunkMsg> = Vec::new();
    let mut i: usize = 0;
    assert(joined_samples(msgs@, 0) =~= wav_samples(wav@).subrange(0, 0));
    while i < n
        invariant
            wav@.len() >= 44,
            n == sample_count(wav@.len() as int),
            i <= n,
            forall|q: int|
                0 <= q < msgs@.len() ==> #[trigger] msgs@[q] is Samples && 0
                    < msgs@[q]->Samples_0@.len() <= 1200,
            forall|q: int|
                0 <= q < msgs@.len() - 1 ==> (#[trigger] msgs@[q])->Samples_0@.len() == 1200,
            i < n && msgs@.len() > 0 ==> msgs@.last()->Samples_0@.len() == 1200,
            joined_samples(msgs@, msgs@.len() as int) == wav_samples(wav@).subrange(0, i as int),
        decreases n - i,
    {
        let chunk: Vec<i16> = next_chunk(wav, i);
        let len: usize = chunk.len();
        let ghost before = msgs@;
        msgs.push(ChunkMsg::Samples(chunk));
        proof {
            lemma_joined_prefix(before, msgs@, before.len() as int);
            assert(joined_samples(msgs@, msgs@.len() as int) =~= wav_samples(wav@).subrange(
                0,
                i + len,
            ));
        }
        i = i + len;
    }
    let ghost before = msgs@;
    msgs.push(ChunkMsg::SlotEnd { wav_idx, total_samples: n });
    proof {
        lemma_joined_prefix(before, msgs@, before.len() as int);
        assert(wav_samples(wav@).subrange(0, n as int) =~= wav_samples(wav@));
    }
    msgs
}

/// The samples of the first `n` messages, one after the other.
pub open spec fn joined_samples(msgs: Seq<ChunkMsg>, n: int) -> Seq<i16>
    decreases n,
{
    if n <= 0 {
        Seq::empty()
    } else {
        joined_samples(msgs, n - 1) + (match msgs[n - 1] {
            ChunkMsg::Samples(samples) => samples@,
            ChunkMsg::SlotEnd { .. } => Seq::empty(),
        })
    }
}

proof fn lemma_joined_prefix(a: Seq<ChunkMsg>, b: Seq<ChunkMsg>, n: int)
    requires
        n <= a.len(),
        n <= b.len(),
        forall|i: int| 0 <= i < n ==> #[trigger] a[i] == b[i],
    ensures
        joined_samples(a, n) == joined_samples(b, n),
    decreases n,
{
    if n > 0 {
        lemma_joined_prefix(a, b, n - 1);
        assert(a[n - 1] == b[n - 1]);
    }
}

/// Whether enough of a slot has come in to decode it.
pub fn slot_is_complete(buffered: usize) -> (yes: bool)
    ensures
        yes == (buffered >= MIN_SLOT_SAMPLES),
{
    buffered >= MIN_SLOT_SAMPLES
}

/// Ticks of a clock with `tick_rate` ticks a second in `ms` milliseconds.
pub fn ms_to_ticks(ms: u32, tick_rate: u32) -> (ticks: u32)
    requires
        1 <= tick_rate <= 1000,
    ensures
        ticks == ms as int / (1000int / tick_rate as int),
{
    let per_tick: u32 = 1000 / tick_rate;
    assert(per_tick >= 1) by (nonlinear_arith)
        requires
            per_tick == 1000u32 / tick_rate,
            1 <= tick_rate <= 1000,
    ;
    ms / per_tick
}

/// Take in a message: samples go to the spectra, the end of the slot hands them
/// over and starts the next slot. Of a slot that is too short for all spectra
/// they are computed anew, past the audio from silence; a slot without samples
/// gives nothing.
pub fn receive<F: Fft16>(stage: &mut Stage1<F>, msg: ChunkMsg) -> (slot: Option<Slot>)
    requires
        old(stage).well_formed(),
        old(stage).up_to_date(),
    ensures
        final(stage).well_formed(),
        final(stage).up_to_date(),
        final(stage).same_setup(old(stage)),
        msg matches ChunkMsg::Samples(samples) ==> {
            &&& slot is None
            &&& final(stage).audio@.subrange(0, final(stage).fill as int) == (if old(stage).fill
                + samples@.len() <= 180000 {
                old(stage).audio@.subrange(0, old(stage).fill as int) + samples@
            } else {
                old(stage).audio@.subrange(0, old(stage).fill as int)
            })
            &&& final(stage).shift_locked == (old(stage).shift_locked || final(stage).fill
                >= stage1_inc::GAIN_SAMPLES)
            &&& final(stage).shift == (if !old(stage).shift_locked && final(stage).fill
                >= stage1_inc::GAIN_SAMPLES {
                spectrogram::gain(final(stage).peak_abs as int)
            } else {
                old(stage).shift as int
            })
            &&& final(stage).inc_total_us == old(stage).inc_total_us
            &&& final(stage).next_pair == (if final(stage).shift_locked {
                stage1_inc::pairs_ready(final(stage).fill as int)
            } else {
                0
            })
        },
        msg matches ChunkMsg::SlotEnd { wav_idx, .. } ==> {
            &&& slot is Some <==> old(stage).fill > 0
            &&& slot matches Some(s) ==> {
                &&& s.wav_idx == wav_idx
                &&& s.audio@ == old(stage).audio@.subrange(0, old(stage).fill as int)
                &&& s.spec.well_formed()
                &&& s.spec.n_freq == old(stage).n_freq
                &&& s.spec.n_time == 184
                &&& s.inc_total_us == old(stage).inc_total_us
                &&& old(stage).next_pair == 92 ==> {
                    &&& s.spec.data == old(stage).spec
                    &&& s.allsum_head == old(stage).allsum_head
                    &&& s.allsum_tail == old(stage).allsum_tail
                }
                &&& old(stage).next_pair < 92 ==> spectrogram::is_slot_spectra(
                    &s.spec,
                    s.audio@,
                    old(stage).n_freq as int,
                    old(stage).window@,
                    &old(stage).fft,
                )
                &&& coarse::is_allsum(
                    &s.spec,
                    old(stage).head.ia as int,
                    old(stage).head.n_carriers as int,
                    s.allsum_head@,
                )
                &&& coarse::is_allsum(
                    &s.spec,
                    old(stage).tail.ia as int,
                    old(stage).tail.n_carriers as int,
                    s.allsum_tail@,
                )
            }
            &&& final(stage).fill == 0
            &&& final(stage).next_pair == 0
            &&& final(stage).shift == 0
            &&& !final(stage).shift_locked
            &&& final(stage).inc_total_us == 0
        },
{
    match msg {
        ChunkMsg::Samples(samples) => {
            let _ = stage.push_chunk(&samples);
            stage.advance_pairs();
            None
        },
        ChunkMsg::SlotEnd { wav_idx, .. } => {
            let inc_total_us: i64 = stage.last_slot_inc_us();
            let mut audio: Vec<i16> = Vec::new();
            for i in 0..stage.fill
                invariant
                    *stage == *old(stage),
                    stage.well_formed(),
                    audio@ == stage.audio@.subrange(0, i as int),
            {
                audio.push(stage.audio[i]);
                assert(audio@ =~= stage.audio@.subrange(0, i + 1));
            }
            let taken: Option<(Spectrogram, Vec<u32>, Vec<u32>)> = stage.take_spec_and_allsum();
            let slot: Option<Slot> = match taken {
                Some((spec, allsum_head, allsum_tail)) => Some(
                    Slot { audio, spec, allsum_head, allsum_tail, wav_idx, inc_total_us },
                ),
                None => {
                    if audio.len() == 0 {
                        None
                    } else {
                        let spec: Spectrogram = spectrogram::compute_spectrogram(
                            &audio,
                            stage.n_freq,
                            &stage.window,
                            &stage.fft,
                        );
                        let allsum_head: Vec<u32> = coarse::precompute_coarse_allsum(
                            &spec,
                            stage.head.ia,
                            stage.head.n_carriers,
                        );
                        let allsum_tail: Vec<u32> = coarse::precompute_coarse_allsum(
                            &spec,
                            stage.tail.ia,
                            stage.tail.n_carriers,
                        );
                        Some(
                            Slot { audio, spec, allsum_head, allsum_tail, wav_idx, inc_total_us },
                        )
                    }
                },
            };
            stage.mark_slot_boundary();
            slot
        },
    }
}

} // verus!
