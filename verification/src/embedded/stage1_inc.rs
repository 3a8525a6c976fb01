//! Spectra and window sums built up while the audio of a slot comes in.
//!
//! Two spectra are computed as soon as the samples of both are there, so that
//! at the end of the slot little is left to do.

use crate::ft8::coarse;
use crate::ft8::params;
use crate::ft8::spectrogram;
use crate::ft8::spectrogram::{Fft16, Iq, Spectrogram};
use vstd::prelude::*;

verus! {

/// Samples after which the gain is fixed: one second.
pub const GAIN_SAMPLES: usize = 12000;

/// A band of carriers, as bins.
#[derive(Clone, Copy, Debug, PartialEq, Eq, Structural)]
pub struct Band {
    pub ia: usize,
    pub n_carriers: usize,
}

impl Band {
    /// The band lies within spectra of `n_freq` bins.
    pub open spec fn fits(self, n_freq: int) -> bool {
        1 <= self.n_carriers && self.ia + self.n_carriers <= n_freq + 1
    }
}

/// What has been received and computed of a slot.
pub struct Stage1<F: Fft16> {
    pub audio: Vec<i16>,
    /// Samples received.
    pub fill: usize,
    pub spec: Vec<u16>,
    pub n_freq: usize,
    pub head: Band,
    pub allsum_head: Vec<u32>,
    pub tail: Band,
    pub allsum_tail: Vec<u32>,
    pub window: Vec<i16>,
    pub fft: F,
    /// Pairs of spectra computed.
    pub next_pair: usize,
    pub shift: u32,
    pub shift_locked: bool,
    pub peak_abs: i32,
    /// Time spent, in microseconds.
    pub inc_total_us: i64,
}

/// Pairs of spectra whose samples lie among the first `fill`.
pub open spec fn pairs_ready(fill: int) -> int {
    if fill < 2880 {
        0
    } else if (fill - 2880) / 1920 + 1 < 92 {
        (fill - 2880) / 1920 + 1
    } else {
        92
    }
}

/// Cells of pair `j` of the spectra of some audio.
pub open spec fn cells_of<F: Fft16>(
    fft: &F,
    audio: Seq<i16>,
    shift: nat,
    window: Seq<i16>,
    j: int,
    i: int,
) -> (int, int) {
    spectrogram::pair_cells(
        fft.transform(
            spectrogram::paired_frame(audio, 1920 * j, 1920 * j + 960, shift, window),
        ),
        i,
    )
}

/// The window sums of spectrum `m`.
pub open spec fn sums_hold(
    cells: Seq<u16>,
    n_freq: int,
    band: Band,
    table: Seq<u32>,
    m: int,
) -> bool {
    forall|fi: int|
        0 <= fi < band.n_carriers ==> #[trigger] table[fi * 184 + m] == coarse::window_sum(
            cells,
            n_freq,
            m,
            band.ia + fi,
            16,
        )
}

impl<F: Fft16> Stage1<F> {
    /// Sizes and counters fit together.
    pub open spec fn well_formed(&self) -> bool {
        &&& self.audio@.len() == 180000
        &&& 1 <= self.n_freq <= 2048
        &&& self.spec@.len() == self.n_freq * 184
        &&& self.head.fits(self.n_freq as int)
        &&& self.tail.fits(self.n_freq as int)
        &&& self.allsum_head@.len() == self.head.n_carriers * 184
        &&& self.allsum_tail@.len() == self.tail.n_carriers * 184
        &&& spectrogram::is_window(self.window@)
        &&& self.fft.ready()
        &&& self.fill <= 180000
        &&& self.shift <= 8
        &&& self.peak_abs == spectrogram::peak_size(self.audio@, self.fill as int)
        &&& self.next_pair <= pairs_ready(self.fill as int)
        &&& self.next_pair > 0 ==> self.shift_locked
    }

    /// Pair `j` of the spectra is that of the audio.
    pub open spec fn pair_holds(&self, j: int) -> bool {
        forall|i: int|
            #![trigger self.spec@[2 * j * self.n_freq + i]]
            #![trigger self.spec@[(2 * j + 1) * self.n_freq + i]]
            0 <= i < self.n_freq ==> ({
                let cells = cells_of(
                    &self.fft,
                    self.audio@,
                    self.shift as nat,
                    self.window@,
                    j,
                    i,
                );
                &&& self.spec@[2 * j * self.n_freq + i] == cells.0
                &&& self.spec@[(2 * j + 1) * self.n_freq + i] == cells.1
            })
    }

    /// Everything computed so far is in place.
    pub open spec fn up_to_date(&self) -> bool {
        &&& forall|j: int| 0 <= j < self.next_pair ==> #[trigger] self.pair_holds(j)
        &&& forall|m: int|
            0 <= m < 2 * self.next_pair ==> #[trigger] sums_hold(
                self.spec@,
                self.n_freq as int,
                self.head,
                self.allsum_head@,
                m,
            )
        &&& forall|m: int|
            0 <= m < 2 * self.next_pair ==> #[trigger] sums_hold(
                self.spec@,
                self.n_freq as int,
                self.tail,
                self.allsum_tail@,
                m,
            )
    }

    /// What stays the same from one slot to the next.
    pub open spec fn same_setup(&self, other: &Stage1<F>) -> bool {
        &&& self.n_freq == other.n_freq
        &&& self.head == other.head
        &&& self.tail == other.tail
        &&& self.window == other.window
        &&& self.fft == other.fft
    }

    /// An empty slot.
    pub fn new(n_freq: usize, head: Band, tail: Band, window: Vec<i16>, fft: F) -> (s: Stage1<F>)
        requires
            1 <= n_freq <= 2048,
            head.fits(n_freq as int),
            tail.fits(n_freq as int),
            spectrogram::is_window(window@),
            fft.ready(),
        ensures
            s.well_formed(),
            s.up_to_date(),
            s.n_freq == n_freq,
            s.head == head,
            s.tail == tail,
            s.window == window,
            s.fft == fft,
            s.fill == 0,
            s.next_pair == 0,
            !s.shift_locked,
            s.inc_total_us == 0,
    {
        let audio: Vec<i16> = vec![0i16; 180000];
        let spec: Vec<u16> = vec![0u16; n_freq * 184];
        let allsum_head: Vec<u32> = vec![0u32; head.n_carriers * 184];
        let allsum_tail: Vec<u32> = vec![0u32; tail.n_carriers * 184];
        Stage1 {
            audio,
            fill: 0,
            spec,
            n_freq,
            head,
            allsum_head,
            tail,
            allsum_tail,
            window,
            fft,
            next_pair: 0,
            shift: 0,
            shift_locked: false,
            peak_abs: 1,
            inc_total_us: 0,
        }
    }

    /// Take in the next samples. Samples that do not fit into the slot are
    /// dropped as a whole.
    pub fn push_chunk(&mut self, samples: &[i16]) -> (taken: bool)
        requires
            old(self).well_formed(),
        ensures
            final(self).well_formed(),
            old(self).up_to_date() ==> final(self).up_to_date(),
            final(self).same_setup(old(self)),
            taken == (old(self).fill + samples@.len() <= 180000),
            !taken ==> *final(self) == *old(self),
            taken ==> {
                &&& final(self).fill == old(self).fill + samples@.len()
                &&& final(self).audio@.subrange(0, final(self).fill as int)
                    == old(self).audio@.subrange(0, old(self).fill as int) + samples@
                &&& final(self).spec == old(self).spec
                &&& final(self).allsum_head == old(self).allsum_head
                &&& final(self).allsum_tail == old(self).allsum_tail
                &&& final(self).next_pair == old(self).next_pair
                &&& final(self).shift == old(self).shift
                &&& final(self).shift_locked == old(self).shift_locked
                &&& final(self).inc_total_us == old(self).inc_total_us
            },
    {
        let off: usize = self.fill;
        if samples.len() > params::NMAX - off {
            return false;
        }
        let ghost start = *self;
        proof {
            lemma_peak_bounds(self.audio@, off as int);
        }
        for k in 0..samples.len()
            invariant
                start == *old(self),
                start.well_formed(),
                off == start.fill,
                off + samples@.len() <= 180000,
                self.same_setup(&start),
                self.spec == start.spec,
                self.allsum_head == start.allsum_head,
                self.allsum_tail == start.allsum_tail,
                self.next_pair == start.next_pair,
                self.shift == start.shift,
                self.shift_locked == start.shift_locked,
                self.inc_total_us == start.inc_total_us,
                self.fill == start.fill,
                self.audio@.len() == 180000,
                1 <= self.peak_abs <= 32768,
                forall|x: int| 0 <= x < off ==> #[trigger] self.audio@[x] == start.audio@[x],
                forall|x: int|
                    0 <= x < k ==> #[trigger] self.audio@[off + x] == samples@[x],
                self.peak_abs == spectrogram::peak_size(self.audio@, off + k),
        {
            let s: i16 = samples[k];
            let size: i32 = if s < 0 {
                -(s as i32)
            } else {
                s as i32
            };
            let ghost before = self.audio@;
            self.audio.set(off + k, s);
            proof {
                lemma_peak_stable(before, self.audio@, off + k);
            }
            if size > self.peak_abs {
                self.peak_abs = size;
            }
        }
        self.fill = off + samples.len();
        proof {
            let joined = start.audio@.subrange(0, off as int) + samples@;
            assert forall|y: int| 0 <= y < self.fill implies self.audio@.subrange(
                0,
                self.fill as int,
            )[y] == #[trigger] joined[y] by {
                if y >= off {
                    assert(self.audio@[off + (y - off)] == samples@[y - off]);
                }
            }
            assert(self.audio@.subrange(0, self.fill as int) =~= start.audio@.subrange(
                0,
                off as int,
            ) + samples@);
            lemma_ready_grows(off as int, self.fill as int);
            if start.up_to_date() {
                assert forall|j: int| 0 <= j < self.next_pair implies #[trigger] self.pair_holds(
                    j,
                ) by {
                    assert(start.pair_holds(j));
                    lemma_ready(j, off as int);
                    lemma_frame_stable(
                        start.audio@,
                        self.audio@,
                        off as int,
                        j,
                        self.shift as nat,
                        self.window@,
                    );
                }
            }
        }
        true
    }

    /// Compute every pair of spectra whose samples are there. Nothing happens
    /// until the gain can be fixed.
    pub fn advance_pairs(&mut self)
        requires
            old(self).well_formed(),
            old(self).up_to_date(),
        ensures
            final(self).well_formed(),
            final(self).up_to_date(),
            final(self).same_setup(old(self)),
            final(self).audio == old(self).audio,
            final(self).fill == old(self).fill,
            final(self).peak_abs == old(self).peak_abs,
            final(self).inc_total_us == old(self).inc_total_us,
            final(self).shift_locked == (old(self).shift_locked || old(self).fill >= GAIN_SAMPLES),
            final(self).shift == (if !old(self).shift_locked && old(self).fill >= GAIN_SAMPLES {
                spectrogram::gain(old(self).peak_abs as int)
            } else {
                old(self).shift as int
            }),
            final(self).next_pair == (if final(self).shift_locked {
                pairs_ready(old(self).fill as int)
            } else {
                0
            }),
    {
        if !self.shift_locked && self.fill >= GAIN_SAMPLES {
            proof {
                lemma_peak_bounds(self.audio@, self.fill as int);
            }
            self.shift = spectrogram::gain_shift(self.peak_abs);
            self.shift_locked = true;
        }
        if !self.shift_locked {
            return;
        }
        let ghost locked = *self;
        while self.next_pair < params::N_PAIRS && (2 * self.next_pair + 1) * params::NSTEP
            + params::NSPS <= self.fill
            invariant
                self.well_formed(),
                self.up_to_date(),
                self.shift_locked,
                self.same_setup(&locked),
                self.audio == locked.audio,
                self.fill == locked.fill,
                self.peak_abs == locked.peak_abs,
                self.inc_total_us == locked.inc_total_us,
                self.shift == locked.shift,
            decreases 92 - self.next_pair,
        {
            proof {
                lemma_ready(self.next_pair as int, self.fill as int);
            }
            self.compute_pair();
        }
        proof {
            lemma_ready(self.next_pair as int, self.fill as int);
        }
    }

    /// Compute the next pair of spectra, and the window sums of both.
    fn compute_pair(&mut self)
        requires
            old(self).well_formed(),
            old(self).up_to_date(),
            old(self).shift_locked,
            old(self).next_pair < pairs_ready(old(self).fill as int),
        ensures
            final(self).well_formed(),
            final(self).up_to_date(),
            final(self).same_setup(old(self)),
            final(self).audio == old(self).audio,
            final(self).fill == old(self).fill,
            final(self).peak_abs == old(self).peak_abs,
            final(self).inc_total_us == old(self).inc_total_us,
            final(self).shift == old(self).shift,
            final(self).shift_locked,
            final(self).next_pair == old(self).next_pair + 1,
    {
        let ghost start = *self;
        let j: usize = self.next_pair;
        let j_a: usize = 2 * j;
        let j_b: usize = 2 * j + 1;
        let n_freq: usize = self.n_freq;
        let mut buf: Vec<Iq> = spectrogram::load_pair(
            &self.audio,
            j_a * params::NSTEP,
            j_b * params::NSTEP,
            self.shift,
            &self.window,
        );
        self.fft.process(&mut buf);
        let ghost out = buf@;
        proof {
            assert(out == self.fft.transform(
                spectrogram::paired_frame(
                    self.audio@,
                    1920 * j,
                    1920 * j + 960,
                    self.shift as nat,
                    self.window@,
                ),
            ));
            spectrogram::lemma_cell_index(n_freq as int, 184, 0, j_a as int);
            spectrogram::lemma_cell_index(n_freq as int, 184, 0, j_b as int);
        }
        let row_a: usize = j_a * n_freq;
        let row_b: usize = j_b * n_freq;
        let total: usize = self.spec.len();
        for k in 0..n_freq
            invariant
                n_freq == start.n_freq,
                1 <= n_freq <= 2048,
                j < 92,
                j_a == 2 * j,
                j_b == 2 * j + 1,
                row_a == j_a * n_freq,
                row_b == row_a + n_freq,
                row_b + n_freq <= total,
                total == start.spec@.len(),
                buf@.len() == 4096,
                out == buf@,
                self.spec@.len() == start.spec@.len(),
                self.same_setup(&start),
                self.audio == start.audio,
                self.fill == start.fill,
                self.peak_abs == start.peak_abs,
                self.inc_total_us == start.inc_total_us,
                self.shift == start.shift,
                self.shift_locked,
                self.next_pair == start.next_pair,
                self.allsum_head == start.allsum_head,
                self.allsum_tail == start.allsum_tail,
                forall|x: int|
                    0 <= x < row_a ==> #[trigger] self.spec@[x] == start.spec@[x],
                forall|q: int|
                    0 <= q < k ==> #[trigger] self.spec@[row_a + q] == spectrogram::pair_cells(
                        out,
                        q,
                    ).0,
                forall|q: int|
                    0 <= q < k ==> #[trigger] self.spec@[row_b + q] == spectrogram::pair_cells(
                        out,
                        q,
                    ).1,
        {
            let (a, b): (u16, u16) = spectrogram::split_pair(&buf, k);
            self.spec.set(row_a + k, a);
            self.spec.set(row_b + k, b);
        }
        proof {
            assert(self.spec@.len() == n_freq * 184);
        }
        self.update_allsum_columns_for_m(j_a);
        self.update_allsum_columns_for_m(j_b);
        self.next_pair = j + 1;
        proof {
            assert forall|p: int| 0 <= p < self.next_pair implies #[trigger] self.pair_holds(p) by {
                lemma_rows_apart(n_freq as int, p, j as int);
                if p < j {
                    assert(start.pair_holds(p));
                    assert forall|i: int| 0 <= i < n_freq implies #[trigger] self.spec@[2 * p
                        * n_freq + i] == start.spec@[2 * p * n_freq + i] by {
                        assert(0 <= 2 * p * n_freq + i < row_a);
                    }
                    assert forall|i: int| 0 <= i < n_freq implies #[trigger] self.spec@[(2 * p + 1)
                        * n_freq + i] == start.spec@[(2 * p + 1) * n_freq + i] by {
                        assert(0 <= (2 * p + 1) * n_freq + i < row_a);
                    }
                } else {
                    assert(2 * p * n_freq == row_a);
                    assert((2 * p + 1) * n_freq == row_b);
                }
            }
            assert forall|m: int| 0 <= m < 2 * self.next_pair implies #[trigger] sums_hold(
                self.spec@,
                n_freq as int,
                self.head,
                self.allsum_head@,
                m,
            ) by {
                if m < 2 * j {
                    assert(sums_hold(
                        start.spec@,
                        n_freq as int,
                        start.head,
                        start.allsum_head@,
                        m,
                    ));
                    lemma_sums_stable(
                        start.spec@,
                        self.spec@,
                        n_freq as int,
                        j as int,
                        self.head,
                        start.allsum_head@,
                        self.allsum_head@,
                        m,
                    );
                }
            }
            assert forall|m: int| 0 <= m < 2 * self.next_pair implies #[trigger] sums_hold(
                self.spec@,
                n_freq as int,
                self.tail,
                self.allsum_tail@,
                m,
            ) by {
                if m < 2 * j {
                    assert(sums_hold(
                        start.spec@,
                        n_freq as int,
                        start.tail,
                        start.allsum_tail@,
                        m,
                    ));
                    lemma_sums_stable(
                        start.spec@,
                        self.spec@,
                        n_freq as int,
                        j as int,
                        self.tail,
                        start.allsum_tail@,
                        self.allsum_tail@,
                        m,
                    );
                }
            }
        }
    }

    /// Fill in the window sums of spectrum `m` in both halves of the band.
    fn update_allsum_columns_for_m(&mut self, m: usize)
        requires
            m < 184,
            1 <= old(self).n_freq <= 2048,
            old(self).spec@.len() == old(self).n_freq * 184,
            old(self).head.fits(old(self).n_freq as int),
            old(self).tail.fits(old(self).n_freq as int),
            old(self).allsum_head@.len() == old(self).head.n_carriers * 184,
            old(self).allsum_tail@.len() == old(self).tail.n_carriers * 184,
        ensures
            final(self).same_setup(old(self)),
            final(self).audio == old(self).audio,
            final(self).fill == old(self).fill,
            final(self).spec == old(self).spec,
            final(self).peak_abs == old(self).peak_abs,
            final(self).inc_total_us == old(self).inc_total_us,
            final(self).shift == old(self).shift,
            final(self).shift_locked == old(self).shift_locked,
            final(self).next_pair == old(self).next_pair,
            final(self).allsum_head@.len() == old(self).allsum_head@.len(),
            final(self).allsum_tail@.len() == old(self).allsum_tail@.len(),
            sums_hold(
                final(self).spec@,
                final(self).n_freq as int,
                final(self).head,
                final(self).allsum_head@,
                m as int,
            ),
            sums_hold(
                final(self).spec@,
                final(self).n_freq as int,
                final(self).tail,
                final(self).allsum_tail@,
                m as int,
            ),
            forall|fi: int, q: int|
                0 <= fi < final(self).head.n_carriers && 0 <= q < 184 && q != m
                    ==> #[trigger] final(self).allsum_head@[fi * 184 + q] == old(
                    self,
                ).allsum_head@[fi * 184 + q],
            forall|fi: int, q: int|
                0 <= fi < final(self).tail.n_carriers && 0 <= q < 184 && q != m
                    ==> #[trigger] final(self).allsum_tail@[fi * 184 + q] == old(
                    self,
                ).allsum_tail@[fi * 184 + q],
    {
        coarse::update_one_half(
            m,
            self.head.ia,
            self.head.n_carriers,
            self.n_freq,
            params::N_TIME,
            &self.spec,
            &mut self.allsum_head,
        );
        coarse::update_one_half(
            m,
            self.tail.ia,
            self.tail.n_carriers,
            self.n_freq,
            params::N_TIME,
            &self.spec,
            &mut self.allsum_tail,
        );
    }

    /// Start the next slot.
    pub fn mark_slot_boundary(&mut self)
        requires
            old(self).well_formed(),
        ensures
            final(self).well_formed(),
            final(self).up_to_date(),
            final(self).same_setup(old(self)),
            final(self).fill == 0,
            final(self).next_pair == 0,
            final(self).shift == 0,
            !final(self).shift_locked,
            final(self).inc_total_us == 0,
            final(self).audio == old(self).audio,
            final(self).spec == old(self).spec,
            final(self).allsum_head == old(self).allsum_head,
            final(self).allsum_tail == old(self).allsum_tail,
    {
        self.next_pair = 0;
        self.fill = 0;
        self.shift = 0;
        self.shift_locked = false;
        self.peak_abs = 1;
        self.inc_total_us = 0;
    }

    /// Account for time spent on the slot.
    pub fn add_time(&mut self, us: i64)
        requires
            old(self).well_formed(),
            i64::MIN <= old(self).inc_total_us + us <= i64::MAX,
        ensures
            final(self).well_formed(),
            old(self).up_to_date() ==> final(self).up_to_date(),
            final(self).same_setup(old(self)),
            final(self).inc_total_us == old(self).inc_total_us + us,
            final(self).audio == old(self).audio,
            final(self).fill == old(self).fill,
            final(self).spec == old(self).spec,
            final(self).allsum_head == old(self).allsum_head,
            final(self).allsum_tail == old(self).allsum_tail,
            final(self).next_pair == old(self).next_pair,
            final(self).shift == old(self).shift,
            final(self).shift_locked == old(self).shift_locked,
            final(self).peak_abs == old(self).peak_abs,
    {
        let ghost start = *self;
        self.inc_total_us = self.inc_total_us + us;
        proof {
            if start.up_to_date() {
                assert forall|j: int| 0 <= j < self.next_pair implies #[trigger] self.pair_holds(
                    j,
                ) by {
                    assert(start.pair_holds(j));
                }
            }
        }
    }

    /// Time spent on the slot, in microseconds.
    pub fn last_slot_inc_us(&self) -> (us: i64)
        ensures
            us == self.inc_total_us,
    {
        self.inc_total_us
    }

    /// Hand over the spectra, if all are there; empty ones take their place.
    pub fn take_spec(&mut self) -> (taken: Option<Spectrogram>)
        requires
            old(self).well_formed(),
        ensures
            final(self).well_formed(),
            final(self).same_setup(old(self)),
            taken is Some <==> old(self).next_pair == 92,
            taken is None ==> *final(self) == *old(self),
            taken matches Some(spec) ==> {
                &&& spec.well_formed()
                &&& spec.n_freq == old(self).n_freq
                &&& spec.n_time == 184
                &&& spec.data == old(self).spec
                &&& final(self).spec@ == Seq::new(old(self).spec@.len(), |x: int| 0u16)
                &&& final(self).allsum_head == old(self).allsum_head
                &&& final(self).allsum_tail == old(self).allsum_tail
                &&& final(self).next_pair == old(self).next_pair
                &&& final(self).fill == old(self).fill
                &&& final(self).audio == old(self).audio
                &&& final(self).shift == old(self).shift
                &&& final(self).shift_locked == old(self).shift_locked
                &&& final(self).peak_abs == old(self).peak_abs
                &&& final(self).inc_total_us == old(self).inc_total_us
            },
    {
        if self.next_pair < params::N_PAIRS {
            return None;
        }
        let n_freq: usize = self.n_freq;
        let mut fresh: Vec<u16> = vec![0u16; n_freq * 184];
        assert(fresh@ =~= Seq::new(self.spec@.len(), |x: int| 0u16));
        std::mem::swap(&mut self.spec, &mut fresh);
        Some(Spectrogram::from_parts(n_freq, params::N_TIME, fresh))
    }

    /// Hand over the spectra and the window sums of both halves of the band,
    /// if all are there; empty ones take their place.
    pub fn take_spec_and_allsum(&mut self) -> (taken: Option<(Spectrogram, Vec<u32>, Vec<u32>)>)
        requires
            old(self).well_formed(),
        ensures
            final(self).well_formed(),
            final(self).same_setup(old(self)),
            taken is Some <==> old(self).next_pair == 92,
            taken is None ==> *final(self) == *old(self),
            taken matches Some((spec, head, tail)) ==> {
                &&& spec.well_formed()
                &&& spec.n_freq == old(self).n_freq
                &&& spec.n_time == 184
                &&& spec.data == old(self).spec
                &&& head == old(self).allsum_head
                &&& tail == old(self).allsum_tail
                &&& old(self).up_to_date() ==> {
                    &&& coarse::is_allsum(
                        &spec,
                        old(self).head.ia as int,
                        old(self).head.n_carriers as int,
                        head@,
                    )
                    &&& coarse::is_allsum(
                        &spec,
                        old(self).tail.ia as int,
                        old(self).tail.n_carriers as int,
                        tail@,
                    )
                }
                &&& final(self).spec@ == Seq::new(old(self).spec@.len(), |x: int| 0u16)
                &&& final(self).allsum_head@ == Seq::new(
                    old(self).allsum_head@.len(),
                    |x: int| 0u32,
                )
                &&& final(self).allsum_tail@ == Seq::new(
                    old(self).allsum_tail@.len(),
                    |x: int| 0u32,
                )
                &&& final(self).next_pair == old(self).next_pair
                &&& final(self).fill == old(self).fill
                &&& final(self).audio == old(self).audio
                &&& final(self).shift == old(self).shift
                &&& final(self).shift_locked == old(self).shift_locked
                &&& final(self).peak_abs == old(self).peak_abs
                &&& final(self).inc_total_us == old(self).inc_total_us
            },
    {
        if self.next_pair < params::N_PAIRS {
            return None;
        }
        let ghost start = *self;
        let n_freq: usize = self.n_freq;
        let mut fresh_spec: Vec<u16> = vec![0u16; n_freq * 184];
        let mut fresh_head: Vec<u32> = vec![0u32; self.head.n_carriers * 184];
        let mut fresh_tail: Vec<u32> = vec![0u32; self.tail.n_carriers * 184];
        assert(fresh_spec@ =~= Seq::new(self.spec@.len(), |x: int| 0u16));
        assert(fresh_head@ =~= Seq::new(self.allsum_head@.len(), |x: int| 0u32));
        assert(fresh_tail@ =~= Seq::new(self.allsum_tail@.len(), |x: int| 0u32));
        std::mem::swap(&mut self.spec, &mut fresh_spec);
        std::mem::swap(&mut self.allsum_head, &mut fresh_head);
        std::mem::swap(&mut self.allsum_tail, &mut fresh_tail);
        let spec: Spectrogram = Spectrogram::from_parts(n_freq, params::N_TIME, fresh_spec);
        proof {
            if start.up_to_date() {
                assert forall|fi: int, m: int|
                    0 <= fi < start.head.n_carriers && 0 <= m < spec.n_time implies #[trigger] fresh_head@[
                fi * spec.n_time + m] == coarse::window_sum(
                    spec.data@,
                    spec.n_freq as int,
                    m,
                    start.head.ia + fi,
                    16,
                ) by {
                    assert(sums_hold(
                        start.spec@,
                        n_freq as int,
                        start.head,
                        start.allsum_head@,
                        m,
                    ));
                    assert(fresh_head@[fi * 184 + m] == start.allsum_head@[fi * 184 + m]);
                }
                assert forall|fi: int, m: int|
                    0 <= fi < start.tail.n_carriers && 0 <= m < spec.n_time implies #[trigger] fresh_tail@[
                fi * spec.n_time + m] == coarse::window_sum(
                    spec.data@,
                    spec.n_freq as int,
                    m,
                    start.tail.ia + fi,
                    16,
                ) by {
                    assert(sums_hold(
                        start.spec@,
                        n_freq as int,
                        start.tail,
                        start.allsum_tail@,
                        m,
                    ));
                    assert(fresh_tail@[fi * 184 + m] == start.allsum_tail@[fi * 184 + m]);
                }
            }
        }
        Some((spec, fresh_head, fresh_tail))
    }
}

/// The peak is that of the samples counted.
proof fn lemma_peak_stable(a: Seq<i16>, b: Seq<i16>, n: int)
    requires
        0 <= n <= a.len(),
        a.len() == b.len(),
        forall|x: int| 0 <= x < n ==> #[trigger] a[x] == b[x],
    ensures
        spectrogram::peak_size(a, n) == spectrogram::peak_size(b, n),
    decreases n,
{
    if n > 0 {
        lemma_peak_stable(a, b, n - 1);
        assert(a[n - 1] == b[n - 1]);
    }
}

proof fn lemma_peak_bounds(a: Seq<i16>, n: int)
    requires
        0 <= n <= a.len(),
    ensures
        1 <= spectrogram::peak_size(a, n) <= 32768,
    decreases n,
{
    if n > 0 {
        lemma_peak_bounds(a, n - 1);
    }
}

/// Pair `j` is ready once its last sample is there.
proof fn lemma_ready(j: int, fill: int)
    requires
        0 <= j,
        0 <= fill,
    ensures
        j < pairs_ready(fill) <==> j < 92 && (2 * j + 1) * 960 + 1920 <= fill,
{
}

proof fn lemma_ready_grows(a: int, b: int)
    requires
        0 <= a <= b,
    ensures
        pairs_ready(a) <= pairs_ready(b),
{
}

/// Samples that come later do not change a pair that is ready.
proof fn lemma_frame_stable(
    a: Seq<i16>,
    b: Seq<i16>,
    fill: int,
    j: int,
    shift: nat,
    window: Seq<i16>,
)
    requires
        a.len() == b.len(),
        fill <= a.len(),
        0 <= j,
        1920 * j + 2880 <= fill,
        forall|x: int| 0 <= x < fill ==> #[trigger] a[x] == b[x],
    ensures
        spectrogram::paired_frame(a, 1920 * j, 1920 * j + 960, shift, window)
            == spectrogram::paired_frame(b, 1920 * j, 1920 * j + 960, shift, window),
{
    assert(spectrogram::paired_frame(a, 1920 * j, 1920 * j + 960, shift, window)
        =~= spectrogram::paired_frame(b, 1920 * j, 1920 * j + 960, shift, window));
}

/// Rows of earlier pairs end before those of pair `j` begin.
proof fn lemma_rows_apart(n_freq: int, p: int, j: int)
    requires
        0 < n_freq,
        0 <= p <= j,
    ensures
        0 <= 2 * p * n_freq,
        (2 * p + 1) * n_freq == 2 * p * n_freq + n_freq,
        p < j ==> 2 * p * n_freq + 2 * n_freq <= 2 * j * n_freq,
{
    assert(0 <= 2 * p * n_freq) by (nonlinear_arith)
        requires
            0 <= p,
            0 < n_freq,
    ;
    assert((2 * p + 1) * n_freq == 2 * p * n_freq + n_freq) by (nonlinear_arith);
    if p < j {
        assert(2 * p * n_freq + 2 * n_freq <= 2 * j * n_freq) by (nonlinear_arith)
            requires
                p + 1 <= j,
                0 < n_freq,
        ;
    }
}

/// Later rows do not change the window sums of earlier ones.
proof fn lemma_sums_stable(
    a: Seq<u16>,
    b: Seq<u16>,
    n_freq: int,
    j: int,
    band: Band,
    before: Seq<u32>,
    after: Seq<u32>,
    m: int,
)
    requires
        1 <= n_freq,
        0 <= m < 2 * j,
        forall|x: int| 0 <= x < 2 * j * n_freq ==> #[trigger] a[x] == b[x],
        forall|fi: int|
            0 <= fi < band.n_carriers ==> #[trigger] after[fi * 184 + m] == before[fi * 184 + m],
        sums_hold(a, n_freq, band, before, m),
    ensures
        sums_hold(b, n_freq, band, after, m),
{
    assert forall|fi: int| 0 <= fi < band.n_carriers implies #[trigger] after[fi * 184 + m]
        == coarse::window_sum(b, n_freq, m, band.ia + fi, 16) by {
        assert(before[fi * 184 + m] == coarse::window_sum(a, n_freq, m, band.ia + fi, 16));
        lemma_window_stable(a, b, n_freq, j, m, band.ia + fi, 16);
    }
}

proof fn lemma_window_stable(
    a: Seq<u16>,
    b: Seq<u16>,
    n_freq: int,
    j: int,
    m: int,
    bin: int,
    w: int,
)
    requires
        1 <= n_freq,
        0 <= m < 2 * j,
        0 <= bin,
        forall|x: int| 0 <= x < 2 * j * n_freq ==> #[trigger] a[x] == b[x],
    ensures
        coarse::window_sum(a, n_freq, m, bin, w) == coarse::window_sum(b, n_freq, m, bin, w),
    decreases w,
{
    if w > 0 {
        lemma_window_stable(a, b, n_freq, j, m, bin, w - 1);
        let held = if bin + w - 1 < n_freq {
            bin + w - 1
        } else {
            n_freq - 1
        };
        assert(0 <= m * n_freq + held < 2 * j * n_freq) by (nonlinear_arith)
            requires
                0 <= m <= 2 * j - 1,
                0 <= held < n_freq,
        ;
        assert(a[m * n_freq + held] == b[m * n_freq + held]);
    }
}

} // verus!
