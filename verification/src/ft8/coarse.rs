//! Search for the Costas arrays in the spectra of a slot.
//!
//! For every carrier bin and every shift in time the power at the places of
//! the three Costas arrays is set against the power of all tones there. The
//! sums are integers; the caller turns them into scores and hands the scores
//! back as order keys for the choice of candidates.

use super::params;
use super::spectrogram;
use super::spectrogram::Spectrogram;
use crate::select;
use crate::select::{Near, WithinDistance};
use vstd::prelude::*;

verus! {

/// Spectrum in which a transmission that starts on time begins.
pub const START_FRAME: i32 = 6;

/// Bins that the tones of a carrier take, its own among them.
pub const TONE_SPAN: usize = 16;

/// Shifts that count as the same peak of a carrier.
pub const MLAG: i64 = 10;

/// Peaks of one carrier that become candidates.
pub const MAX_LAGS: usize = 8;

/// Cell of a bin, the last bin standing in for those above it.
pub open spec fn held_cell(cells: Seq<u16>, n_freq: int, m: int, bin: int) -> u16 {
    cells[m * n_freq + (if bin < n_freq {
        bin
    } else {
        n_freq - 1
    })]
}

/// Power of the `j` bins from `bin` on in spectrum `m`.
pub open spec fn window_sum(cells: Seq<u16>, n_freq: int, m: int, bin: int, j: int) -> int
    decreases j,
{
    if j <= 0 {
        0
    } else {
        window_sum(cells, n_freq, m, bin, j - 1) + held_cell(cells, n_freq, m, bin + j - 1)
    }
}

proof fn lemma_window_slides(cells: Seq<u16>, n_freq: int, m: int, bin: int, j: int)
    requires
        0 <= j,
    ensures
        window_sum(cells, n_freq, m, bin + 1, j) + held_cell(cells, n_freq, m, bin) == window_sum(
            cells,
            n_freq,
            m,
            bin,
            j + 1,
        ),
    decreases j,
{
    if j > 0 {
        lemma_window_slides(cells, n_freq, m, bin, j - 1);
        assert(held_cell(cells, n_freq, m, bin + 1 + j - 1) == held_cell(cells, n_freq, m, bin + j));
    } else {
        assert(window_sum(cells, n_freq, m, bin, 1) == window_sum(cells, n_freq, m, bin, 0)
            + held_cell(cells, n_freq, m, bin + 1 - 1));
    }
}

proof fn lemma_window_bounds(cells: Seq<u16>, n_freq: int, m: int, bin: int, j: int)
    requires
        0 <= j,
    ensures
        0 <= window_sum(cells, n_freq, m, bin, j) <= 65535 * j,
    decreases j,
{
    if j > 0 {
        lemma_window_bounds(cells, n_freq, m, bin, j - 1);
    }
}

/// Fill in the window sums of spectrum `m`: entry `fi * n_time + m` of `dst`
/// becomes the power of the sixteen bins from `ia + fi` on. The window slides:
/// each step drops the lowest bin and takes the next one in.
pub fn update_one_half(
    m: usize,
    ia: usize,
    n_carriers: usize,
    n_freq: usize,
    n_time: usize,
    cells: &[u16],
    dst: &mut Vec<u32>,
)
    requires
        1 <= n_carriers,
        1 <= n_freq,
        ia + n_carriers <= n_freq + 1,
        n_freq + 16 <= usize::MAX,
        m < n_time,
        cells@.len() == n_freq * n_time,
        old(dst)@.len() == n_carriers * n_time,
    ensures
        final(dst)@.len() == old(dst)@.len(),
        forall|fi: int|
            0 <= fi < n_carriers ==> #[trigger] final(dst)@[fi * n_time + m] == window_sum(
                cells@,
                n_freq as int,
                m as int,
                ia + fi,
                16,
            ),
        forall|fi: int, q: int|
            0 <= fi < n_carriers && 0 <= q < n_time && q != m ==> #[trigger] final(dst)@[fi * n_time
                + q] == old(dst)@[fi * n_time + q],
{
    let ghost start = dst@;
    let size: usize = cells.len();
    let total: usize = dst.len();
    let mut sum: u32 = 0;
    proof {
        spectrogram::lemma_cell_index(n_freq as int, n_time as int, 0, m as int);
    }
    let row: usize = m * n_freq;
    for j in 0..TONE_SPAN
        invariant
            1 <= n_freq,
            row == m * n_freq,
            row + n_freq <= size,
            size == cells@.len(),
            ia + 16 <= usize::MAX,
            sum == window_sum(cells@, n_freq as int, m as int, ia as int, j as int),
            sum <= 65535 * j,
    {
        let bin: usize = if ia + j < n_freq {
            ia + j
        } else {
            n_freq - 1
        };
        assert(cells@[row + bin] == held_cell(cells@, n_freq as int, m as int, ia + j));
        sum = sum + (cells[row + bin] as u32);
    }
    proof {
        spectrogram::lemma_cell_index(n_time as int, n_carriers as int, m as int, 0);
        assert(0 * n_time == 0) by (nonlinear_arith);
        assert(n_time * n_carriers == n_carriers * n_time) by (nonlinear_arith);
    }
    dst.set(m, sum);
    assert forall|fi: int, q: int| 0 <= fi < n_carriers && 0 <= q < n_time && q
        != m implies #[trigger] dst@[fi * n_time + q] == start[fi * n_time + q] by {
        lemma_entries_differ(n_time as int, fi, q, 0, m as int);
        spectrogram::lemma_cell_index(n_time as int, n_carriers as int, q, fi);
        assert(0 * n_time == 0) by (nonlinear_arith);
        assert(n_time * n_carriers == n_carriers * n_time) by (nonlinear_arith);
    }
    for fi in 1..n_carriers
        invariant
            1 <= fi <= n_carriers,
            1 <= n_freq,
            m < n_time,
            ia + n_carriers <= n_freq + 1,
            n_freq + 16 <= usize::MAX,
            row == m * n_freq,
            row + n_freq <= size,
            size == cells@.len(),
            total == n_carriers * n_time,
            dst@.len() == total,
            start.len() == total,
            sum == window_sum(cells@, n_freq as int, m as int, ia + fi - 1, 16),
            sum <= 65535 * 16,
            forall|q: int|
                0 <= q < fi ==> #[trigger] dst@[q * n_time + m] == window_sum(
                    cells@,
                    n_freq as int,
                    m as int,
                    ia + q,
                    16,
                ),
            forall|p: int, q: int|
                0 <= p < n_carriers && 0 <= q < n_time && q != m ==> #[trigger] dst@[p * n_time + q]
                    == start[p * n_time + q],
    {
        let drop: usize = ia + fi - 1;
        let add_bin: usize = if ia + fi + TONE_SPAN - 1 < n_freq {
            ia + fi + TONE_SPAN - 1
        } else {
            n_freq - 1
        };
        proof {
            lemma_window_slides(cells@, n_freq as int, m as int, ia + fi - 1, 15);
            lemma_window_bounds(cells@, n_freq as int, m as int, ia + fi, 16);
            assert(window_sum(cells@, n_freq as int, m as int, ia + fi, 16) == window_sum(
                cells@,
                n_freq as int,
                m as int,
                ia + fi,
                15,
            ) + held_cell(cells@, n_freq as int, m as int, ia + fi + 15));
            lemma_window_bounds(cells@, n_freq as int, m as int, ia + fi, 15);
            assert(cells@[row + drop] == held_cell(cells@, n_freq as int, m as int, ia + fi - 1));
            assert(cells@[row + add_bin] == held_cell(
                cells@,
                n_freq as int,
                m as int,
                ia + fi + 15,
            ));
            spectrogram::lemma_cell_index(n_time as int, n_carriers as int, m as int, fi as int);
            assert(n_time * n_carriers == n_carriers * n_time) by (nonlinear_arith);
        }
        sum = sum - (cells[row + drop] as u32) + (cells[row + add_bin] as u32);
        let ghost before = dst@;
        dst.set(fi * n_time + m, sum);
        assert forall|q: int| 0 <= q < fi + 1 implies #[trigger] dst@[q * n_time + m]
            == window_sum(cells@, n_freq as int, m as int, ia + q, 16) by {
            if q < fi {
                lemma_entries_differ(n_time as int, q, m as int, fi as int, m as int);
                assert(before[q * n_time + m] == window_sum(
                    cells@,
                    n_freq as int,
                    m as int,
                    ia + q,
                    16,
                ));
                spectrogram::lemma_cell_index(n_time as int, n_carriers as int, m as int, q);
            }
        }
        assert forall|p: int, q: int| 0 <= p < n_carriers && 0 <= q < n_time && q
            != m implies #[trigger] dst@[p * n_time + q] == start[p * n_time + q] by {
            lemma_entries_differ(n_time as int, p, q, fi as int, m as int);
            spectrogram::lemma_cell_index(n_time as int, n_carriers as int, q, p);
            assert(n_time * n_carriers == n_carriers * n_time) by (nonlinear_arith);
            assert(before[p * n_time + q] == start[p * n_time + q]);
        }
    }
}

/// Distinct places of a table stand apart.
proof fn lemma_entries_differ(width: int, p: int, q: int, r: int, s: int)
    requires
        0 <= q < width,
        0 <= s < width,
        p != r || q != s,
        0 <= p,
        0 <= r,
    ensures
        p * width + q != r * width + s,
{
    if p * width + q == r * width + s {
        vstd::arithmetic::div_mod::lemma_fundamental_div_mod_converse(p * width + q, width, p, q);
        vstd::arithmetic::div_mod::lemma_fundamental_div_mod_converse(r * width + s, width, r, s);
    }
}

/// The carriers that are searched: from `ia` up to `ib`, but no higher than
/// lets the uppermost tone stay in the spectrum. Gives the first carrier and
/// their number.
pub fn search_band(ia: usize, ib: usize, n_freq: usize) -> (band: Option<(usize, usize)>)
    requires
        ib < usize::MAX,
    ensures
        ({
            let room = if n_freq >= 16 {
                n_freq - 16
            } else {
                0
            };
            let top = if ib < room {
                ib as int
            } else {
                room
            };
            match band {
                Some((first, count)) => first == ia && ia <= top && count == top - ia + 1,
                None => top < ia,
            }
        }),
{
    let room: usize = if n_freq >= TONE_SPAN {
        n_freq - TONE_SPAN
    } else {
        0
    };
    let top: usize = if ib < room {
        ib
    } else {
        room
    };
    if top < ia {
        None
    } else {
        Some((ia, top - ia + 1))
    }
}

/// A table of window sums for `n_carriers` carriers from `ia` on.
pub open spec fn is_allsum(
    spec: &Spectrogram,
    ia: int,
    n_carriers: int,
    table: Seq<u32>,
) -> bool {
    &&& table.len() == n_carriers * spec.n_time
    &&& forall|fi: int, m: int|
        0 <= fi < n_carriers && 0 <= m < spec.n_time ==> #[trigger] table[fi * spec.n_time + m]
            == window_sum(spec.data@, spec.n_freq as int, m, ia + fi, 16)
}

/// All window sums of a band.
pub fn precompute_coarse_allsum(spec: &Spectrogram, ia: usize, n_carriers: usize) -> (table: Vec<
    u32,
>)
    requires
        spec.well_formed(),
        1 <= n_carriers,
        1 <= spec.n_freq,
        ia + n_carriers <= spec.n_freq + 1,
        spec.n_freq + 16 <= usize::MAX,
        n_carriers * spec.n_time <= usize::MAX,
    ensures
        is_allsum(spec, ia as int, n_carriers as int, table@),
{
    let n_time: usize = spec.n_time;
    let mut table: Vec<u32> = vec![0u32; n_carriers * n_time];
    for m in 0..n_time
        invariant
            n_time == spec.n_time,
            spec.well_formed(),
            1 <= n_carriers,
            1 <= spec.n_freq,
            ia + n_carriers <= spec.n_freq + 1,
            spec.n_freq + 16 <= usize::MAX,
            table@.len() == n_carriers * n_time,
            forall|fi: int, q: int|
                0 <= fi < n_carriers && 0 <= q < m ==> #[trigger] table@[fi * n_time + q]
                    == window_sum(spec.data@, spec.n_freq as int, q, ia + fi, 16),
    {
        let ghost before = table@;
        update_one_half(m, ia, n_carriers, spec.n_freq, n_time, &spec.data, &mut table);
        assert forall|fi: int, q: int| 0 <= fi < n_carriers && 0 <= q < m + 1 implies #[trigger] table@[
        fi * n_time + q] == window_sum(spec.data@, spec.n_freq as int, q, ia + fi, 16) by {
            if q < m {
                assert(table@[fi * n_time + q] == before[fi * n_time + q]);
            } else {
                assert(table@[fi * n_time + m] == window_sum(
                    spec.data@,
                    spec.n_freq as int,
                    m as int,
                    ia + fi,
                    16,
                ));
            }
        }
    }
    table
}

/// The spectrum in which tone `n` of Costas array `bk` lies at a shift.
pub open spec fn costas_frame(bk: int, n: int, lag: int) -> int {
    6 + 2 * (params::COSTAS_POS@[bk] + n) + lag
}

/// Power at the places of the first `n` tones of a Costas array: two bins for
/// each tone, and nothing for tones outside the slot.
pub open spec fn costas_power(spec: &Spectrogram, carrier: int, lag: int, bk: int, n: int) -> int
    decreases n,
{
    if n <= 0 {
        0
    } else {
        let before = costas_power(spec, carrier, lag, bk, n - 1);
        let m = costas_frame(bk, n - 1, lag);
        if 0 <= m < spec.n_time {
            let bin = carrier + 2 * params::COSTAS@[n - 1];
            before + spec.at(bin, m) + spec.at(bin + 1, m)
        } else {
            before
        }
    }
}

/// Power of all tones at the same places.
pub open spec fn costas_background(
    spec: &Spectrogram,
    carrier: int,
    lag: int,
    bk: int,
    n: int,
) -> int
    decreases n,
{
    if n <= 0 {
        0
    } else {
        let before = costas_background(spec, carrier, lag, bk, n - 1);
        let m = costas_frame(bk, n - 1, lag);
        if 0 <= m < spec.n_time {
            before + window_sum(spec.data@, spec.n_freq as int, m, carrier, 16)
        } else {
            before
        }
    }
}

/// The sums from which the score of a carrier at a shift is made, one for each
/// Costas array.
#[derive(Clone, Copy, Debug)]
pub struct CostasSums {
    /// Power at the places of the array.
    pub tone: [u32; 3],
    /// Power of all tones there.
    pub all: [u32; 3],
}

impl CostasSums {
    pub open spec fn measures(&self, spec: &Spectrogram, carrier: int, lag: int) -> bool {
        forall|bk: int|
            0 <= bk < 3 ==> #[trigger] self.tone@[bk] == costas_power(spec, carrier, lag, bk, 7)
                && self.all@[bk] == costas_background(spec, carrier, lag, bk, 7)
    }
}

/// The sums of one carrier at one shift.
pub fn costas_sums(
    spec: &Spectrogram,
    table: &[u32],
    ia: usize,
    n_carriers: usize,
    fi: usize,
    lag: i32,
) -> (sums: CostasSums)
    requires
        spec.well_formed(),
        is_allsum(spec, ia as int, n_carriers as int, table@),
        fi < n_carriers,
        ia + n_carriers + 15 <= spec.n_freq,
        spec.n_time <= 1000000,
        -1000000 <= lag <= 1000000,
    ensures
        sums.measures(spec, ia + fi, lag as int),
{
    let mut tone: [u32; 3] = [0u32; 3];
    let mut all: [u32; 3] = [0u32; 3];
    let carrier: usize = ia + fi;
    let n_time: i32 = spec.n_time as i32;
    let size: usize = table.len();
    for bk in 0..3usize
        invariant
            spec.well_formed(),
            is_allsum(spec, ia as int, n_carriers as int, table@),
            size == table@.len(),
            fi < n_carriers,
            carrier == ia + fi,
            carrier + 16 <= spec.n_freq,
            spec.n_time <= 1000000,
            n_time == spec.n_time,
            -1000000 <= lag <= 1000000,
            forall|q: int|
                0 <= q < bk ==> #[trigger] tone@[q] == costas_power(
                    spec,
                    carrier as int,
                    lag as int,
                    q,
                    7,
                ),
            forall|q: int|
                0 <= q < bk ==> #[trigger] all@[q] == costas_background(
                    spec,
                    carrier as int,
                    lag as int,
                    q,
                    7,
                ),
    {
        let mut t: u32 = 0;
        let mut t0: u32 = 0;
        for n in 0..7usize
            invariant
                bk < 3,
                spec.well_formed(),
                is_allsum(spec, ia as int, n_carriers as int, table@),
                size == table@.len(),
                fi < n_carriers,
                carrier == ia + fi,
                carrier + 16 <= spec.n_freq,
                spec.n_time <= 1000000,
                n_time == spec.n_time,
                -1000000 <= lag <= 1000000,
                t == costas_power(spec, carrier as int, lag as int, bk as int, n as int),
                t0 == costas_background(spec, carrier as int, lag as int, bk as int, n as int),
                t <= 131070 * n,
                t0 <= 1048560 * n,
        {
            let pos: usize = params::COSTAS_POS[bk];
            let step: usize = params::COSTAS[n];
            assert(pos <= 72 && step <= 6) by {
                assert(params::COSTAS_POS@[0] == 0 && params::COSTAS_POS@[1] == 36
                    && params::COSTAS_POS@[2] == 72);
                assert(bk == 0 || bk == 1 || bk == 2);
                lemma_costas_small(n as int);
            }
            let m: i32 = START_FRAME + 2 * (pos as i32 + n as i32) + lag;
            if m >= 0 && m < n_time {
                let frame: usize = m as usize;
                let bin: usize = carrier + 2 * step;
                let low: u16 = spec.power(bin, frame);
                let high: u16 = spec.power(bin + 1, frame);
                t = t + low as u32 + high as u32;
                proof {
                    spectrogram::lemma_cell_index(
                        spec.n_time as int,
                        n_carriers as int,
                        frame as int,
                        fi as int,
                    );
                    assert(spec.n_time * n_carriers == n_carriers * spec.n_time)
                        by (nonlinear_arith);
                    lemma_window_bounds(
                        spec.data@,
                        spec.n_freq as int,
                        frame as int,
                        carrier as int,
                        16,
                    );
                    assert(table@[fi * spec.n_time + frame] == window_sum(
                        spec.data@,
                        spec.n_freq as int,
                        frame as int,
                        ia + fi,
                        16,
                    ));
                }
                t0 = t0 + table[fi * spec.n_time + frame];
            }
        }
        tone[bk] = t;
        all[bk] = t0;
    }
    CostasSums { tone, all }
}

pub proof fn lemma_costas_small(n: int)
    requires
        0 <= n < 7,
    ensures
        params::COSTAS@[n] <= 6,
{
    let c = params::COSTAS@;
    assert(c[0] == 3 && c[1] == 1 && c[2] == 4 && c[3] == 0 && c[4] == 6 && c[5] == 5 && c[6] == 2);
    assert(n == 0 || n == 1 || n == 2 || n == 3 || n == 4 || n == 5 || n == 6);
}

/// The power at the places of a Costas array is part of the power of all tones
/// there, as long as the tones of the carrier lie in the spectrum.
pub proof fn law_background_covers_the_array(
    spec: &Spectrogram,
    carrier: int,
    lag: int,
    bk: int,
    n: int,
)
    requires
        0 <= carrier,
        carrier + 16 <= spec.n_freq,
        0 <= n <= 7,
    ensures
        costas_power(spec, carrier, lag, bk, n) <= costas_background(spec, carrier, lag, bk, n),
    decreases n,
{
    if n > 0 {
        law_background_covers_the_array(spec, carrier, lag, bk, n - 1);
        lemma_costas_small(n - 1);
        let m = costas_frame(bk, n - 1, lag);
        let off = 2 * params::COSTAS@[n - 1];
        lemma_pair_in_window(spec.data@, spec.n_freq as int, m, carrier, off as int, 16);
    }
}

proof fn lemma_pair_in_window(cells: Seq<u16>, n_freq: int, m: int, bin: int, off: int, j: int)
    requires
        0 <= off,
        off + 2 <= j,
        bin + j <= n_freq,
    ensures
        cells[m * n_freq + bin + off] + cells[m * n_freq + bin + off + 1] <= window_sum(
            cells,
            n_freq,
            m,
            bin,
            j,
        ),
    decreases j,
{
    if off + 2 < j {
        lemma_pair_in_window(cells, n_freq, m, bin, off, j - 1);
    } else {
        lemma_window_bounds(cells, n_freq, m, bin, j - 2);
        assert(window_sum(cells, n_freq, m, bin, j) == window_sum(cells, n_freq, m, bin, j - 1)
            + held_cell(cells, n_freq, m, bin + j - 1));
        assert(window_sum(cells, n_freq, m, bin, j - 1) == window_sum(cells, n_freq, m, bin, j - 2)
            + held_cell(cells, n_freq, m, bin + j - 2));
        assert(held_cell(cells, n_freq, m, bin + j - 1) == cells[m * n_freq + (bin + j - 1)]);
        assert(held_cell(cells, n_freq, m, bin + j - 2) == cells[m * n_freq + (bin + j - 2)]);
        assert(m * n_freq + bin + off == m * n_freq + (bin + j - 2));
    }
}

/// The sums of a band at all shifts from `-jz` to `jz`: those of carrier `fi`
/// at shift `lag` stand at `fi (2 jz + 1) + lag + jz`.
pub fn coarse_sums(spec: &Spectrogram, table: &[u32], ia: usize, n_carriers: usize, jz: u32) -> (
    grid: Vec<CostasSums>)
    requires
        spec.well_formed(),
        is_allsum(spec, ia as int, n_carriers as int, table@),
        ia + n_carriers + 15 <= spec.n_freq,
        spec.n_time <= 1000000,
        jz <= 1000000,
    ensures
        grid@.len() == n_carriers * (2 * jz + 1),
        forall|fi: int, x: int|
            0 <= fi < n_carriers && 0 <= x < 2 * jz + 1 ==> (#[trigger] grid@[fi * (2 * jz + 1)
                + x]).measures(spec, ia + fi, x - jz),
{
    let n_lag: u32 = 2 * jz + 1;
    let mut grid: Vec<CostasSums> = Vec::new();
    assert(0 * n_lag == 0) by (nonlinear_arith);
    for fi in 0..n_carriers
        invariant
            spec.well_formed(),
            is_allsum(spec, ia as int, n_carriers as int, table@),
            ia + n_carriers + 15 <= spec.n_freq,
            spec.n_time <= 1000000,
            jz <= 1000000,
            n_lag == 2 * jz + 1,
            grid@.len() == fi * n_lag,
            forall|p: int, x: int|
                0 <= p < fi && 0 <= x < n_lag ==> (#[trigger] grid@[p * n_lag + x]).measures(
                    spec,
                    ia + p,
                    x - jz,
                ),
    {
        let ghost before = grid@;
        for x in 0..n_lag
            invariant
                fi < n_carriers,
                spec.well_formed(),
                is_allsum(spec, ia as int, n_carriers as int, table@),
                ia + n_carriers + 15 <= spec.n_freq,
                spec.n_time <= 1000000,
                jz <= 1000000,
                n_lag == 2 * jz + 1,
                before.len() == fi * n_lag,
                grid@.len() == fi * n_lag + x,
                forall|p: int| 0 <= p < before.len() ==> #[trigger] grid@[p] == before[p],
                forall|y: int|
                    0 <= y < x ==> (#[trigger] grid@[fi * n_lag + y]).measures(
                        spec,
                        ia + fi,
                        y - jz,
                    ),
        {
            let lag: i32 = x as i32 - jz as i32;
            grid.push(costas_sums(spec, table, ia, n_carriers, fi, lag));
        }
        assert((fi + 1) * n_lag == fi * n_lag + n_lag) by (nonlinear_arith);
        assert forall|p: int, x: int| 0 <= p < fi + 1 && 0 <= x < n_lag implies (#[trigger] grid@[p
            * n_lag + x]).measures(spec, ia + p, x - jz) by {
            if p < fi {
                assert(0 <= p * n_lag && p * n_lag + x < fi * n_lag) by (nonlinear_arith)
                    requires
                        0 <= p <= fi - 1,
                        0 <= x < n_lag,
                ;
                assert(grid@[p * n_lag + x] == before[p * n_lag + x]);
                assert(before[p * n_lag + x].measures(spec, ia + p, x - jz));
            } else {
                assert(grid@[fi * n_lag + x].measures(spec, ia + fi, x - jz));
            }
        }
    }
    grid
}

/// Shifts are neighbours up to ten steps.
pub open spec fn lag_positions(n: nat) -> Seq<i64> {
    Seq::new(n, |x: int| x as i64)
}

/// The shifts of one carrier that become candidates: of the admitted ones in
/// descending order of their keys, those more than ten steps from every better
/// one kept, at most eight.
pub open spec fn is_lag_pick(keys: Seq<u32>, admitted: Seq<bool>, picked: Seq<usize>) -> bool {
    exists|near: WithinDistance, order: Seq<usize>|
        {
            &&& near.positions@ == lag_positions(keys.len())
            &&& near.radius == 10
            &&& #[trigger] select::ranks_admitted(keys, admitted, order)
            &&& picked == #[trigger] select::survivors(&near, order, 8, order.len() as int)
        }
}

/// Choose the shifts of one carrier that become candidates. `keys` holds the
/// scores of the shifts as order keys, `admitted` whether a score is finite
/// and reaches the threshold.
pub fn pick_lags(keys: &[u32], admitted: &[bool]) -> (picked: Vec<usize>)
    requires
        admitted@.len() == keys@.len(),
        keys@.len() <= 10000000,
    ensures
        is_lag_pick(keys@, admitted@, picked@),
{
    let mut positions: Vec<i64> = Vec::with_capacity(keys.len());
    for x in 0..keys.len()
        invariant
            keys@.len() <= 10000000,
            positions@.len() == x,
            forall|q: int| 0 <= q < x ==> #[trigger] positions@[q] == q,
    {
        positions.push(x as i64);
    }
    assert(positions@ =~= lag_positions(keys@.len()));
    let order: Vec<usize> = select::rank_admitted(keys, admitted);
    let near: WithinDistance = WithinDistance { positions: positions.as_slice(), radius: MLAG };
    assert forall|t: int| 0 <= t < order@.len() implies near.covers(#[trigger] order@[t] + 1) by {
        assert(order@[t] < keys@.len());
    }
    let picked: Vec<usize> = select::suppress(&near, &order, MAX_LAGS);
    assert(select::ranks_admitted(keys@, admitted@, order@));
    picked
}

/// Which scores reach a threshold.
pub open spec fn reaching(scores: Seq<u32>, min_key: u32) -> Seq<bool> {
    Seq::new(scores.len(), |i: int| scores[i] >= min_key)
}

/// The candidates that remain: of each two neighbours the lesser one's score
/// is struck; those whose score still reaches `min_key` are ranked, and the
/// best `max_cand` are kept.
pub open spec fn is_candidate_list<P: Near>(
    near: &P,
    keys: Seq<u32>,
    min_key: u32,
    max_cand: int,
    kept: Seq<usize>,
) -> bool {
    let scores = select::settled(near, keys, select::ZERO_KEY, keys.len() as int);
    exists|order: Seq<usize>|
        {
            &&& #[trigger] select::ranks_admitted(scores, reaching(scores, min_key), order)
            &&& kept == order.take(
                if max_cand < order.len() {
                    max_cand
                } else {
                    order.len() as int
                },
            )
        }
}

/// Reduce candidates to the best ones that are not neighbours of a better one.
/// Gives their indices in descending order of their scores, and the scores
/// after neighbours have been settled.
pub fn reduce_candidates<P: Near>(near: &P, keys: Vec<u32>, min_key: u32, max_cand: usize) -> (r: (
    Vec<usize>,
    Vec<u32>,
))
    requires
        forall|c: int| c <= keys@.len() ==> #[trigger] near.covers(c),
    ensures
        is_candidate_list(near, keys@, min_key, max_cand as int, r.0@),
        r.1@ == select::settled(near, keys@, select::ZERO_KEY, keys@.len() as int),
{
    let ghost start = keys@;
    let mut scores: Vec<u32> = keys;
    assert(near.covers(scores@.len() as int));
    select::settle(near, &mut scores, select::ZERO_KEY);
    let mut admitted: Vec<bool> = Vec::with_capacity(scores.len());
    for i in 0..scores.len()
        invariant
            admitted@.len() == i,
            forall|q: int| 0 <= q < i ==> #[trigger] admitted@[q] == (scores@[q] >= min_key),
    {
        admitted.push(scores[i] >= min_key);
    }
    assert(admitted@ =~= reaching(scores@, min_key));
    let mut order: Vec<usize> = select::rank_admitted(&scores, &admitted);
    let ghost full = order@;
    assert(select::ranks_admitted(scores@, admitted@, full));
    order.truncate(max_cand);
    assert(order@ =~= full.take(
        if max_cand < full.len() {
            max_cand as int
        } else {
            full.len() as int
        },
    ));
    (order, scores)
}

} // verus!
