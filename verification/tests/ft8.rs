use std::cell::RefCell;

use mfsk_core::fec::ldpc::bp::MinSum;
use mfsk_core::fec::ldpc::code::{LdpcCode, SystematicEncoder};
use mfsk_core::fec::ldpc::crc::crc14;
use mfsk_core::ft8::coarse;
use mfsk_core::ft8::coarse::CostasSums;
use mfsk_core::ft8::decode_block::{decode_block, process_candidates, Frontend, Settings};
use mfsk_core::ft8::llr::{flatten_cs, inflate_llr, rows_of_eight, LlrSet};
use mfsk_core::ft8::params::COSTAS;
use mfsk_core::ft8::refine_fine::{
    best_frequency, best_time, costas_window, fine_refine_3stage, FineRefine, CD0_LEN,
};
use mfsk_core::ft8::search::{
    coarse_sync, coarse_sync_split, coarse_sync_with_allsum, merge_candidates, Candidate,
    SearchFront,
};
use mfsk_core::ft8::spectrogram::{
    cell_power, compute_spectrogram, gain_shift, peak_abs, split_pair, weight_sample, AudioSample,
    FnFft, Iq, Spectrogram,
};
use mfsk_core::ft8::staircase::{
    after_fast, after_full, after_osd, best_grid_point, knows, pass1_limit, refine_candidates,
    refinement_grid, shown_errors, start, DecodeDepth, DecodeResult, GridPoint, OsdResult, Step,
};
use mfsk_core::ft8::symbols::{
    fill_symbol_spectra_into, sym_in_mask, sync_quality, sync_quality_block0, SymMask, ToneSum,
    BASIS_SCRATCH_LEN,
};
use mfsk_core::scalar::Q11i16;
use mfsk_core::select::{order_key, WithinDistance};

fn keys_for(strong: &[(usize, usize)]) -> Vec<[u32; 8]> {
    let mut cs = vec![[0f32; 8]; 79];
    for &(sym, tone) in strong {
        cs[sym][tone] = 1.0;
    }
    cs.iter()
        .map(|row| {
            let mut keys = [0u32; 8];
            for (k, v) in keys.iter_mut().zip(row) {
                *k = order_key(v.to_bits());
            }
            keys
        })
        .collect()
}

#[test]
fn sync_quality_costas_perfect() {
    let mut strong = Vec::new();
    for &sym_offset in &[0usize, 36, 72] {
        for t in 0..7 {
            strong.push((sym_offset + t, COSTAS[t]));
        }
    }
    let keys = keys_for(&strong);
    assert_eq!(sync_quality(&keys), 21);
    assert_eq!(sync_quality_block0(&keys), 7);
}

#[test]
fn silence_has_no_sync() {
    // the last of equally strong tones counts, and it is no Costas tone
    assert_eq!(sync_quality(&keys_for(&[])), 0);
    assert_eq!(sync_quality_block0(&keys_for(&[(0, COSTAS[0])])), 1);
}

#[test]
fn masks() {
    let count = |mask: SymMask| (0..79).filter(|&s| sym_in_mask(s, mask)).count();
    assert_eq!(count(SymMask::SyncOnly), 21);
    assert_eq!(count(SymMask::SyncBlock0), 7);
    assert_eq!(count(SymMask::NotBlock0), 72);
    assert_eq!(count(SymMask::DataOnly), 58);
    assert!(sym_in_mask(36, SymMask::SyncOnly));
    assert!(!sym_in_mask(43, SymMask::SyncOnly));
}

#[test]
fn tone_sums_follow_the_mask() {
    // a rotation by a quarter turn a sample: the oscillator runs 1, i, -1, -i
    let audio: Vec<i16> = (0..4000).map(|k| if k % 4 == 0 { 16384 } else { 0 }).collect();
    let mut out = vec![[ToneSum { re: 7, im: 7 }; 8]; 79];
    let rot: Vec<(i32, i32)> = (0..8).map(|t| if t == 2 { (0, 32767) } else { (32767, 0) }).collect();
    let mut re = vec![0i16; BASIS_SCRATCH_LEN];
    let mut im = vec![0i16; BASIS_SCRATCH_LEN];
    fill_symbol_spectra_into(&mut out, &audio, 0, &rot, SymMask::SyncBlock0, &mut re, &mut im);
    assert_eq!(re[2 * 1920], 32767);
    assert!(out[0][2].re > 480 * 15000);
    assert!(out[0][2].im.abs() < out[0][2].re / 10);
    assert!(out[6].iter().all(|s| s.re == 0 && s.im == 0));
    assert_eq!(out[7], [ToneSum { re: 7, im: 7 }; 8]);
    // before the audio there is silence
    fill_symbol_spectra_into(&mut out, &audio, -1920, &rot, SymMask::SyncBlock0, &mut re, &mut im);
    assert!(out[0].iter().all(|s| s.re == 0 && s.im == 0));
    assert!(out[1][2].re > 480 * 15000);
    // and so there is however far away
    for i0 in [i64::MIN, i64::MAX] {
        fill_symbol_spectra_into(&mut out, &audio, i0, &rot, SymMask::SyncOnly, &mut re, &mut im);
        assert!(out[1].iter().all(|s| s.re == 0 && s.im == 0));
    }
    // two ways to fill all rows in two steps
    let mut other = vec![[ToneSum { re: -3, im: 5 }; 8]; 79];
    for mask in [SymMask::SyncBlock0, SymMask::NotBlock0] {
        fill_symbol_spectra_into(&mut out, &audio, 40, &rot, mask, &mut re, &mut im);
    }
    for mask in [SymMask::SyncOnly, SymMask::DataOnly] {
        fill_symbol_spectra_into(&mut other, &audio, 40, &rot, mask, &mut re, &mut im);
    }
    assert_eq!(out, other);
}

#[test]
fn samples_are_widened_and_scaled() {
    assert_eq!((-128i8).to_i16(), -32768);
    assert_eq!(1i8.to_i16(), 256);
    assert_eq!((-5i16).to_i16(), -5);
    assert_eq!(peak_abs(&[3i16, -9, 4]), 9);
    assert_eq!(peak_abs::<i16>(&[]), 1);
    assert_eq!(gain_shift(1), 8);
    assert_eq!(gain_shift(8192), 1);
    assert_eq!(gain_shift(4096), 2);
    assert_eq!(weight_sample(100, 3, 16384), 400);
    assert_eq!(weight_sample(30000, 3, 16384), 16383);
    assert_eq!(weight_sample(-1, 0, 1), -1);
}

#[test]
fn cells_hold_scaled_power() {
    assert_eq!(cell_power(64, 0), 1);
    assert_eq!(cell_power(300, 400), 61);
    let mut out = vec![Iq { re: 0, im: 0 }; 4096];
    out[1] = Iq { re: 200, im: 0 };
    out[4095] = Iq { re: 200, im: 0 };
    assert_eq!(split_pair(&out, 1), (9, 0));
    out[4095] = Iq { re: -200, im: 0 };
    assert_eq!(split_pair(&out, 1), (0, 9));
}

#[test]
fn spectra_stand_one_after_the_other() {
    let window = vec![16384i16; 1920];
    let mut audio = vec![0i16; 180_000];
    audio[960] = 8192;
    let spec = compute_spectrogram(&audio, 4, &window, &FnFft { f: |b: Vec<Iq>| b });
    assert_eq!((spec.n_freq, spec.n_time, spec.data.len()), (4, 184, 736));
    // gain doubles the sample, the window halves it: 8192 squared over 4096
    assert_eq!(spec.power(0, 1), 16384);
    assert_eq!(spec.power(1, 1), 0);
    assert_eq!(spec.power(0, 0), 0);
}

fn small_spectrogram() -> Spectrogram {
    let (n_freq, n_time) = (40usize, 184usize);
    let mut data = vec![1u16; n_freq * n_time];
    for (bk, &pos) in [0usize, 36, 72].iter().enumerate() {
        for (n, &tone) in COSTAS.iter().enumerate() {
            let frame = 6 + 2 * (pos + n) + 3;
            if frame < n_time {
                data[frame * n_freq + 5 + 2 * tone] = 100 + bk as u16;
            }
        }
    }
    Spectrogram::from_parts(n_freq, n_time, data)
}

#[test]
fn window_sums_cover_sixteen_bins() {
    let spec = small_spectrogram();
    let table = coarse::precompute_coarse_allsum(&spec, 2, 5);
    assert_eq!(table.len(), 5 * 184);
    assert_eq!(table[0], 16);
    let direct: u32 = (0..16).map(|j| spec.power(3 + j, 9) as u32).sum();
    assert_eq!(table[184 + 9], direct);
    assert_eq!(coarse::search_band(2, 6, 40), Some((2, 5)));
}

#[test]
fn the_costas_arrays_stand_out_at_their_lag() {
    let spec = small_spectrogram();
    let table = coarse::precompute_coarse_allsum(&spec, 2, 5);
    let hit = coarse::costas_sums(&spec, &table, 2, 5, 3, 3);
    assert_eq!(hit.tone, [707, 714, 721]);
    assert_eq!(hit.all[0], 700 + 7 * 15);
    let miss = coarse::costas_sums(&spec, &table, 2, 5, 3, 4);
    assert!(miss.tone[0] < 100);
}

#[test]
fn lags_and_candidates_are_thinned_out() {
    let keys: Vec<u32> = vec![5, 9, 8, 1, 7];
    let picked = coarse::pick_lags(&keys, &[true, true, true, false, true]);
    assert_eq!(picked[0], 1);
    let positions = [0i64, 2, 100];
    let near = WithinDistance { positions: &positions, radius: 5 };
    let scores = vec![order_key(2f32.to_bits()), order_key(3f32.to_bits()), order_key(1f32.to_bits())];
    let (kept, settled) =
        coarse::reduce_candidates(&near, scores.clone(), order_key(0.5f32.to_bits()), 10);
    assert_eq!(kept, vec![1, 2]);
    assert_eq!(settled[1], scores[1]);
}

#[test]
fn shapes_of_soft_values() {
    let cs: Vec<[u32; 8]> = (0..79u32)
        .map(|k| {
            let mut row = [0u32; 8];
            for (t, v) in row.iter_mut().enumerate() {
                *v = 8 * k + t as u32;
            }
            row
        })
        .collect();
    let flat = flatten_cs(&cs);
    assert_eq!(flat, (0..632).collect::<Vec<u32>>());
    assert_eq!(rows_of_eight(&flat), cs);
}

#[test]
fn llr_lists_are_fitted_to_174() {
    let short = inflate_llr(&vec![Q11i16(5); 3]);
    assert_eq!((short.len(), short[2].0, short[3].0), (174, 5, 0));
    let long = inflate_llr(&vec![Q11i16(5); 200]);
    assert_eq!(long[173].0, 5);
}

#[test]
fn fine_search() {
    assert_eq!(costas_window(100, 0, 0, CD0_LEN), Some(100));
    assert_eq!(costas_window(100, 2, 6, CD0_LEN), Some(100 + 32 * 78));
    assert_eq!(costas_window(-1, 0, 0, CD0_LEN), None);
    assert_eq!(costas_window(-1, 1, 0, CD0_LEN), Some(1151));
    assert_eq!(costas_window(700, 2, 6, CD0_LEN), None);
    let mut keys = vec![0x9000_0000u32; 21];
    keys[12] = 0x9100_0000;
    keys[15] = 0x9100_0000;
    assert_eq!(best_time(100, 10, &keys), 102);
    assert_eq!(best_time(100, 10, &[0u32; 21]), 100);
}

#[test]
fn nearer_frequency_wins_ties() {
    let mut keys = vec![10u32; 11];
    assert_eq!(best_frequency(&keys), 0);
    keys[1] = 20;
    keys[7] = 20;
    assert_eq!(best_frequency(&keys), 2);
    keys[3] = 20;
    assert_eq!(best_frequency(&keys), -2);
    keys[10] = 21;
    assert_eq!(best_frequency(&keys), 5);
}

#[test]
fn candidates_are_ranked_by_first_array() {
    assert_eq!(refine_candidates(&[3, 7, 7, 1], 3), vec![1, 2, 0]);
    assert_eq!(pass1_limit(None), 30);
    assert_eq!(pass1_limit(Some(75)), 75);
    assert_eq!(best_grid_point(&[12, 14, 14], 12), Some(1));
    assert_eq!(best_grid_point(&[12, 11], 12), None);
    assert_eq!(refinement_grid(0, 0), vec![GridPoint { dt_ms: 0, df_quarters: 0 }]);
    let grid = refinement_grid(3, 3);
    assert_eq!(grid.len(), 9);
    assert_eq!(grid[0], GridPoint { dt_ms: -40, df_quarters: -1 });
    assert_eq!(grid[5], GridPoint { dt_ms: 0, df_quarters: 1 });
    assert_eq!(refinement_grid(3, 1).len(), 3);
}

fn staircase_code() -> (LdpcCode, SystematicEncoder) {
    let (n, k, checks) = (174usize, 91usize, 83usize);
    let mut rows: Vec<Vec<usize>> = vec![Vec::new(); checks];
    let mut columns: Vec<[usize; 3]> = Vec::new();
    for i in 0..k {
        let picks = [i % checks, (i + 27) % checks, (i + 51) % checks];
        columns.push(picks);
        for j in picks {
            rows[j].push(i);
        }
    }
    let parity = rows.clone();
    for p in 0..checks {
        rows[p].push(k + p);
        columns.push([p, p, p]);
    }
    (LdpcCode { n, k, rows, columns }, SystematicEncoder { k, parity })
}

fn clean_llr(encoder: &SystematicEncoder) -> [Q11i16; 174] {
    let mut info = vec![0u8; 77];
    info[3] = 1;
    info[40] = 1;
    let mut bytes = [0u8; 12];
    bytes[0] = 0x10;
    bytes[5] = 0x80;
    let crc = crc14(&bytes);
    for k in (0..14).rev() {
        info.push(((crc >> k) & 1) as u8);
    }
    let word = encoder.encode(&info);
    let mut llr = [Q11i16(0); 174];
    for (l, b) in llr.iter_mut().zip(word) {
        *l = Q11i16(if b == 1 { 8000 } else { -8000 });
    }
    llr
}

#[test]
fn the_staircase_goes_from_cheap_to_dear() {
    let (code, encoder) = staircase_code();
    let rule = MinSum::<Q11i16>::Normalized { alpha: 24576 };
    let good = clean_llr(&encoder);
    let mut bad = good;
    for i in 0..174 {
        bad[i] = Q11i16(if i % 2 == 0 { 3000 } else { -3000 });
    }
    assert!(matches!(start(6, 6), Step::Rejected));
    assert!(matches!(start(7, 6), Step::Fast));
    match after_fast(&code, &rule, &good, DecodeDepth::Bp) {
        Step::Accepted { result, pass } => {
            assert_eq!(pass, 0);
            assert_eq!(result.message77[3], 1);
        }
        _ => panic!("a clean word is accepted"),
    }
    assert!(matches!(after_fast(&code, &rule, &bad, DecodeDepth::Bp), Step::Rejected));
    assert!(matches!(after_fast(&code, &rule, &bad, DecodeDepth::BpAll), Step::Full));
    let third = LlrSet { llra: bad, llrb: bad, llrc: good, llrd: good };
    match after_full(&code, &rule, &third, DecodeDepth::BpAll, 10) {
        Step::Accepted { pass, .. } => assert_eq!(pass, 2),
        _ => panic!("the third variant is accepted"),
    }
    let none = LlrSet { llra: bad, llrb: bad, llrc: bad, llrd: bad };
    assert!(matches!(after_full(&code, &rule, &none, DecodeDepth::BpAll, 20), Step::Rejected));
    assert!(matches!(after_full(&code, &rule, &none, DecodeDepth::BpAllOsd, 11), Step::Rejected));
    assert!(matches!(
        after_full(&code, &rule, &none, DecodeDepth::BpAllOsd, 12),
        Step::Osd { variant: 0, deep: false }
    ));
    assert!(matches!(
        after_full(&code, &rule, &none, DecodeDepth::BpAllOsd, 18),
        Step::Osd { variant: 0, deep: true }
    ));
}

#[test]
fn the_fallback_tries_four_variants() {
    assert!(matches!(after_osd(0, true, None), Step::Osd { variant: 1, deep: true }));
    assert!(matches!(after_osd(3, false, None), Step::Rejected));
    let found = OsdResult { message77: [1; 77], info: vec![1; 91], hard_errors: 9 };
    match after_osd(2, false, Some(found)) {
        Step::Accepted { result, pass } => {
            assert_eq!((pass, result.hard_errors, result.iterations), (6, 9, 0));
            assert_eq!(result.codeword, vec![0u8; 174]);
            assert_eq!(result.info, vec![1u8; 91]);
        }
        _ => panic!("what the fallback finds is accepted"),
    }
    assert_eq!(shown_errors(true, 5), 0);
    assert_eq!(shown_errors(false, 5), 5);
}

#[test]
fn messages_are_recognised() {
    let found = |first: u8, freq: f32| {
        let mut message77 = [0u8; 77];
        message77[0] = first;
        DecodeResult { message77, hard_errors: 0, pass: 0, fast: true, report: freq }
    };
    let results = vec![found(1, 1500.0), found(0, 700.0)];
    assert!(knows(&results, &found(1, 0.0).message77));
    assert!(!knows(&results, &found(2, 0.0).message77));
    assert_eq!(results[0].report, 1500.0);
}

#[test]
fn candidates_are_decoded_in_turn() {
    let (code, encoder) = staircase_code();
    let rule = MinSum::<Q11i16>::Normalized { alpha: 24576 };
    let good = clean_llr(&encoder);
    let mut bad = good;
    for i in 0..174 {
        bad[i] = Q11i16(if i % 2 == 0 { 3000 } else { -3000 });
    }
    let log: RefCell<Vec<(usize, usize)>> = RefCell::new(Vec::new());
    let front = Frontend {
        quality: |c: usize, g: usize| [[3, 6, 2], [7, 9, 9], [15, 1, 1], [8, 8, 8]][c][g],
        fast: |c: usize, _g: usize| if c == 1 { good } else { bad },
        full: |c: usize, g: usize| {
            log.borrow_mut().push((c, g));
            LlrSet { llra: bad, llrb: bad, llrc: bad, llrd: if c == 3 { good } else { bad } }
        },
        osd: |c: usize, _g: usize, v: u8, deep: bool| {
            if c == 2 && v == 1 && !deep {
                Some(OsdResult { message77: [1; 77], info: vec![1; 91], hard_errors: 4 })
            } else {
                None
            }
        },
        readable: |_m: &[u8; 77]| true,
        report: |c: usize, g: usize, _m: &[u8; 77]| (c, g),
    };
    let set = |depth: DecodeDepth| Settings { code: &code, rule: &rule, depth, q_thresh: 6, grid: 3 };
    let all = process_candidates(&set(DecodeDepth::BpAllOsd), &front, &[0, 1, 2, 3]);
    // candidate 0 has no sync; candidate 3 repeats the message of candidate 1
    assert_eq!(all.len(), 2);
    assert_eq!((all[0].report, all[0].pass, all[0].fast), ((1, 1), 0, true));
    assert_eq!((all[1].report, all[1].pass, all[1].fast), ((2, 0), 5, false));
    assert_eq!((all[1].hard_errors, all[1].message77), (4, [1; 77]));
    assert_eq!(*log.borrow(), vec![(2, 0), (3, 0)]);
    let backwards = process_candidates(&set(DecodeDepth::BpAllOsd), &front, &[3, 1]);
    assert_eq!(backwards.len(), 1);
    assert_eq!((backwards[0].report, backwards[0].pass, backwards[0].fast), ((3, 0), 3, false));
    // candidates 2 and 1 have the best first Costas arrays
    let block0 = |c: usize| [1, 4, 6, 2][c];
    let best = decode_block(&set(DecodeDepth::BpAllOsd), &front, &block0, 4, 2);
    assert_eq!(best.iter().map(|r| r.report).collect::<Vec<_>>(), vec![(2, 0), (1, 1)]);
    assert!(decode_block(&set(DecodeDepth::BpAllOsd), &front, &block0, 4, 0).is_empty());
    log.borrow_mut().clear();
    let fast_only = process_candidates(&set(DecodeDepth::Bp), &front, &[0, 1, 2, 3]);
    assert_eq!(fast_only.len(), 1);
    let unreadable = Frontend {
        quality: front.quality,
        fast: front.fast,
        full: front.full,
        osd: front.osd,
        readable: |_m: &[u8; 77]| false,
        report: front.report,
    };
    assert!(process_candidates(&set(DecodeDepth::BpAllOsd), &unreadable, &[0, 1, 2, 3]).is_empty());
}

#[test]
fn refinement_goes_through_three_stages() {
    // a ridge: the best start moves by two samples at the better frequency
    let power = |i: i32, step: i32| {
        let best = if step == 2 { 105 } else { 103 };
        order_key((1000.0 - (i - best).abs() as f32 - 10.0 * (step - 2).abs() as f32).to_bits())
    };
    let r = fine_refine_3stage(&power, 100);
    assert_eq!((r.start, r.step), (105, 2));
    assert_eq!(r.key, order_key(1000f32.to_bits()));
    // nothing to measure: the candidate stays where it is
    let r = fine_refine_3stage(&|_i: i32, _s: i32| 0, 100);
    assert_eq!(r, FineRefine { start: 100, step: 0, key: 0 });
}

#[test]
fn the_search_finds_the_costas_arrays() {
    let spec = small_spectrogram();
    let value = |s: &CostasSums| {
        let tone: u32 = s.tone.iter().sum();
        let all: u32 = s.all.iter().sum();
        tone as f32 / ((all - tone) as f32 / 7.0 + 0.5)
    };
    let front = SearchFront {
        ratio: |s: &CostasSums| order_key(value(s).to_bits()),
        norm: |raw: u32, base: u32| if raw > base { Some(raw) } else { None },
        near: |a: &Candidate, b: &Candidate| a.bin.abs_diff(b.bin) < 2 && a.lag.abs_diff(b.lag) < 2,
    };
    let found = coarse_sync(&front, &spec, 0, 30, 12, 0, 5);
    assert!(!found.is_empty() && found.len() <= 5);
    assert_eq!((found[0].bin, found[0].lag), (5, 3));
    assert!(found[0].around.0 < found[0].around.1 && found[0].around.2 < found[0].around.1);
    for pair in found.windows(2) {
        assert!(pair[0].key >= pair[1].key);
    }
    // a smaller limit cuts the list, and no more
    let many = coarse_sync(&front, &spec, 0, 30, 12, 0, 50);
    assert!(many.len() > 5);
    for limit in 0..=many.len() {
        assert_eq!(coarse_sync(&front, &spec, 0, 30, 12, 0, limit), many[..limit]);
    }
    assert!(coarse_sync(&front, &spec, 25, 30, 12, 0, 5).is_empty());
    assert!(coarse_sync(&front, &spec, 0, 30, 12, u32::MAX, 5).is_empty());
    // too few bins for eight tones
    let narrow = Spectrogram { n_freq: 4, n_time: 2, data: vec![1; 8] };
    assert!(coarse_sync(&front, &narrow, 1, 30, 12, 0, 5).is_empty());
}

/// A transmission that carries only its Costas arrays, mixed down from
/// 1500 Hz, at 200 samples a second.
fn synth_baseband(freq_hz: f32, dt_sec: f32) -> Vec<(f32, f32)> {
    let mut tones = [0usize; 79];
    for (i, &c) in COSTAS.iter().enumerate() {
        tones[i] = c;
        tones[36 + i] = c;
        tones[72 + i] = c;
    }
    let mut cd0 = vec![(0f32, 0f32); CD0_LEN];
    let start = ((0.5 + dt_sec) * 200.0).round() as usize;
    let mut phase = 0f32;
    for (k, &tone) in tones.iter().enumerate() {
        for j in 0..32 {
            cd0[start + 32 * k + j] = (phase.cos(), phase.sin());
            phase += std::f32::consts::TAU * (freq_hz - 1500.0 + 6.25 * tone as f32) / 200.0;
            phase %= std::f32::consts::TAU;
        }
    }
    cd0
}

/// Sync power at a start, after mixing by so many half hertz.
fn sync_power(cd0: &[(f32, f32)], i: i32, step: i32) -> f32 {
    let mut total = 0f32;
    for block in 0..3usize {
        for (k, &tone) in COSTAS.iter().enumerate() {
            let Some(start) = costas_window(i, block, k, cd0.len()) else {
                continue;
            };
            let (mut re, mut im) = (0f32, 0f32);
            for j in 0..32usize {
                let at = (start + j) as f32;
                let turns = -0.5 * step as f32 * at / 200.0 - tone as f32 * j as f32 / 32.0;
                let (s, c) = (std::f32::consts::TAU * turns).sin_cos();
                let (x, y) = cd0[start + j];
                re += x * c - y * s;
                im += x * s + y * c;
            }
            total += re * re + im * im;
        }
    }
    total
}

/// Refined time and frequency, in seconds and hertz, and the sync power there.
fn refine(cd0: &[(f32, f32)], initial_dt: f32) -> (f32, f32, f32) {
    let i0 = ((initial_dt + 0.5) * 200.0).round() as i32;
    let power = |i: i32, step: i32| order_key(sync_power(cd0, i, step).to_bits());
    let r = fine_refine_3stage(&power, i0);
    let score = sync_power(cd0, r.start, r.step);
    assert_eq!(r.key, order_key(score.to_bits()));
    (r.start as f32 / 200.0 - 0.5, r.step as f32 * 0.5, score)
}

#[test]
fn freq_snap_zero_offset() {
    let (dt_sec, delf_hz, score) = refine(&synth_baseband(1500.0, 0.0), 0.0);
    assert!(delf_hz.abs() <= 0.5, "expected |delf| <= 0.5, got {delf_hz}");
    assert!(dt_sec.abs() <= 0.02, "expected |dt| <= 20 ms, got {dt_sec}");
    assert!(score > 0.0, "score should be positive on signal");
}

#[test]
fn freq_snap_positive_offset() {
    let (_, delf_hz, _) = refine(&synth_baseband(1500.7, 0.0), 0.0);
    let close_to_grid = (delf_hz - 0.5).abs() < 0.01 || (delf_hz - 1.0).abs() < 0.01;
    assert!(close_to_grid, "expected delf snap to +0.5 or +1.0, got {delf_hz}");
}

#[test]
fn freq_snap_negative_offset() {
    let (_, delf_hz, _) = refine(&synth_baseband(1500.0 - 1.3, 0.0), 0.0);
    let close_to_grid = (delf_hz - (-1.5)).abs() < 0.01 || (delf_hz - (-1.0)).abs() < 0.01;
    assert!(close_to_grid, "expected delf snap to -1.5 or -1.0, got {delf_hz}");
}

#[test]
fn dt_snap_positive() {
    let (dt_sec, _, _) = refine(&synth_baseband(1500.0, 0.04), 0.0);
    assert!((dt_sec - 0.04).abs() <= 0.015, "expected dt = 0.04, got {dt_sec}");
}

#[test]
fn no_signal_low_score() {
    let (_, _, s_signal) = refine(&synth_baseband(1500.0, 0.0), 0.0);
    let (_, _, s_noise) = refine(&vec![(0f32, 0f32); CD0_LEN], 0.0);
    assert!(
        s_signal > 5.0 * s_noise,
        "signal score {s_signal} should dominate noise score {s_noise}",
    );
}

#[test]
fn a_divided_search_keeps_the_best_of_both_halves() {
    let spec = small_spectrogram();
    let front = SearchFront {
        ratio: |s: &CostasSums| s.tone.iter().sum::<u32>(),
        norm: |raw: u32, _base: u32| Some(raw),
        near: |a: &Candidate, b: &Candidate| a.bin == b.bin && a.lag.abs_diff(b.lag) < 2,
    };
    let halves = coarse_sync_split(&front, &spec, 0, 12, 24, 12, 0, 7);
    let head = coarse_sync(&front, &spec, 0, 12, 12, 0, 7);
    let tail = coarse_sync(&front, &spec, 12, 24, 12, 0, 7);
    assert_eq!(halves, merge_candidates(head.clone(), &tail, 7));
    // a tone covers two bins, so that carriers 4 and 5 score alike
    assert_eq!((halves[0].bin, halves[0].lag), (4, 3));
    assert_eq!((halves[1].bin, halves[1].lag), (5, 3));
    let table = coarse::precompute_coarse_allsum(&spec, 0, 13);
    assert_eq!(coarse_sync_with_allsum(&front, &spec, 0, 12, 12, 0, 7, &table), head);
}
