use std::cell::RefCell;

use mfsk_core::dsp::subtract::overlap;
use mfsk_core::jt9::decode::{
    decode_at_baseband_with_fft, lag_to_audio_sample, reaches_sync, SYNC_MIN_KEY,
};
use mfsk_core::jt9::softsym;
use mfsk_core::select::order_key;
use mfsk_core::wspr::decode::{
    another_pass, best_alignment, caller_time, is_duplicate, refine_times, Sighting,
};
use mfsk_core::wspr::interleave::{deinterleave_llrs, reverse_bits};
use mfsk_core::wspr::scan::{
    decode_scan, decode_scan_subtract, Refinement, ScanFront, WsprDecode,
};

#[test]
fn bytes_are_reversed() {
    for b in 0..=255u8 {
        assert_eq!(reverse_bits(b), b.reverse_bits());
    }
}

#[test]
fn deinterleaving_follows_reversed_counting() {
    let mut llrs = [0f32; 162];
    for (i, v) in llrs.iter_mut().enumerate() {
        *v = i as f32;
    }
    deinterleave_llrs(&mut llrs);
    assert_eq!(&llrs[..6], &[0.0, 128.0, 64.0, 32.0, 160.0, 96.0]);
    let mut sorted = llrs.to_vec();
    sorted.sort_by(|a, b| a.partial_cmp(b).unwrap());
    assert_eq!(sorted, (0..162).map(|i| i as f32).collect::<Vec<f32>>());
}

#[test]
fn alignment_grid_stays_in_the_audio() {
    assert_eq!(refine_times(1000, 200, 200), vec![800, 1000, 1200]);
    assert_eq!(refine_times(100, 200, 200), vec![100, 300]);
    assert_eq!(refine_times(0, 0, 5), vec![0]);
    assert_eq!(best_alignment(10, &[3, 11, 11, 9]), Some(1));
    assert_eq!(best_alignment(11, &[3, 11, 11, 9]), None);
}

#[test]
fn times_are_given_to_the_caller() {
    let early = caller_time(30000, 36000);
    assert_eq!((early.start_sample, early.signed), (0, -6000));
    let late = caller_time(40000, 36000);
    assert_eq!((late.start_sample, late.signed), (4000, 4000));
}

#[test]
fn one_transmission_is_reported_once() {
    let seen = |same: bool, near: bool, start: usize| Sighting {
        same_message: same,
        near_frequency: near,
        start_sample: start,
    };
    assert!(is_duplicate(&[seen(true, true, 10000)], 1808));
    assert!(!is_duplicate(&[seen(true, true, 10000)], 1807));
    assert!(is_duplicate(&[seen(true, true, 0)], 8192));
    assert!(!is_duplicate(&[seen(false, true, 0), seen(true, false, 0)], 0));
    assert!(!is_duplicate(&[], 0));
    assert!(another_pass(0, 3, 1));
    assert!(!another_pass(0, 3, 0));
    assert!(!another_pass(0, 0, 0));
    assert!(!another_pass(1, 3, 3));
}

#[test]
fn early_references_are_clipped() {
    let o = overlap(-3360, 151680, 180000).unwrap();
    assert_eq!((o.audio_off, o.ref_off, o.len), (0, 3360, 148320));
    let o = overlap(6000, 151680, 180000).unwrap();
    assert_eq!((o.audio_off, o.ref_off, o.len), (6000, 0, 151680));
    let o = overlap(170000, 151680, 180000).unwrap();
    assert_eq!((o.audio_off, o.ref_off, o.len), (170000, 0, 10000));
    assert_eq!(overlap(-151680, 151680, 180000), None);
    assert_eq!(overlap(180000, 151680, 180000), None);
    assert_eq!(overlap(0, 0, 180000), None);
}

#[test]
fn lags_become_samples() {
    assert_eq!(lag_to_audio_sample(95), 0);
    assert_eq!(lag_to_audio_sample(39), 0);
    assert_eq!(lag_to_audio_sample(123), 28 * 432);
    assert_eq!(SYNC_MIN_KEY, order_key(1.5f32.to_bits()));
    assert!(reaches_sync(order_key(1.5f32.to_bits())));
    assert!(!reaches_sync(order_key(1.49f32.to_bits())));
    assert!(!reaches_sync(order_key(f32::INFINITY.to_bits())));
    assert!(!reaches_sync(order_key(f32::NAN.to_bits())));
    assert!(!reaches_sync(order_key(f32::NEG_INFINITY.to_bits())));
}

#[test]
fn bins_wrap_round_the_centre() {
    let c1: Vec<u32> = (0..2000).collect();
    let c2 = softsym::select_bins(&c1, 1000, u32::MAX);
    assert_eq!(c2.len(), softsym::NFFT2);
    assert_eq!((c2[0], c2[756], c2[757], c2[1511]), (1000, 1756, 245, 999));
    let edge = softsym::select_bins(&c1, 100, u32::MAX);
    assert_eq!((edge[0], edge[1511], edge[757]), (100, 99, u32::MAX));
}

#[test]
fn noise_is_measured_around_the_carrier() {
    assert_eq!(softsym::noise_window(1500, 5000), (1400, 1600));
    assert_eq!(softsym::noise_window(50, 5000), (1, 150));
    assert_eq!(softsym::noise_window(4990, 5000), (4890, 4999));
    assert_eq!(softsym::noise_key(&[9, 1, 8, 2, 7]), 7);
    assert_eq!(softsym::window_start(3), 0);
    assert_eq!(softsym::window_start(20), 5);
}

fn isync() -> Vec<u8> {
    let mut pattern = vec![0u8; 85];
    for i in [0, 1, 4, 9, 15, 22, 32, 34, 50, 51, 54, 59, 65, 72, 82, 84] {
        pattern[i] = 1;
    }
    pattern
}

#[test]
fn lags_read_the_right_powers() {
    let (sync, data) = softsym::lag_powers(&isync(), 100);
    assert_eq!((sync.len(), data.len()), (16, 69));
    assert_eq!(&sync[..3], &[100, 116, 164]);
    assert_eq!(data[0], 132);
    let (sync, data) = softsym::lag_powers(&isync(), 291);
    assert_eq!(sync.len() + data.len(), 82);
    // no lag scores: the nominal one is reported, below any threshold
    let (lag, key) = softsym::peakdt9(&|_s: &Vec<usize>, _d: &Vec<usize>| 0, &isync());
    assert_eq!((lag, key), (123, softsym::NO_SCORE_KEY));
    // the first of the best lags
    let score = |s: &Vec<usize>, _d: &Vec<usize>| match s[0] {
        49 | 59 => 0x9000_0000,
        _ => 0x8800_0000,
    };
    assert_eq!(softsym::peakdt9(&score, &isync()), (49, 0x9000_0000));
}

#[test]
fn frames_are_cut_out() {
    let c2: Vec<i32> = (0..1512).collect();
    let c3 = softsym::cut_frame(&c2, 95, -1);
    assert_eq!((c3.len(), c3[0], c3[1359]), (1360, 0, 1359));
    let late = softsym::cut_frame(&c2, 291, -1);
    assert_eq!((late[0], late[1315], late[1316]), (196, 1511, -1));
    let early = softsym::cut_frame(&c2, 39, -1);
    assert_eq!((early[55], early[56]), (-1, 0));
}

#[test]
fn data_symbols_are_compacted() {
    let row: Vec<u32> = (0..85).collect();
    let data = softsym::data_powers(&isync(), &row);
    assert_eq!(data.len(), softsym::N_DATA);
    assert_eq!(&data[..4], &[2, 3, 5, 6]);
    assert_eq!(*data.last().unwrap(), 83);
}

#[test]
fn tones_carry_gray_bits() {
    for tone in 0..8usize {
        let mut bits = 0;
        for m in 0..3usize {
            let (ones, zeros) = softsym::bit_tones(m);
            assert_ne!(ones.contains(&tone), zeros.contains(&tone));
            if ones.contains(&tone) {
                bits |= 1 << m;
            }
        }
        assert_eq!(bits ^ (bits >> 1), tone);
    }
}

#[test]
fn padding_is_dropped() {
    let mut s207 = [0i32; 207];
    for (i, v) in s207.iter_mut().enumerate() {
        *v = i as i32;
    }
    let s206 = softsym::drop_padding(&s207);
    assert_eq!((s206.len(), s206[0], s206[205]), (206, 0, 205));
    let mut keys = vec![0u32; 21];
    assert_eq!(softsym::best_offset(&keys).tenths, 0);
    keys[3] = 0x9000_0000;
    keys[4] = 0x8000_0000;
    let best = softsym::best_offset(&keys);
    assert_eq!((best.tenths, best.around), (-7, (0, 0x9000_0000, 0x8000_0000)));
}

#[test]
fn soft_bits_come_highest_first() {
    let llrs = softsym::symspec2(&|j: usize, ones: [usize; 4], zeros: [usize; 4]| {
        (j, ones[0] + 10 * zeros[1])
    });
    assert_eq!(llrs.len(), 207);
    assert_eq!(&llrs[..3], &[(0, 14), (0, 12), (0, 31)]);
    assert_eq!(llrs[206], (68, 31));
}

#[test]
fn mixing_offset_is_searched() {
    let key = |x: f32| order_key(x.to_bits());
    let best = softsym::afc_simple(&|t: i32| key(100.0 - (t - 7).abs() as f32));
    assert_eq!((best.tenths, best.around), (7, (key(99.0), key(100.0), key(99.0))));
    // one tone spacing is the limit
    let best = softsym::afc_simple(&|t: i32| key(50.0 + t as f32));
    assert_eq!((best.tenths, best.around), (10, (key(60.0), key(60.0), key(60.0))));
    assert_eq!(softsym::afc_simple(&|_t: i32| key(5.0)).tenths, -10);
    assert_eq!(softsym::afc_simple(&|_t: i32| 0).tenths, 0);
}

#[test]
fn only_standard_messages_are_taken() {
    let good = (123i64, order_key(2f32.to_bits()));
    let read = |lag: i64| Some((lag, true));
    let found = decode_at_baseband_with_fft(good, &read).unwrap();
    assert_eq!((found.message, found.start_sample), (123, 28 * 432));
    assert!(decode_at_baseband_with_fft((123, order_key(1f32.to_bits())), &read).is_none());
    assert!(decode_at_baseband_with_fft(good, &|lag: i64| Some((lag, false))).is_none());
    assert!(decode_at_baseband_with_fft(good, &|_lag: i64| None::<(u8, bool)>).is_none());
}

#[test]
fn a_scan_reports_every_transmission_once() {
    let asked: RefCell<Vec<(usize, usize, Option<usize>)>> = RefCell::new(Vec::new());
    let front = ScanFront {
        base: |_c: usize| 10,
        // candidate 1 is better aligned a step later, at the second frequency
        score: |c: usize, t: usize, f: usize| if (c, t, f) == (1, 60200, 1) { 12 } else { 10 },
        decode: |c: usize, t: usize, f: Option<usize>| {
            asked.borrow_mut().push((c, t, f));
            ["one", "one", "", "two"].get(c).filter(|m| !m.is_empty()).copied()
        },
        same: |a: &&str, b: &&str| a == b,
    };
    let set = Refinement { radius: 200, step: 200, n_freqs: 3, pad: 36000 };
    let seen = decode_scan(&front, &set, &[59000, 60000, 70000, 30000]);
    assert_eq!(
        *asked.borrow(),
        vec![(0, 59000, None), (1, 60200, Some(1)), (2, 70000, None), (3, 30000, None)]
    );
    assert_eq!(seen.len(), 2);
    assert_eq!((seen[0].message, seen[0].time.start_sample), ("one", 23000));
    assert_eq!((seen[1].message, seen[1].time.signed), ("two", -6000));
}

#[test]
fn what_is_found_is_subtracted_before_the_next_pass() {
    let at = |message: &'static str, start: usize| WsprDecode {
        message,
        time: caller_time(start, 0),
    };
    let log: RefCell<Vec<Vec<&'static str>>> = RefCell::new(Vec::new());
    let scan = |before: &Vec<WsprDecode<&'static str>>| {
        log.borrow_mut().push(before.iter().map(|d| d.message).collect());
        if before.is_empty() {
            vec![at("strong", 100)]
        } else {
            vec![at("strong", 200), at("weak", 300), at("strong", 9000)]
        }
    };
    let same = |a: &&str, b: &&str| a == b;
    let all = decode_scan_subtract(&scan, &same);
    let found: Vec<(&str, usize)> = all.iter().map(|d| (d.message, d.time.start_sample)).collect();
    assert_eq!(found, vec![("strong", 100), ("weak", 300), ("strong", 9000)]);
    assert_eq!(*log.borrow(), vec![vec![], vec!["strong"]]);
    log.borrow_mut().clear();
    let nothing = |before: &Vec<WsprDecode<&'static str>>| {
        log.borrow_mut().push(before.iter().map(|d| d.message).collect());
        Vec::new()
    };
    assert!(decode_scan_subtract(&nothing, &same).is_empty());
    assert_eq!(log.borrow().len(), 1);
}
