use mfsk_core::fec::ldpc::code::SystematicEncoder;
use mfsk_core::select::{FnNear, ZERO_KEY};
use mfsk_core::uvpacket::framing::{
    crc16, pack, pack_to_size, unpack, unpack_header, FrameHeader, PackError, UnpackError,
    HEADER_BYTES, INFO_BYTES_PER_BLOCK,
};
use mfsk_core::uvpacket::interleaver::{build_permutation, deinterleave_llr, interleave};
use mfsk_core::uvpacket::protocol::{data_symbols_per_block, GRAY_4};
use mfsk_core::uvpacket::puncture::{de_puncture_llr, keep_indices, puncture, Mode, K_INFO, N};
use mfsk_core::uvpacket::receive::{
    decode, decode_frames, decode_known_layout, decode_multichannel, RxFront,
};
use mfsk_core::uvpacket::rx;
use mfsk_core::uvpacket::rx::DecodeError;
use mfsk_core::uvpacket::sync;
use mfsk_core::uvpacket::sync_pattern::{
    uvpacket_sync_block, PILOT_SYMBOL_INTERVAL, PREAMBLE_LEN, UVPACKET_COSTAS,
    UVPACKET_PREAMBLE_BPSK_BITS,
};
use mfsk_core::uvpacket::tx::encode;

const ALL_MODES: [Mode; 3] = [Mode::Robust, Mode::Standard, Mode::Fast];

/// Pseudo-random parity equations of a (240, 101) code.
fn test_fec() -> SystematicEncoder {
    let mut state = 0x1234_5678u32;
    let parity = (0..N - K_INFO)
        .map(|_| {
            (0..K_INFO)
                .filter(|_| {
                    state = state.wrapping_mul(0x6C07_8965).wrapping_add(1);
                    (state >> 16) & 1 == 1
                })
                .collect()
        })
        .collect();
    SystematicEncoder { k: K_INFO, parity }
}

fn header_for(mode: Mode, n_blocks: u8) -> FrameHeader {
    FrameHeader {
        mode,
        block_count: n_blocks,
        app_type: 1,
        sequence: 0,
    }
}

#[test]
fn ch_bits_match_keep_indices_len() {
    for mode in ALL_MODES {
        assert_eq!(keep_indices(mode).len(), mode.ch_bits_per_block());
    }
}

#[test]
fn info_bits_always_kept_first() {
    for mode in ALL_MODES {
        let keep = keep_indices(mode);
        for (i, &k) in keep.iter().take(K_INFO).enumerate() {
            assert_eq!(k, i, "{mode:?}: info position {i} not kept first");
        }
    }
}

#[test]
fn keep_indices_sorted_no_dup() {
    for mode in ALL_MODES {
        let keep = keep_indices(mode);
        for w in keep.windows(2) {
            assert!(
                w[0] < w[1],
                "{mode:?}: indices not strictly ascending: {} >= {}",
                w[0],
                w[1]
            );
        }
        assert!(keep.iter().all(|&i| i < N));
    }
}

#[test]
fn puncture_de_puncture_roundtrip() {
    let codeword: Vec<u8> = (0..N).map(|i| (i & 1) as u8).collect();
    for mode in ALL_MODES {
        let punctured = puncture(&codeword, mode);
        assert_eq!(punctured.len(), mode.ch_bits_per_block());

        let llrs: Vec<f32> = punctured
            .iter()
            .map(|&b| if b == 0 { 10.0 } else { -10.0 })
            .collect();
        let expanded = de_puncture_llr(&llrs, mode, 0.0);

        let keep = keep_indices(mode);
        let kept_set: std::collections::HashSet<usize> = keep.iter().copied().collect();
        for i in 0..N {
            if kept_set.contains(&i) {
                let expected = if codeword[i] == 0 { 10.0 } else { -10.0 };
                assert!(
                    (expanded[i] - expected).abs() < 1e-6,
                    "{mode:?}: position {i} llr {} ≠ {expected}",
                    expanded[i]
                );
            } else {
                assert_eq!(expanded[i], 0.0, "{mode:?}: punctured position {i} not 0");
            }
        }
    }
}

#[test]
fn robust_keeps_everything() {
    let keep = keep_indices(Mode::Robust);
    assert_eq!(keep, (0..N).collect::<Vec<_>>());
}

#[test]
fn rates_match_published_design() {
    let cases = [
        (Mode::Robust, 240, 0.421),
        (Mode::Standard, 202, 0.500),
        (Mode::Fast, 152, 0.665),
    ];
    for (mode, expected_ch, expected_rate) in cases {
        assert_eq!(mode.ch_bits_per_block(), expected_ch);
        let rate = K_INFO as f32 / expected_ch as f32;
        assert!(
            (rate - expected_rate).abs() < 0.005,
            "{mode:?}: rate {rate:.3} ≠ {expected_rate}",
        );
    }
}

#[test]
fn header_code_roundtrip() {
    for mode in ALL_MODES {
        let code = mode.header_code();
        assert!(code < 3);
        assert_eq!(Mode::from_header_code(code), Some(mode));
    }
    assert_eq!(Mode::from_header_code(3), None);
    for code in 4u8..=255 {
        assert_eq!(
            Mode::from_header_code(code),
            None,
            "invalid code {code} decoded successfully",
        );
    }
}

#[test]
fn preamble_has_balanced_one_count() {
    let ones = UVPACKET_PREAMBLE_BPSK_BITS.iter().filter(|&&b| b).count();
    assert_eq!(ones, 16);
    assert_eq!(PREAMBLE_LEN - ones, 15);
}

#[test]
fn preamble_autocorrelation_sidelobes_minimal() {
    let bpsk: Vec<i32> = UVPACKET_PREAMBLE_BPSK_BITS
        .iter()
        .map(|&b| if b { -1 } else { 1 })
        .collect();
    let n = bpsk.len() as i32;
    let lag0: i32 = bpsk.iter().map(|x| x * x).sum();
    assert_eq!(lag0, n);
    for lag in 1..(bpsk.len()) {
        let sum: i32 = (0..bpsk.len())
            .map(|i| bpsk[i] * bpsk[(i + lag) % bpsk.len()])
            .sum();
        assert_eq!(sum, -1, "cyclic lag {lag} autocorr = {sum} ≠ -1");
    }
}

#[test]
fn pilot_interval_is_reasonable() {
    assert!((16..=64).contains(&PILOT_SYMBOL_INTERVAL));
}

#[test]
fn sync_block_carries_the_costas_array() {
    let block = uvpacket_sync_block();
    assert_eq!(block.start_symbol, 0);
    assert_eq!(block.pattern, UVPACKET_COSTAS);
}

#[test]
fn parity_is_spread_evenly() {
    assert_eq!(Mode::Robust.parity_kept(), 139);
    assert_eq!(Mode::Standard.parity_kept(), 101);
    assert_eq!(Mode::Fast.parity_kept(), 51);
    let keep = keep_indices(Mode::Fast);
    for w in keep[K_INFO..].windows(2) {
        assert!((2..=3).contains(&(w[1] - w[0])));
    }
}

#[test]
fn encode_returns_expected_sample_count() {
    let fec = test_fec();
    for mode in ALL_MODES {
        for n_blocks in [1u8, 4, 18, 32] {
            let header = header_for(mode, n_blocks);
            let payload_size = (n_blocks as usize) * INFO_BYTES_PER_BLOCK - HEADER_BYTES;
            let payload = vec![0xA5u8; payload_size];
            let tones = encode(&fec, &header, &payload).unwrap();

            let block_data_syms = mode.ch_bits_per_block() / 2;
            let costas_len = UVPACKET_COSTAS.len();
            let total_syms = (n_blocks as usize) * (costas_len + block_data_syms) + costas_len;
            let nsps = 10usize;
            assert_eq!(
                tones.len() * nsps,
                total_syms * nsps,
                "{mode:?} n={n_blocks}: sample count {} != expected {}",
                tones.len() * nsps,
                total_syms * nsps,
            );
        }
    }
}

#[test]
fn encode_rejects_oversize_payload() {
    let header = header_for(Mode::Robust, 1);
    let too_big = vec![0u8; INFO_BYTES_PER_BLOCK];
    let err = encode(&test_fec(), &header, &too_big).unwrap_err();
    assert!(matches!(err, PackError::PayloadTooLarge(_)));
}

#[test]
fn distinct_payloads_produce_distinct_audio() {
    let fec = test_fec();
    let header = header_for(Mode::Standard, 4);
    let a = encode(&fec, &header, b"alpha").unwrap();
    let b = encode(&fec, &header, b"bravo").unwrap();
    assert_eq!(a.len(), b.len());
    let differences: usize = a.iter().zip(b.iter()).filter(|(x, y)| x != y).count();
    assert!(
        differences > a.len() / 4,
        "expected substantial waveform divergence, got {differences} differing samples",
    );
}

#[test]
fn distinct_modes_produce_distinct_audio_lengths() {
    let fec = test_fec();
    let robust = encode(&fec, &header_for(Mode::Robust, 8), b"hi").unwrap();
    let standard = encode(&fec, &header_for(Mode::Standard, 8), b"hi").unwrap();
    let fast = encode(&fec, &header_for(Mode::Fast, 8), b"hi").unwrap();
    assert!(robust.len() > standard.len());
    assert!(standard.len() > fast.len());
}

#[test]
fn full_capacity_qsl_size_payload_encodes() {
    let header = header_for(Mode::Standard, 19);
    let payload = vec![0x42u8; 19 * INFO_BYTES_PER_BLOCK - HEADER_BYTES];
    let tones = encode(&test_fec(), &header, &payload).unwrap();
    assert_eq!(tones.len() * 10, 19 * (4 + 202 / 2) * 10 + 4 * 10);
}

#[test]
fn encode_refuses_fields_out_of_range() {
    let fec = test_fec();
    let mut header = header_for(Mode::Fast, 0);
    assert!(encode(&fec, &header, b"").is_err());
    header.block_count = 33;
    assert_eq!(encode(&fec, &header, b"").unwrap_err(), PackError::BlockCountOutOfRange(33));
    header.block_count = 2;
    header.app_type = 16;
    assert_eq!(encode(&fec, &header, b"").unwrap_err(), PackError::AppTypeOutOfRange(16));
    header.app_type = 15;
    header.sequence = 32;
    assert_eq!(encode(&fec, &header, b"").unwrap_err(), PackError::SequenceOutOfRange(32));
    header.sequence = 31;
    assert!(encode(&fec, &header, b"").is_ok());
}

#[test]
fn check_of_the_usual_text() {
    assert_eq!(crc16(b"123456789"), 0x29B1);
    assert_eq!(crc16(b""), 0xFFFF);
}

#[test]
fn unpack_gives_back_what_was_packed() {
    for mode in ALL_MODES {
        let header = FrameHeader { mode, block_count: 7, app_type: 9, sequence: 30 };
        let frame = pack(&header, b"hello");
        assert_eq!(frame.len(), 9);
        let (back, payload) = unpack(&frame).unwrap();
        assert_eq!(back, header);
        assert_eq!(payload, b"hello");
        for bit in 0..8 * frame.len() {
            let mut broken = frame.clone();
            broken[bit / 8] ^= 0x80 >> (bit % 8);
            assert!(unpack(&broken).is_none(), "bit {bit}");
        }
    }
    assert!(unpack(b"abc").is_none());
}

#[test]
fn sized_frames_are_sealed() {
    let header = header_for(Mode::Robust, 2);
    let frame = pack_to_size(&header, b"payload", 24).unwrap();
    assert_eq!(frame.len(), 24);
    assert_eq!(&frame[4..11], b"payload");
    assert!(frame[11..].iter().all(|&b| b == 0));
    assert_eq!(
        pack_to_size(&header, &[0u8; 21], 24).unwrap_err(),
        PackError::PayloadTooLarge(21)
    );
    assert_eq!(unpack_header(b"ab", Mode::Robust).unwrap_err(), UnpackError::TooShort);
}

#[test]
fn interleaving_is_undone() {
    let perm = build_permutation(3, 4);
    assert_eq!(perm.len(), 12);
    let mut sorted = perm.clone();
    sorted.sort();
    assert_eq!(sorted, (0..12).collect::<Vec<usize>>());
    let word: Vec<u8> = (0..12).collect();
    let sent = interleave(&word, &perm);
    assert_ne!(sent, word);
    let back = deinterleave_llr(&sent, &perm, 3);
    assert_eq!(back.concat(), word);
    assert_eq!(back.len(), 3);
}

#[test]
fn bursts_are_spread_over_the_blocks() {
    let perm = build_permutation(4, 50);
    for window in perm.windows(4) {
        let mut blocks: Vec<usize> = window.iter().map(|p| p / 50).collect();
        blocks.sort();
        assert_eq!(blocks, vec![0, 1, 2, 3]);
    }
}

#[test]
fn gray_neighbours_differ_in_one_bit() {
    assert_eq!(GRAY_4, [0, 1, 3, 2]);
    assert_eq!(data_symbols_per_block(Mode::Robust), 120);
    assert_eq!(data_symbols_per_block(Mode::Standard), 101);
    assert_eq!(data_symbols_per_block(Mode::Fast), 76);
}

#[test]
fn header_span_is_checked() {
    assert!(rx::check_header_span(0, 2531).is_ok());
    assert_eq!(rx::check_header_span(1, 2531), Err(DecodeError::Truncated));
    assert_eq!(rx::check_header_span(usize::MAX, 2531), Err(DecodeError::Truncated));
}

#[test]
fn bits_become_bytes() {
    let bits = [1u8, 0, 1, 0, 0, 0, 0, 1, 1, 1, 1, 1, 0, 0, 0, 0, 1];
    assert_eq!(rx::bits_to_bytes_msb(&bits), vec![0xA1, 0xF0]);
}

fn bits_of(bytes: &[u8]) -> Vec<u8> {
    bytes.iter().flat_map(|b| (0..8).map(move |k| (b >> (7 - k)) & 1)).collect()
}

#[test]
fn frames_are_planned_and_finished() {
    // header word as the receiver reads it, sealed over two blocks of payload
    let header = FrameHeader { mode: Mode::Fast, block_count: 2, app_type: 5, sequence: 17 };
    let mut body = b"abcdefghijkl".to_vec();
    body.extend_from_slice(b"mnopqrstuvwx");
    let sealed = seal(&header, &body);
    let mut first = bits_of(&sealed[..4]);
    first.resize(101, 0);
    let (bytes, plan) = rx::plan_payload(Some(&first), Mode::Fast, 0, 1_000_000).unwrap();
    assert_eq!(plan.n_blocks, 2);
    assert_eq!(plan.payload_syms, 2 * 152 / 2);
    let blocks: Vec<Option<Vec<u8>>> =
        body.chunks(12).map(|c| Some(bits_of(c))).collect();
    let frame = rx::finish_frame(&bytes, &blocks, Mode::Fast).unwrap();
    assert_eq!(frame.payload, body);
    assert_eq!((frame.app_type, frame.sequence, frame.block_count), (5, 17, 2));
    let missing = vec![blocks[0].clone(), None];
    assert_eq!(
        rx::finish_frame(&bytes, &missing, Mode::Fast).err(),
        Some(DecodeError::PayloadFecFailed)
    );
    let mut wrong = blocks.clone();
    wrong[1].as_mut().unwrap()[3] ^= 1;
    assert_eq!(
        rx::finish_frame(&bytes, &wrong, Mode::Fast).err(),
        Some(DecodeError::Crc(UnpackError::CrcMismatch))
    );
    assert_eq!(
        rx::plan_payload(None, Mode::Fast, 0, 1_000_000).err(),
        Some(DecodeError::HeaderFecFailed)
    );
    assert!(matches!(
        rx::plan_payload(Some(&first), Mode::Fast, 0, 3000).err(),
        Some(DecodeError::PayloadTruncated { .. })
    ));
}

/// Header word without the mode, then the check over word and body.
fn seal(header: &FrameHeader, body: &[u8]) -> Vec<u8> {
    let word: u16 = ((header.block_count as u16 - 1) << 11)
        | ((header.app_type as u16) << 7)
        | ((header.sequence as u16) << 2);
    let mut covered = word.to_be_bytes().to_vec();
    covered.extend_from_slice(body);
    let crc = crc16(&covered);
    let mut out = word.to_be_bytes().to_vec();
    out.extend_from_slice(&crc.to_be_bytes());
    out.extend_from_slice(body);
    out
}

#[test]
fn frames_are_received() {
    // frames of two blocks each; other starts have no header
    let mode = Mode::Fast;
    let header = FrameHeader { mode, block_count: 2, app_type: 5, sequence: 17 };
    let body = b"abcdefghijklmnopqrstuvwx".to_vec();
    let sealed = seal(&header, &body);
    let fec = test_fec();
    let mut channel = Vec::new();
    for chunk in body.chunks(12) {
        let mut info = bits_of(chunk);
        info.resize(K_INFO, 0);
        channel.extend(puncture(&fec.encode(&info), mode));
    }
    let on_air = interleave(&channel, &build_permutation(2, mode.ch_bits_per_block()));
    let starts = [1000usize, 5000, 9000, 14_000];
    let front = RxFront {
        header: |at: usize, _m: Mode| {
            if starts.contains(&at) {
                let mut first = bits_of(&sealed[..4]);
                first.resize(K_INFO, 0);
                Some(first)
            } else {
                None
            }
        },
        soft: |_at: usize, _m: Mode, n: usize| {
            assert_eq!(2 * n, on_air.len());
            on_air.iter().map(|&b| if b == 1 { 1 } else { -1 }).collect::<Vec<i32>>()
        },
        fec: |block: &Vec<i32>| {
            assert_eq!(block.len(), N);
            Some(block[..K_INFO].iter().map(|&l| (l > 0) as u8).collect::<Vec<u8>>())
        },
    };
    let frame = decode_known_layout(&front, 20_000, 1000, mode, 0).unwrap();
    assert_eq!(frame.payload, body);
    assert_eq!((frame.app_type, frame.sequence, frame.block_count), (5, 17, 2));
    let refused = |audio_len: usize, at: usize| {
        decode_known_layout(&front, audio_len, at, mode, 0).err()
    };
    assert_eq!(refused(20_000, 2000), Some(DecodeError::HeaderFecFailed));
    assert_eq!(refused(3000, 1000), Some(DecodeError::Truncated));
    assert!(matches!(refused(3600, 1000), Some(DecodeError::PayloadTruncated { .. })));
    let deaf = RxFront { header: &front.header, soft: &front.soft, fec: |_b: &Vec<i32>| None };
    assert_eq!(
        decode_known_layout(&deaf, 20_000, 1000, mode, 0).err(),
        Some(DecodeError::PayloadFecFailed)
    );
    // the third preamble lies within the first frame, which ends at sample 4990
    let picks = [(1060usize, mode), (2060, mode), (9060, mode), (4060, mode)];
    assert_eq!(sync::frame_end(1000, 2, mode), 4990);
    let frames = decode_frames(&front, 20_000, &picks, 0);
    assert_eq!(frames.len(), 2);
    assert!(frames.iter().all(|f| f.payload == body));
    assert!(decode_frames(&front, 20_000, &[(1060, mode), (1060, mode)], 0).len() == 1);
    assert!(decode_frames(&front, 20_000, &[(30, mode)], 0).is_empty());
    // correlations with the three preambles at every offset; mode 2 is sent
    let mut keys = vec![ZERO_KEY + 5; 3 * 18_740];
    keys[3 * 1060 + 2] = ZERO_KEY + 900;
    keys[3 * 9060 + 2] = ZERO_KEY + 100;
    keys[3 * 9060 + 1] = ZERO_KEY + 70;
    let twentyfold = |median: u32| ZERO_KEY + 20 * (median - ZERO_KEY);
    assert_eq!(decode(&front, 20_000, &keys, &twentyfold, 0).len(), 2);
    keys[3 * 9060 + 2] = ZERO_KEY + 99;
    assert_eq!(decode(&front, 20_000, &keys, &twentyfold, 0).len(), 1);
    // every frame of the audio is found
    for start in starts {
        keys[3 * (start + 60) + 2] = ZERO_KEY + 200;
    }
    assert_eq!(decode(&front, 20_000, &keys, &twentyfold, 0).len(), 4);
    assert!(decode(&front, 1330, &keys, &twentyfold, 0).is_empty());
    assert!(decode(&front, 20_000, &[ZERO_KEY; 30], &twentyfold, 0).is_empty());
    // channel 1 is next to channel 0, which is better; channel 2 is too late
    let best = |offset: usize, key: u32| sync::Peak { offset, mode, key };
    let channels = [best(1060, 50), best(9060, 40), best(19_000, 60), best(9060, 30)];
    let near = FnNear { f: |a: usize, b: usize| a.abs_diff(b) == 1 && a.min(b) == 0 };
    let read = |c: usize, start: usize, mode: Mode| {
        assert_eq!(start, channels[c].offset - 60);
        decode_known_layout(&front, 20_000, start, mode, 0).ok()
    };
    let frames = decode_multichannel(&channels, &near, &read, 20_000);
    assert_eq!(frames.iter().map(|f| f.0).collect::<Vec<usize>>(), vec![0, 3]);
}

#[test]
fn default_options() {
    let opts = rx::default_fec_opts();
    assert_eq!((opts.bp_max_iter, opts.osd_depth), (50, 2));
    assert!(opts.ap_mask.is_none());
}

#[test]
fn peaks_are_picked_best_first_and_apart() {
    let peak = |offset: usize, key: u32| sync::Peak { offset, mode: Mode::Standard, key };
    let peaks = [peak(100, 500), peak(105, 900), peak(4000, 700), peak(9000, 10)];
    let picks = sync::pick_peaks(&peaks, 100);
    let offsets: Vec<usize> = picks.iter().map(|p| p.0).collect();
    assert_eq!(offsets, vec![105, 4000]);
    // ten samples are too near, eleven are not
    let peaks = [peak(50, 900), peak(40, 800), peak(39, 700), peak(900, 600), peak(1900, 500)];
    let offsets: Vec<usize> = sync::pick_peaks(&peaks, 100).iter().map(|p| p.0).collect();
    assert_eq!(offsets, vec![39, 50, 900, 1900]);
    assert_eq!(sync::mode_for_index(2), Mode::from_header_code(2));
    assert_eq!(sync::mode_for_index(3), None);
}

#[test]
fn sync_positions() {
    assert_eq!(sync::frame_start(60, 0, 2531), Some(0));
    assert_eq!(sync::frame_start(59, 0, 9999), None);
    assert_eq!(sync::frame_start(160, 101, 9999), None);
    assert_eq!(sync::frame_end(100, 4, Mode::Robust), 100 + (247 + 480) * 10);
    assert_eq!(sync::tap_window(4, 9), Some(0));
    assert_eq!(sync::tap_window(3, 9), None);
    assert_eq!(sync::tap_window(5, 9), None);
    assert_eq!(sync::strongest_mode(&[5, 9, 9]), Mode::Fast);
    let keys = [ZERO_KEY + 1, 7, ZERO_KEY + 9, ZERO_KEY + 4, 8, ZERO_KEY + 2, ZERO_KEY + 3];
    assert_eq!(sync::preamble_bests(&keys), [ZERO_KEY + 4, ZERO_KEY, ZERO_KEY + 9]);
    assert!(sync::has_neighbours(1, 13, 2));
    assert!(!sync::has_neighbours(0, 13, 2));
    assert_eq!(sync::correlation_offsets(1271, 127), 10);
    assert_eq!(sync::preamble_offsets(2000, 127), (50..=70).collect::<Vec<usize>>());
    assert_eq!(sync::preamble_offsets(1312, 127), vec![50, 51]);
    assert!(sync::preamble_offsets(1310, 127).is_empty());
    let hz = [1000i32, 1100, 1900];
    let near = FnNear { f: |a: usize, b: usize| (hz[a] - hz[b]).abs() <= 200 };
    assert_eq!(sync::pick_channels(&[5, 9, 7], &near), vec![1, 2]);
    let best = sync::best_sync(&[0x8000_0000, 0x9000_0000, 0, 0, 0xA000_0000, 0xA000_0000]);
    assert_eq!(best, (1, 1, 0xA000_0000));
}
