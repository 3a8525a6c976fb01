use mfsk_core::embedded::board::{
    es8311_sequence, lcd_power_sequence, speaker_setup_sequence, speaker_switch, BusScan, RegOp,
};
use mfsk_core::embedded::decoded_list::{
    decoded_row, first_visible, is_doubtful, row_text, row_y, try_row_text, Painter,
};
use mfsk_core::embedded::log_sink::{
    compose, enabled, level_short, line_text, route, LcdPanel, Level, LevelFilter, Route, Staging,
};
use mfsk_core::embedded::pipeline::{
    chunk_messages, load_wav_slot, ms_to_ticks, next_chunk, receive, slot_is_complete, wav_len,
    ChunkMsg, Slot,
};
use mfsk_core::embedded::qso::{QsoManager, QsoState};
use mfsk_core::embedded::stage1_inc::{Band, Stage1};
use mfsk_core::embedded::ui::{StatusInfo, UiState};
use mfsk_core::ft8::coarse::precompute_coarse_allsum;
use mfsk_core::ft8::spectrogram::{compute_spectrogram, FnFft, Iq};

fn wav(samples: &[i16]) -> Vec<u8> {
    let mut bytes = vec![0u8; 44];
    for s in samples {
        bytes.extend_from_slice(&s.to_le_bytes());
    }
    bytes
}

#[test]
fn recordings_become_slots() {
    let slot = load_wav_slot(&wav(&[1, -2, i16::MIN, i16::MAX]));
    assert_eq!(slot.len(), 180_000);
    assert_eq!(&slot[..5], &[1, -2, i16::MIN, i16::MAX, 0]);
    let long = wav(&vec![7i16; 180_010]);
    assert_eq!(wav_len(&long), 180_000);
    assert_eq!(load_wav_slot(&long).len(), 180_000);
}

#[test]
fn chunks_join_to_the_recording() {
    let samples: Vec<i16> = (0..2500).map(|k| k as i16 - 1000).collect();
    let bytes = wav(&samples);
    assert_eq!(next_chunk(&bytes, 2400).len(), 100);
    let msgs = chunk_messages(&bytes, 4);
    assert_eq!(msgs.len(), 4);
    let mut joined = Vec::new();
    for msg in msgs {
        match msg {
            ChunkMsg::Samples(s) => joined.extend(s),
            ChunkMsg::SlotEnd { wav_idx, total_samples } => {
                assert_eq!((wav_idx, total_samples), (4, 2500));
            }
        }
    }
    assert_eq!(joined, samples);
    assert!(slot_is_complete(168_000));
    assert!(!slot_is_complete(167_999));
    assert_eq!(ms_to_ticks(100, 100), 10);
    assert_eq!(ms_to_ticks(100, 1000), 100);
}

/// A transform that hands its input back.
fn same(buf: Vec<Iq>) -> Vec<Iq> {
    buf
}

fn stage() -> Stage1<FnFft<fn(Vec<Iq>) -> Vec<Iq>>> {
    let head = Band { ia: 2, n_carriers: 10 };
    let tail = Band { ia: 12, n_carriers: 8 };
    Stage1::new(40, head, tail, vec![16384i16; 1920], FnFft { f: same })
}

#[test]
fn spectra_grow_with_the_audio() {
    let mut s = stage();
    assert!(s.push_chunk(&vec![100i16; 11_999]));
    s.advance_pairs();
    assert_eq!((s.next_pair, s.shift_locked), (0, false));
    assert!(s.push_chunk(&[100]));
    s.advance_pairs();
    assert!(s.shift_locked);
    assert_eq!(s.shift, 8);
    assert_eq!(s.next_pair, (12_000 - 2880) / 1920 + 1);
    assert!(!s.push_chunk(&vec![0i16; 180_000]));
    assert_eq!(s.fill, 12_000);
    assert!(s.take_spec().is_none());
    s.add_time(30);
    s.add_time(12);
    assert_eq!(s.last_slot_inc_us(), 42);
    s.mark_slot_boundary();
    assert_eq!((s.fill, s.next_pair, s.last_slot_inc_us()), (0, 0, 0));
}

#[test]
fn a_slot_comes_out_at_its_end() {
    let mut s = stage();
    let samples: Vec<i16> = (0..180_000).map(|k| ((k * 37) % 2000) as i16 - 1000).collect();
    let bytes = wav(&samples);
    let mut slots = Vec::new();
    for msg in chunk_messages(&bytes, 1) {
        if let Some(slot) = receive(&mut s, msg) {
            slots.push(slot);
        }
    }
    assert_eq!(slots.len(), 1);
    let slot = &slots[0];
    assert_eq!(slot.wav_idx, 1);
    assert_eq!(slot.audio, samples);
    assert_eq!(slot.spec.n_time, 184);
    assert_eq!(slot.allsum_head, precompute_coarse_allsum(&slot.spec, 2, 10));
    assert_eq!(slot.allsum_tail, precompute_coarse_allsum(&slot.spec, 12, 8));
    assert_eq!(s.fill, 0);
    // a slot that is too short for all spectra is sent on all the same
    let short = &samples[..2500];
    let messages = chunk_messages(&wav(short), 4);
    let sizes: Vec<usize> = messages
        .iter()
        .map(|m| match m {
            ChunkMsg::Samples(chunk) => chunk.len(),
            ChunkMsg::SlotEnd { total_samples, .. } => *total_samples,
        })
        .collect();
    assert_eq!(sizes, vec![1200, 1200, 100, 2500]);
    let slots: Vec<Slot> = messages.into_iter().filter_map(|m| receive(&mut s, m)).collect();
    assert_eq!(slots.len(), 1);
    let slot = &slots[0];
    assert_eq!((slot.wav_idx, &slot.audio[..]), (4, short));
    let whole = compute_spectrogram(short, 40, &[16384i16; 1920], &FnFft { f: same });
    assert_eq!(slot.spec.data, whole.data);
    assert!(slot.spec.data.iter().any(|&c| c > 0));
    assert_eq!(slot.allsum_head, precompute_coarse_allsum(&whole, 2, 10));
    assert_eq!(slot.allsum_tail, precompute_coarse_allsum(&whole, 12, 8));
    assert_eq!((s.fill, s.next_pair), (0, 0));
    // a slot without its audio gives nothing
    assert!(receive(&mut s, ChunkMsg::SlotEnd { wav_idx: 2, total_samples: 0 }).is_none());
}

#[test]
fn spectra_are_handed_over_once_complete() {
    let mut s = stage();
    assert!(s.push_chunk(&vec![50i16; 180_000]));
    s.advance_pairs();
    let spec = s.take_spec().unwrap();
    assert!(spec.data.iter().any(|&c| c > 0));
    let (empty, _, _) = s.take_spec_and_allsum().unwrap();
    assert!(empty.data.iter().all(|&c| c == 0));
}

fn texts(lines: Vec<&heapless::String<80>>) -> Vec<String> {
    lines.into_iter().map(|l| line_text(l).to_string()).collect()
}

#[test]
fn the_panel_scrolls() {
    let mut panel = LcdPanel::new();
    assert!(panel.is_empty());
    assert!(panel.drain_dirty().is_none());
    for i in 0..14 {
        panel.push(&format!("line {i}"));
    }
    assert_eq!(panel.len(), 12);
    assert!(!panel.is_empty());
    let lines = texts(panel.iter_chronological());
    assert_eq!(lines[0], "line 2");
    assert_eq!(lines[11], "line 13");
    assert_eq!(texts(panel.drain_dirty().unwrap()).len(), 12);
    assert!(panel.drain_dirty().is_none());
    panel.push(&"x".repeat(100));
    assert_eq!(texts(panel.iter_chronological())[11], "x".repeat(80));
}

#[test]
fn waiting_lines_reach_the_panel_in_order() {
    let mut staging = Staging::new();
    for i in 0..40 {
        staging.push(&format!("boot {i}"));
    }
    let mut panel = LcdPanel::new();
    staging.flush(&mut panel);
    let lines = texts(panel.iter_chronological());
    assert_eq!(lines.len(), 12);
    assert_eq!((lines[0].as_str(), lines[11].as_str()), ("boot 28", "boot 39"));
    panel.drain_dirty();
    staging.flush(&mut panel);
    assert!(panel.drain_dirty().is_none());
    assert_eq!(route(true, true), Route::Panel);
    assert_eq!(route(false, true), Route::Staging);
    assert_eq!(route(false, false), Route::Dropped);
}

#[test]
fn few_waiting_lines_are_all_kept() {
    let mut staging = Staging::new();
    staging.push("a");
    staging.push("b");
    let mut panel = LcdPanel::new();
    panel.push("0");
    staging.flush(&mut panel);
    assert_eq!(texts(panel.iter_chronological()), vec!["0", "a", "b"]);
}

#[test]
fn lines_are_put_together_from_pieces() {
    let long = "y".repeat(79);
    assert_eq!(line_text(&compose(&["I", " ", "hello"])), "I hello");
    assert_eq!(line_text(&compose(&["W", " ", &long, "z"])), "W ");
    assert_eq!(level_short(Level::Error), "E");
    assert_eq!(level_short(Level::Warn), "W");
    assert_eq!(level_short(Level::Info), "I");
    assert_eq!(level_short(Level::Debug), "D");
    assert_eq!(level_short(Level::Trace), "T");
    assert!(enabled(Level::Info, LevelFilter::Info));
    assert!(!enabled(Level::Debug, LevelFilter::Info));
    assert!(!enabled(Level::Error, LevelFilter::Off));
}

#[test]
fn rows_show_strength_frequency_and_text() {
    let row = decoded_row("CQ JA1ABC PM95", 1500, -7, 3, 1);
    assert_eq!(row_text(&row).as_str(), " -7 1500 CQ JA1ABC PM");
    assert!(!is_doubtful(&row));
    let loud = decoded_row("73", 65535, 99, 24, 1);
    assert_eq!(row_text(&loud).as_str(), "+30 65535 73!");
    assert!(is_doubtful(&loud));
    let quiet = decoded_row("", 5, 0, 300, 1);
    assert_eq!(row_text(&quiet).as_str(), " +0    5 !");
    assert_eq!(quiet.hard_errors, 255);
    let faint = decoded_row("CQ", 200, -99, 0, 1);
    assert_eq!(row_text(&faint).as_str(), "-30  200 CQ");
    let long = decoded_row("ABCDEFGHIJKLMNOPQRSTUVWXYZ", 1, 1, 0, 1);
    assert_eq!(long.msg.as_str(), "ABCDEFGHIJKLMNOPQRSTUV");
}

#[test]
fn characters_are_not_cut_in_two() {
    let row = decoded_row("ABCDEFGHIJK\u{e9}Z", 1500, 0, 0, 1);
    assert!(try_row_text(&row).is_none());
    let fine = decoded_row("ABCDEFGHIJ\u{e9}Z", 1500, 0, 0, 1);
    assert_eq!(try_row_text(&fine).unwrap().as_str(), " +0 1500 ABCDEFGHIJ\u{e9}");
}

#[test]
fn the_newest_rows_are_visible() {
    assert_eq!(first_visible(3), 0);
    assert_eq!(first_visible(16), 9);
    assert_eq!(row_y(0), 117);
    assert_eq!(row_y(6), 213);
}

#[test]
fn the_ring_of_rows_keeps_sixteen() {
    let mut ui = UiState::new();
    assert_eq!((ui.decoded_len(), ui.dirty_seq()), (0, 0));
    for i in 0..20u16 {
        ui.push_decode(decoded_row("CQ", i, 0, 0, 0));
    }
    assert_eq!((ui.decoded_len(), ui.dirty_seq()), (16, 20));
    let shown: Vec<u16> = ui.decoded_iter().iter().map(|r| r.df_hz).collect();
    assert_eq!(shown, (4..20).collect::<Vec<u16>>());
    ui.set_free_heap(10_000);
    assert_eq!((ui.status.free_heap_kb, ui.dirty_seq()), (9, 20));
    ui.update_status(StatusInfo {
        rig_freq_hz: Some(7_074_000),
        rig_mode: None,
        utc_sod: Some(1),
        free_heap_kb: 5,
    });
    assert_eq!((ui.status.rig_freq_hz, ui.dirty_seq()), (Some(7_074_000), 21));
}

#[test]
fn painting_waits_for_changes() {
    let mut painter = Painter::new();
    assert!(painter.pass(0));
    assert!(!painter.pass(0));
    assert!(painter.pass(3));
    assert_eq!(painter.tick, 3);
}

fn apply(ops: &[RegOp], regs: &mut [u8; 256]) {
    for op in ops {
        let reg = op.register() as usize;
        assert_eq!(op.needs_read(), !matches!(op, RegOp::Write { .. }));
        regs[reg] = op.value(regs[reg]);
    }
}

#[test]
fn the_display_is_powered() {
    let mut regs = [0xA5u8; 256];
    apply(&lcd_power_sequence(), &mut regs);
    assert_eq!(regs[0x16], 0xA1);
    assert_eq!(regs[0x10], 0xA5);
    assert_eq!(regs[0x13], 0xA1);
    assert_eq!(regs[0x11], 0xA5);
    assert_eq!(regs[0x09], 0);
    let mut regs = [0u8; 256];
    apply(&lcd_power_sequence(), &mut regs);
    assert_eq!((regs[0x10], regs[0x11], regs[0x16]), (4, 4, 0));
}

#[test]
fn the_speaker_is_switched() {
    let mut regs = [0xFFu8; 256];
    apply(&speaker_setup_sequence(), &mut regs);
    assert_eq!((regs[0x16], regs[0x10], regs[0x13], regs[0x11]), (0xF7, 0xFF, 0xF7, 0xF7));
    apply(&[speaker_switch(true)], &mut regs);
    assert_eq!(regs[0x11], 0xFF);
    apply(&[speaker_switch(false)], &mut regs);
    assert_eq!(regs[0x11], 0xF7);
    let writes = es8311_sequence();
    assert_eq!(writes.len(), 8);
    assert_eq!((writes[0], writes[6]), ((0x00, 0x80), (0x32, 0x80)));
}

#[test]
fn the_bus_scan_notes_sixteen_devices() {
    let mut scan = BusScan::new();
    for addr in 3u8..=40 {
        scan.note(addr, addr % 2 == 0);
    }
    assert_eq!(scan.devices().len(), 16);
    assert_eq!(&scan.devices()[..3], &[4, 6, 8]);
}

#[test]
fn a_contact_starts_idle() {
    let q = QsoManager::new();
    assert_eq!(q.state, QsoState::Idle);
    assert!(q.my_call.is_empty() && q.my_grid.is_empty());
    assert!(q.dx_call.is_none() && q.tx_report.is_none());
    assert_eq!(q.retries, 0);
}
