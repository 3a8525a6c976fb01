//! What the display shows: decoded messages and the state of the station.

use super::fixed;
use vstd::prelude::*;

verus! {

/// Rows of the ring of decoded messages.
pub const DECODED_ROWS: usize = 16;

/// Bytes of a message.
pub const MESSAGE_BYTES: usize = 22;

/// First line of the list of messages.
pub const ORIGIN_Y: i32 = 114;

/// Lines of the list.
pub const HEIGHT: u32 = 112;

/// Lines of one row.
pub const ROW_PX: u32 = 16;

/// Rows of the list that are visible.
pub const ROWS: usize = 7;

/// Width of a character.
pub const CHAR_W: u32 = 6;

/// Characters that fit into a row.
pub const ROW_CHARS: usize = 22;

/// Errors from which a message counts as doubtful.
pub const DOUBTFUL_ERRORS: u8 = 24;

/// A decoded message, ready to show.
pub struct DecodedRow {
    /// Audio frequency in hertz.
    pub df_hz: u16,
    pub snr_db: i8,
    pub hard_errors: u8,
    pub msg: heapless::String<22>,
    /// Number of the slot.
    pub slot_seq: u32,
}

/// The state of the station.
pub struct StatusInfo {
    /// Dial frequency in hertz.
    pub rig_freq_hz: Option<u32>,
    pub rig_mode: Option<heapless::String<8>>,
    /// Second of the day.
    pub utc_sod: Option<u32>,
    pub free_heap_kb: u32,
}

/// What the decoder writes and the display reads.
pub struct UiState {
    decoded: heapless::Deque<DecodedRow, 16>,
    pub status: StatusInfo,
    dirty_seq: u32,
}

/// A bounded ring takes a new entry at the end and gives up the oldest.
pub open spec fn ring_push<T>(ring: Seq<T>, entry: T, capacity: int) -> Seq<T> {
    if ring.len() >= capacity {
        ring.skip(1).push(entry)
    } else {
        ring.push(entry)
    }
}

/// A ring never outgrows its capacity, and its last entry is the newest.
pub proof fn law_ring_is_bounded<T>(ring: Seq<T>, entry: T, capacity: int)
    requires
        0 < capacity,
        ring.len() <= capacity,
    ensures
        ring_push(ring, entry, capacity).len() <= capacity,
        ring_push(ring, entry, capacity).last() == entry,
        ring.len() < capacity ==> ring_push(ring, entry, capacity).drop_last() == ring,
        ring.len() == capacity ==> ring_push(ring, entry, capacity).drop_last() == ring.skip(1),
{
    assert(ring.push(entry).drop_last() =~= ring);
    assert(ring.skip(1).push(entry).drop_last() =~= ring.skip(1));
}

impl UiState {
    /// The rows kept, oldest first.
    pub closed spec fn rows(&self) -> Seq<DecodedRow> {
        fixed::decoded_rows(self.decoded)
    }

    /// Number of the last change.
    pub closed spec fn changes(&self) -> u32 {
        self.dirty_seq
    }

    /// The state of the station.
    pub closed spec fn station(&self) -> StatusInfo {
        self.status
    }

    /// Nothing decoded, nothing known.
    pub fn new() -> (ui: UiState)
        ensures
            ui.rows() == Seq::<DecodedRow>::empty(),
            ui.changes() == 0,
            ui.station() == (StatusInfo {
                rig_freq_hz: None,
                rig_mode: None,
                utc_sod: None,
                free_heap_kb: 0,
            }),
    {
        UiState {
            decoded: fixed::rows_new(),
            status: StatusInfo {
                rig_freq_hz: None,
                rig_mode: None,
                utc_sod: None,
                free_heap_kb: 0,
            },
            dirty_seq: 0,
        }
    }

    /// Take in a decoded message; the oldest goes when the ring is full.
    pub fn push_decode(&mut self, row: DecodedRow)
        ensures
            final(self).rows() == ring_push(old(self).rows(), row, 16),
            final(self).changes() == (if old(self).changes() == u32::MAX {
                0
            } else {
                old(self).changes() + 1
            }),
            final(self).station() == old(self).station(),
    {
        if fixed::rows_is_full(&self.decoded) {
            let _ = fixed::rows_pop_front(&mut self.decoded);
        }
        let _ = fixed::rows_push_back(&mut self.decoded, row);
        self.bump();
    }

    /// The rows kept, oldest first.
    pub fn decoded_iter(&self) -> (rows: Vec<&DecodedRow>)
        ensures
            rows@.len() == self.rows().len(),
            forall|i: int| 0 <= i < rows@.len() ==> *(#[trigger] rows@[i]) == self.rows()[i],
    {
        let (first, second): (&[DecodedRow], &[DecodedRow]) = fixed::rows_slices(&self.decoded);
        let mut rows: Vec<&DecodedRow> = Vec::new();
        for i in 0..first.len()
            invariant
                rows@.len() == i,
                forall|q: int| 0 <= q < i ==> *(#[trigger] rows@[q]) == first@[q],
        {
            rows.push(&first[i]);
        }
        for i in 0..second.len()
            invariant
                rows@.len() == first@.len() + i,
                forall|q: int| 0 <= q < first@.len() ==> *(#[trigger] rows@[q]) == first@[q],
                forall|q: int|
                    first@.len() <= q < first@.len() + i ==> *(#[trigger] rows@[q]) == second@[q
                        - first@.len()],
        {
            rows.push(&second[i]);
        }
        assert(self.rows() == first@ + second@);
        rows
    }

    /// Number of rows kept.
    pub fn decoded_len(&self) -> (n: usize)
        ensures
            n == self.rows().len(),
            n <= 16,
    {
        fixed::rows_len(&self.decoded)
    }

    /// Number of the last change: a reader that has seen it has nothing to do.
    pub fn dirty_seq(&self) -> (seq: u32)
        ensures
            seq == self.changes(),
    {
        self.dirty_seq
    }

    fn bump(&mut self)
        ensures
            final(self).rows() == old(self).rows(),
            final(self).changes() == (if old(self).changes() == u32::MAX {
                0
            } else {
                old(self).changes() + 1
            }),
            final(self).station() == old(self).station(),
    {
        self.dirty_seq = self.dirty_seq.wrapping_add(1);
    }

    /// Note the memory that is left; this alone is no reason to paint anew.
    pub fn set_free_heap(&mut self, free_bytes: u32)
        ensures
            final(self).rows() == old(self).rows(),
            final(self).changes() == old(self).changes(),
            final(self).station() == (StatusInfo {
                free_heap_kb: free_bytes / 1024,
                ..old(self).station()
            }),
    {
        self.status.free_heap_kb = free_bytes / 1024;
    }

    /// Replace the state of the station.
    pub fn update_status(&mut self, status: StatusInfo)
        ensures
            final(self).station() == status,
            final(self).rows() == old(self).rows(),
            final(self).changes() == (if old(self).changes() == u32::MAX {
                0
            } else {
                old(self).changes() + 1
            }),
    {
        self.status = status;
        self.bump();
    }
}

} // verus!
