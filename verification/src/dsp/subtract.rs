//! Where a reference signal meets the audio that it is subtracted from.

use vstd::prelude::*;

verus! {

/// The part of a reference that overlaps the audio.
#[derive(Clone, Copy, Debug, PartialEq, Eq, Structural)]
pub struct Overlap {
    /// First sample of the audio.
    pub audio_off: usize,
    /// First sample of the reference.
    pub ref_off: usize,
    pub len: usize,
}

/// Reference sample `i` meets audio sample `start + i`, and both exist.
pub open spec fn meets(start: int, ref_len: int, audio_len: int, i: int) -> bool {
    0 <= i < ref_len && 0 <= start + i < audio_len
}

/// Align a reference that starts at sample `signed_start` of the audio, which
/// may lie before it.
pub fn overlap(signed_start: i64, ref_len: usize, audio_len: usize) -> (o: Option<Overlap>)
    requires
        signed_start > i64::MIN,
        ref_len <= i64::MAX,
        audio_len <= i64::MAX,
    ensures
        match o {
            Some(o) => {
                &&& o.len > 0
                &&& o.audio_off == signed_start + o.ref_off
                &&& forall|i: int|
                    #[trigger] meets(signed_start as int, ref_len as int, audio_len as int, i)
                        <==> o.ref_off <= i < o.ref_off + o.len
            },
            None => forall|i: int|
                !(#[trigger] meets(signed_start as int, ref_len as int, audio_len as int, i)),
        },
        o is Some <==> ref_len > 0 && audio_len > 0 && -ref_len < signed_start < audio_len,
        o matches Some(p) ==> {
            let first = if signed_start < 0 {
                -signed_start
            } else {
                0
            };
            let end = if signed_start + ref_len < audio_len {
                ref_len as int
            } else {
                audio_len - signed_start
            };
            p.ref_off == first && p.audio_off == signed_start + first && p.len == end - first
        },
{
    if signed_start < 0 {
        let skipped: i64 = -signed_start;
        if skipped >= ref_len as i64 {
            return None;
        }
        let ref_off: usize = skipped as usize;
        let left: usize = ref_len - ref_off;
        let len: usize = if left < audio_len {
            left
        } else {
            audio_len
        };
        if len == 0 {
            None
        } else {
            Some(Overlap { audio_off: 0, ref_off, len })
        }
    } else {
        if ref_len == 0 || signed_start >= audio_len as i64 {
            return None;
        }
        let audio_off: usize = signed_start as usize;
        let room: usize = audio_len - audio_off;
        let len: usize = if ref_len < room {
            ref_len
        } else {
            room
        };
        Some(Overlap { audio_off, ref_off: 0, len })
    }
}

/// The overlap holds the samples that lie in the reference and, shifted by its
/// start, in the audio; it is missing where there are none.
pub proof fn law_what_overlaps(
    signed_start: i64,
    ref_len: usize,
    audio_len: usize,
    o: Option<Overlap>,
    i: int,
)
    requires
        signed_start > i64::MIN,
        ref_len <= i64::MAX,
        audio_len <= i64::MAX,
        call_ensures(overlap, (signed_start, ref_len, audio_len), o),
    ensures
        match o {
            Some(p) => p.audio_off - p.ref_off == signed_start && (p.ref_off <= i < p.ref_off
                + p.len <==> 0 <= i < ref_len && 0 <= signed_start + i < audio_len),
            None => !(0 <= i < ref_len && 0 <= signed_start + i < audio_len),
        },
{
}

} // verus!
