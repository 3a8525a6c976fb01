//! Frames out of audio.
//!
//! Filtering, equalisation and the error-correcting code are the caller's,
//! given as functions; what is demodulated in which order, and what becomes of
//! it, is decided here.

use super::puncture::Mode;
use super::rx;
use super::rx::{DecodeError, DecodedFrame, PayloadPlan};
use super::sync;
use super::sync::Peak;
use crate::select;
use crate::select::Near;
use vstd::prelude::*;

verus! {

/// What the receiver asks of its surroundings.
pub struct RxFront<H, L, C> {
    /// Information bits of the header block of a frame that starts at a
    /// sample, if it can be decoded.
    pub header: H,
    /// Soft values of the first so many payload symbols of that frame.
    pub soft: L,
    /// Information bits of a block of soft values, if it can be decoded.
    pub fec: C,
}

/// A frame that could not be decoded.
pub open spec fn fails(r: Result<DecodedFrame, DecodeError>, e: DecodeError) -> bool {
    r matches Err(f) && f == e
}

/// The frame that header and payload make up.
pub open spec fn assembles(
    header_bytes: Seq<u8>,
    body: Seq<u8>,
    mode: Mode,
    r: Result<DecodedFrame, DecodeError>,
) -> bool {
    match rx::assembled(header_bytes, body, mode) {
        Ok((header, payload)) => r matches Ok(f) && f.app_type == header.app_type && f.sequence
            == header.sequence && f.mode == mode && f.block_count == header.block_count
            && f.payload@ == payload,
        Err(e) => fails(r, e),
    }
}

impl<H, L, C> RxFront<H, L, C> {
    /// The functions take what lies within the audio and blocks of the code's
    /// length, and answer in the right length.
    pub open spec fn callable<T>(&self, audio_len: int) -> bool where
        H: Fn(usize, Mode) -> Option<Vec<u8>>,
        L: Fn(usize, Mode, usize) -> Vec<T>,
        C: Fn(&Vec<T>) -> Option<Vec<u8>>,
     {
        &&& forall|s: usize, m: Mode|
            s + 2531 <= audio_len ==> #[trigger] call_requires(self.header, (s, m))
        &&& forall|s: usize, m: Mode, info: Option<Vec<u8>>| #[trigger]
            call_ensures(self.header, (s, m), info) ==> (info matches Some(i) ==> i@.len() >= 96)
        &&& forall|s: usize, m: Mode, n: usize|
            s + 2531 + 10 * n <= audio_len ==> #[trigger] call_requires(self.soft, (s, m, n))
        &&& forall|s: usize, m: Mode, n: usize, v: Vec<T>| #[trigger]
            call_ensures(self.soft, (s, m, n), v) ==> v@.len() == 2 * n
        &&& forall|b: &Vec<T>|
            b@.len() == 240 ==> #[trigger] call_requires(self.fec, (b,))
        &&& forall|b: &Vec<T>, info: Option<Vec<u8>>| #[trigger]
            call_ensures(self.fec, (b,), info) ==> (info matches Some(i) ==> i@.len() >= 96)
    }

    /// The blocks decoded in turn.
    pub open spec fn decodes<T>(&self, blocks: Seq<Vec<T>>, infos: Seq<Option<Vec<u8>>>) -> bool where
        C: Fn(&Vec<T>) -> Option<Vec<u8>>,
     {
        &&& infos.len() <= blocks.len()
        &&& forall|b: int|
            0 <= b < infos.len() ==> call_ensures(self.fec, (&blocks[b],), #[trigger] infos[b])
    }

    /// What the payload's soft values lead to: the first block that cannot be
    /// decoded ends it.
    pub open spec fn finishes<T>(
        &self,
        llrs: Seq<T>,
        n_blocks: int,
        mode: Mode,
        erasure: T,
        header_bytes: Seq<u8>,
        r: Result<DecodedFrame, DecodeError>,
    ) -> bool where C: Fn(&Vec<T>) -> Option<Vec<u8>> {
        exists|blocks: Seq<Vec<T>>, infos: Seq<Option<Vec<u8>>>|
            {
                &&& blocks.len() == n_blocks
                &&& forall|b: int|
                    0 <= b < n_blocks ==> rx::is_payload_block(
                        llrs,
                        mode,
                        n_blocks,
                        erasure,
                        b,
                        (#[trigger] blocks[b])@,
                    )
                &&& #[trigger] self.decodes(blocks, infos)
                &&& forall|b: int| 0 <= b < infos.len() - 1 ==> (#[trigger] infos[b]) is Some
                &&& if infos.len() > 0 && infos.last() is None {
                    fails(r, DecodeError::PayloadFecFailed)
                } else {
                    &&& infos.len() == n_blocks
                    &&& exists|body: Seq<u8>| #[trigger]
                        rx::carries_blocks(infos, body) && assembles(header_bytes, body, mode, r)
                }
            }
    }

    /// What a decoded header leads to.
    pub open spec fn goes_on<T>(
        &self,
        info: Seq<u8>,
        audio_len: int,
        offset: usize,
        mode: Mode,
        erasure: T,
        r: Result<DecodedFrame, DecodeError>,
    ) -> bool where
        L: Fn(usize, Mode, usize) -> Vec<T>,
        C: Fn(&Vec<T>) -> Option<Vec<u8>>,
     {
        exists|bytes: Seq<u8>|
            {
                &&& #[trigger] rx::carried(info, bytes)
                &&& match rx::header_outcome(Some(info), bytes, mode, offset as int, audio_len) {
                    Err(e) => fails(r, e),
                    Ok(plan) => exists|llrs: Vec<T>|
                        {
                            &&& #[trigger] call_ensures(
                                self.soft,
                                (offset, mode, plan.payload_syms),
                                llrs,
                            )
                            &&& self.finishes(
                                llrs@,
                                plan.n_blocks as int,
                                mode,
                                erasure,
                                bytes,
                                r,
                            )
                        },
                }
            }
    }

    /// What becomes of a frame that starts at a sample.
    pub open spec fn reads<T>(
        &self,
        audio_len: int,
        offset: usize,
        mode: Mode,
        erasure: T,
        r: Result<DecodedFrame, DecodeError>,
    ) -> bool where
        H: Fn(usize, Mode) -> Option<Vec<u8>>,
        L: Fn(usize, Mode, usize) -> Vec<T>,
        C: Fn(&Vec<T>) -> Option<Vec<u8>>,
     {
        if offset + 2531 > audio_len {
            fails(r, DecodeError::Truncated)
        } else {
            exists|info: Option<Vec<u8>>|
                {
                    &&& #[trigger] call_ensures(self.header, (offset, mode), info)
                    &&& match info {
                        None => fails(r, DecodeError::HeaderFecFailed),
                        Some(i) => self.goes_on(i@, audio_len, offset, mode, erasure, r),
                    }
                }
        }
    }

    /// The frames and the end of the last one, after a further preamble.
    pub open spec fn advances<T>(
        &self,
        audio_len: int,
        pick: (usize, Mode),
        erasure: T,
        before: (Seq<DecodedFrame>, int),
        after: (Seq<DecodedFrame>, int),
    ) -> bool where
        H: Fn(usize, Mode) -> Option<Vec<u8>>,
        L: Fn(usize, Mode, usize) -> Vec<T>,
        C: Fn(&Vec<T>) -> Option<Vec<u8>>,
     {
        let start = pick.0 - 60;
        if start < 0 || start < before.1 || start + 2531 > audio_len {
            after == before
        } else {
            exists|r: Result<DecodedFrame, DecodeError>|
                {
                    &&& #[trigger] self.reads(audio_len, start as usize, pick.1, erasure, r)
                    &&& after == match r {
                        Ok(frame) => (
                            before.0.push(frame),
                            start + (247 + frame.block_count * pick.1.channel_bits() / 2) * 10,
                        ),
                        Err(_) => before,
                    }
                }
        }
    }

    /// All preambles taken in turn: `steps[i]` is the state before number `i`.
    pub open spec fn listens<T>(
        &self,
        audio_len: int,
        picks: Seq<(usize, Mode)>,
        erasure: T,
        steps: Seq<(Seq<DecodedFrame>, int)>,
    ) -> bool where
        H: Fn(usize, Mode) -> Option<Vec<u8>>,
        L: Fn(usize, Mode, usize) -> Vec<T>,
        C: Fn(&Vec<T>) -> Option<Vec<u8>>,
     {
        &&& steps.len() == picks.len() + 1
        &&& steps[0] == (Seq::<DecodedFrame>::empty(), 0int)
        &&& forall|i: int|
            0 <= i < picks.len() ==> #[trigger] self.advances(
                audio_len,
                picks[i],
                erasure,
                steps[i],
                steps[i + 1],
            )
    }

    /// The frames of one channel, given the correlations with the preambles:
    /// none in audio that is too short or without any correlation; otherwise
    /// those behind the peaks that reach what `threshold` makes of the median
    /// correlation.
    pub open spec fn hears<T, W: Fn(u32) -> u32>(
        &self,
        audio_len: int,
        keys: Seq<u32>,
        threshold: W,
        erasure: T,
        frames: Seq<DecodedFrame>,
    ) -> bool where
        H: Fn(usize, Mode) -> Option<Vec<u8>>,
        L: Fn(usize, Mode, usize) -> Vec<T>,
        C: Fn(&Vec<T>) -> Option<Vec<u8>>,
     {
        let heard = select::above(keys, select::ZERO_KEY);
        if audio_len < 1331 || heard.len() == 0 {
            frames.len() == 0
        } else {
            exists|
                median: u32,
                least: u32,
                picks: Seq<(usize, Mode)>,
                steps: Seq<(Seq<DecodedFrame>, int)>,
            |
                {
                    &&& select::is_nth_smallest(heard, heard.len() as int / 2, median)
                    &&& #[trigger] call_ensures(threshold, (median,), least)
                    &&& #[trigger] sync::is_pick(sync::peaks_of(keys), least, picks)
                    &&& #[trigger] self.listens(audio_len, picks, erasure, steps)
                    &&& steps.last().0 == frames
                }
        }
    }
}

/// Decode the frame that starts at a sample.
pub fn decode_known_layout<T: Copy, H, L, C>(
    front: &RxFront<H, L, C>,
    audio_len: usize,
    sample_offset: usize,
    mode: Mode,
    erasure: T,
) -> (r: Result<DecodedFrame, DecodeError>) where
    H: Fn(usize, Mode) -> Option<Vec<u8>>,
    L: Fn(usize, Mode, usize) -> Vec<T>,
    C: Fn(&Vec<T>) -> Option<Vec<u8>>,

    requires
        front.callable::<T>(audio_len as int),
    ensures
        front.reads(audio_len as int, sample_offset, mode, erasure, r),
{
    match rx::check_header_span(sample_offset, audio_len) {
        Ok(_) => {},
        Err(e) => {
            return Err(e);
        },
    }
    let info: Option<Vec<u8>> = (front.header)(sample_offset, mode);
    assert(call_ensures(front.header, (sample_offset, mode), info));
    let info: Vec<u8> = match info {
        Some(info) => info,
        None => {
            return Err(DecodeError::HeaderFecFailed);
        },
    };
    let (bytes, plan): (Vec<u8>, PayloadPlan) = match rx::plan_payload(
        Some(info.as_slice()),
        mode,
        sample_offset,
        audio_len,
    ) {
        Ok(planned) => planned,
        Err(e) => {
            assert(front.goes_on(info@, audio_len as int, sample_offset, mode, erasure, Err(e)));
            return Err(e);
        },
    };
    let llrs: Vec<T> = (front.soft)(sample_offset, mode, plan.payload_syms);
    assert(call_ensures(front.soft, (sample_offset, mode, plan.payload_syms), llrs));
    proof {
        let bits = mode.channel_bits();
        assert(bits == 240 || bits == 202 || bits == 152);
        assert(plan.n_blocks * bits % 2 == 0) by (nonlinear_arith)
            requires
                bits == 240 || bits == 202 || bits == 152,
        ;
    }
    let blocks: Vec<Vec<T>> = rx::split_payload(&llrs, mode, plan.n_blocks, erasure);
    let mut infos: Vec<Option<Vec<u8>>> = Vec::new();
    for b in 0..blocks.len()
        invariant
            front.callable::<T>(audio_len as int),
            infos@.len() == b,
            front.decodes(blocks@, infos@),
            forall|q: int| 0 <= q < b ==> (#[trigger] infos@[q]) is Some,
            forall|q: int|
                0 <= q < infos@.len() ==> (#[trigger] infos@[q] matches Some(i) ==> i@.len() >= 96),
            carries_header(info@, bytes@, mode, sample_offset as int, audio_len as int, plan),
            call_ensures(front.soft, (sample_offset, mode, plan.payload_syms), llrs),
            call_ensures(front.header, (sample_offset, mode), Some(info)),
            sample_offset + 2531 <= audio_len,
            blocks@.len() == plan.n_blocks,
            forall|q: int|
                0 <= q < plan.n_blocks ==> rx::is_payload_block(
                    llrs@,
                    mode,
                    plan.n_blocks as int,
                    erasure,
                    q,
                    (#[trigger] blocks@[q])@,
                ),
    {
        let decoded: Option<Vec<u8>> = (front.fec)(&blocks[b]);
        assert(call_ensures(front.fec, (&blocks@[b as int],), decoded));
        let failed: bool = decoded.is_none();
        infos.push(decoded);
        if failed {
            assert(front.decodes(blocks@, infos@));
            assert(infos@.last() is None);
            assert(front.finishes(
                llrs@,
                plan.n_blocks as int,
                mode,
                erasure,
                bytes@,
                Err(DecodeError::PayloadFecFailed),
            ));
            assert(front.goes_on(
                info@,
                audio_len as int,
                sample_offset,
                mode,
                erasure,
                Err(DecodeError::PayloadFecFailed),
            ));
            return Err(DecodeError::PayloadFecFailed);
        }
    }
    let r: Result<DecodedFrame, DecodeError> = rx::finish_frame(&bytes, &infos, mode);
    proof {
        assert(forall|b: int| 0 <= b < infos@.len() ==> (#[trigger] infos@[b]) is Some);
        let body = choose|body: Seq<u8>| #[trigger]
            rx::carries_blocks(infos@, body) && assembles(bytes@, body, mode, r);
        assert(rx::carries_blocks(infos@, body));
        assert(front.finishes(llrs@, plan.n_blocks as int, mode, erasure, bytes@, r));
        assert(front.goes_on(info@, audio_len as int, sample_offset, mode, erasure, r));
    }
    r
}

/// The header's bytes, and the plan that follows from them.
spec fn carries_header(
    info: Seq<u8>,
    bytes: Seq<u8>,
    mode: Mode,
    offset: int,
    audio_len: int,
    plan: PayloadPlan,
) -> bool {
    &&& rx::carried(info, bytes)
    &&& rx::header_outcome(Some(info), bytes, mode, offset, audio_len) == Ok::<
        PayloadPlan,
        DecodeError,
    >(plan)
}

/// Decode the frames behind the preambles found. A preamble within the last
/// frame decoded is none.
pub fn decode_frames<T: Copy, H, L, C>(
    front: &RxFront<H, L, C>,
    audio_len: usize,
    picks: &[(usize, Mode)],
    erasure: T,
) -> (frames: Vec<DecodedFrame>) where
    H: Fn(usize, Mode) -> Option<Vec<u8>>,
    L: Fn(usize, Mode, usize) -> Vec<T>,
    C: Fn(&Vec<T>) -> Option<Vec<u8>>,

    requires
        front.callable::<T>(audio_len as int),
        audio_len <= isize::MAX,
    ensures
        exists|steps: Seq<(Seq<DecodedFrame>, int)>| #[trigger]
            front.listens(audio_len as int, picks@, erasure, steps) && steps.last().0 == frames@,
{
    let mut frames: Vec<DecodedFrame> = Vec::new();
    let mut consumed_until: usize = 0;
    let ghost mut steps: Seq<(Seq<DecodedFrame>, int)> = seq![(frames@, 0int)];
    for i in 0..picks.len()
        invariant
            front.callable::<T>(audio_len as int),
            audio_len <= isize::MAX,
            front.listens(audio_len as int, picks@.take(i as int), erasure, steps),
            steps.last() == (frames@, consumed_until as int),
    {
        let ghost before = (frames@, consumed_until as int);
        let (mf_offset, mode): (usize, Mode) = picks[i];
        match sync::frame_start(mf_offset, consumed_until, audio_len) {
            Some(start) => {
                let r: Result<DecodedFrame, DecodeError> = decode_known_layout(
                    front,
                    audio_len,
                    start,
                    mode,
                    erasure,
                );
                assert(front.reads(audio_len as int, (mf_offset - 60) as usize, mode, erasure, r));
                match r {
                    Ok(frame) => {
                        consumed_until = sync::frame_end(start, frame.block_count, mode);
                        frames.push(frame);
                    },
                    Err(_) => {},
                }
            },
            None => {},
        }
        proof {
            let after = (frames@, consumed_until as int);
            assert(front.advances(audio_len as int, picks@[i as int], erasure, before, after));
            let old_steps = steps;
            steps = steps.push(after);
            let taken = picks@.take(i + 1);
            assert forall|j: int| 0 <= j < taken.len() implies #[trigger] front.advances(
                audio_len as int,
                taken[j],
                erasure,
                steps[j],
                steps[j + 1],
            ) by {
                if j < i {
                    assert(front.advances(
                        audio_len as int,
                        picks@.take(i as int)[j],
                        erasure,
                        old_steps[j],
                        old_steps[j + 1],
                    ));
                }
            }
        }
    }
    assert(picks@.take(picks@.len() as int) =~= picks@);
    frames
}

/// Decode the frames of one channel. The keys list the correlations with the
/// preambles of offset nought, then those of offset one, and so on; `threshold`
/// gives the least correlation of a frame for the median of the positive ones.
pub fn decode<T: Copy, H, L, C, W>(
    front: &RxFront<H, L, C>,
    audio_len: usize,
    keys: &[u32],
    threshold: &W,
    erasure: T,
) -> (frames: Vec<DecodedFrame>) where
    H: Fn(usize, Mode) -> Option<Vec<u8>>,
    L: Fn(usize, Mode, usize) -> Vec<T>,
    C: Fn(&Vec<T>) -> Option<Vec<u8>>,
    W: Fn(u32) -> u32,

    requires
        front.callable::<T>(audio_len as int),
        forall|median: u32| #[trigger] call_requires(*threshold, (median,)),
        audio_len <= isize::MAX,
    ensures
        front.hears(audio_len as int, keys@, *threshold, erasure, frames@),
{
    if audio_len < rx::PREAMBLE_LEN * rx::NSPS + rx::RRC_LEN {
        return Vec::new();
    }
    let median: u32 = match select::robust_median(keys, select::ZERO_KEY) {
        Some(median) => median,
        None => {
            return Vec::new();
        },
    };
    let least: u32 = threshold(median);
    assert(call_ensures(*threshold, (median,), least));
    let peaks: Vec<Peak> = sync::list_peaks(keys);
    let picks: Vec<(usize, Mode)> = sync::pick_peaks(&peaks, least);
    assert(sync::is_pick(sync::peaks_of(keys@), least, picks@));
    decode_frames(front, audio_len, &picks, erasure)
}

/// The frames of the channels, taken in turn: `steps[t]` are those before
/// channel `kept[t]`. `read` is what a channel's frame decodes to.
pub open spec fn reads_channels<D: Fn(usize, usize, Mode) -> Option<DecodedFrame>>(
    read: D,
    audio_len: int,
    channels: Seq<Peak>,
    kept: Seq<usize>,
    steps: Seq<Seq<(usize, DecodedFrame)>>,
) -> bool {
    &&& steps.len() == kept.len() + 1
    &&& steps[0] == Seq::<(usize, DecodedFrame)>::empty()
    &&& forall|t: int|
        0 <= t < kept.len() ==> #[trigger] reads_channel(
            read,
            audio_len,
            channels,
            kept[t],
            steps[t],
            steps[t + 1],
        )
}

/// The frames after channel `c`: its frame is read unless it lies outside the
/// audio.
pub open spec fn reads_channel<D: Fn(usize, usize, Mode) -> Option<DecodedFrame>>(
    read: D,
    audio_len: int,
    channels: Seq<Peak>,
    c: usize,
    before: Seq<(usize, DecodedFrame)>,
    after: Seq<(usize, DecodedFrame)>,
) -> bool {
    let peak = channels[c as int];
    let start = peak.offset - 60;
    if start < 0 || start + 2531 > audio_len {
        after == before
    } else {
        exists|r: Option<DecodedFrame>|
            {
                &&& #[trigger] call_ensures(read, (c, start as usize, peak.mode), r)
                &&& after == match r {
                    Some(frame) => before.push((c, frame)),
                    None => before,
                }
            }
    }
}

/// Decode one frame of every channel, the channels with the best correlation
/// first; a channel next to a better one is left out. `channels` holds the best
/// correlation of each; `read` decodes the frame of a channel that starts at a
/// sample.
pub fn decode_multichannel<P: Near, D: Fn(usize, usize, Mode) -> Option<DecodedFrame>>(
    channels: &[Peak],
    near: &P,
    read: &D,
    audio_len: usize,
) -> (frames: Vec<(usize, DecodedFrame)>)
    requires
        forall|c: int| c <= channels@.len() ==> #[trigger] near.covers(c),
        forall|c: usize, s: usize, m: Mode|
            c < channels@.len() && s + 2531 <= audio_len ==> #[trigger] call_requires(
                *read,
                (c, s, m),
            ),
    ensures
        exists|order: Seq<usize>, steps: Seq<Seq<(usize, DecodedFrame)>>|
            {
                &&& #[trigger] select::is_ranking(sync::keys_of(channels@), order)
                &&& #[trigger] reads_channels(
                    *read,
                    audio_len as int,
                    channels@,
                    select::survivors(near, order, usize::MAX as nat, order.len() as int),
                    steps,
                )
                &&& steps.last() == frames@
            },
{
    let keys: Vec<u32> = sync::collect_keys(channels);
    let kept: Vec<usize> = sync::pick_channels(&keys, near);
    let ghost order = choose|order: Seq<usize>| #[trigger]
        select::is_ranking(keys@, order) && kept@ == select::survivors(
            near,
            order,
            usize::MAX as nat,
            order.len() as int,
        );
    proof {
        sync::lemma_survivors_in_range(
            near,
            order,
            usize::MAX as nat,
            order.len() as int,
            channels@.len() as int,
        );
    }
    let mut frames: Vec<(usize, DecodedFrame)> = Vec::new();
    let ghost mut steps: Seq<Seq<(usize, DecodedFrame)>> = seq![frames@];
    for t in 0..kept.len()
        invariant
            forall|c: usize, s: usize, m: Mode|
                c < channels@.len() && s + 2531 <= audio_len ==> #[trigger] call_requires(
                    *read,
                    (c, s, m),
                ),
            forall|q: int| 0 <= q < kept@.len() ==> #[trigger] kept@[q] < channels@.len(),
            reads_channels(*read, audio_len as int, channels@, kept@.take(t as int), steps),
            steps.last() == frames@,
    {
        let ghost before = frames@;
        let c: usize = kept[t];
        assert(kept@[t as int] < channels@.len());
        let peak: Peak = channels[c];
        match sync::frame_start(peak.offset, 0, audio_len) {
            Some(start) => {
                let r: Option<DecodedFrame> = read(c, start, peak.mode);
                let ghost led_to = r;
                assert(call_ensures(*read, (c, (peak.offset - 60) as usize, peak.mode), led_to));
                match r {
                    Some(frame) => {
                        frames.push((c, frame));
                    },
                    None => {},
                }
            },
            None => {},
        }
        proof {
            assert(reads_channel(*read, audio_len as int, channels@, c, before, frames@));
            let old_steps = steps;
            steps = steps.push(frames@);
            let taken = kept@.take(t + 1);
            assert forall|k: int| 0 <= k < taken.len() implies #[trigger] reads_channel(
                *read,
                audio_len as int,
                channels@,
                taken[k],
                steps[k],
                steps[k + 1],
            ) by {
                if k < t {
                    assert(reads_channel(
                        *read,
                        audio_len as int,
                        channels@,
                        kept@.take(t as int)[k],
                        old_steps[k],
                        old_steps[k + 1],
                    ));
                }
            }
        }
    }
    assert(kept@.take(kept@.len() as int) =~= kept@);
    frames
}

} // verus!
