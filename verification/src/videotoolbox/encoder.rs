//! The state of a hardware HEVC encoder: keyframe cadence, timestamps and session
//! resolution, and the Annex B form of what the hardware puts out.

use crate::hevc::bitstream::{self, length_prefixed_to_annex_b};
use crate::hevc::error::HevcError;
use vstd::prelude::*;

verus! {

/// One encoded access unit.
#[derive(Debug, Clone, PartialEq, Eq)]
pub struct EncodedFrame {
    /// HEVC Annex B bytes; keyframes carry VPS/SPS/PPS in band.
    pub annex_b: Vec<u8>,
    /// Whether this access unit is a keyframe a decoder can start from.
    pub is_keyframe: bool,
}

/// The access unit made of `parameter_sets` and the length-prefixed NAL units in
/// `data`, and what is wrong with the latter, if anything.
pub open spec fn encoded_annex_b(
    is_keyframe: bool,
    parameter_sets: Seq<Seq<u8>>,
    data: Seq<u8>,
) -> (Seq<u8>, Option<HevcError>) {
    let (units, error) = bitstream::repacked(data);
    if is_keyframe {
        (bitstream::annex_b_of(parameter_sets) + units, error)
    } else {
        (units, error)
    }
}

/// Annex B framing one more NAL unit appends it.
proof fn lemma_annex_b_push(units: Seq<Seq<u8>>, unit: Seq<u8>)
    ensures
        bitstream::annex_b_of(units.push(unit)) == bitstream::annex_b_of(units)
            + bitstream::start_code() + unit,
    decreases units.len(),
{
    let all = units.push(unit);
    if units.len() == 0 {
        assert(all.drop_first() =~= Seq::empty());
        assert(bitstream::annex_b_of(all.drop_first()) =~= Seq::<u8>::empty());
    } else {
        lemma_annex_b_push(units.drop_first(), unit);
        assert(all.drop_first() =~= units.drop_first().push(unit));
    }
    assert(bitstream::annex_b_of(all) =~= bitstream::annex_b_of(units) + bitstream::start_code()
        + unit);
}

/// Repackage the encoder's output into an Annex B access unit, prepending
/// VPS/SPS/PPS on keyframes.
///
/// `length_prefixed` holds 4-byte length-prefixed NALs, `parameter_sets` those of
/// the stream's format description.
pub fn build_encoded_frame(
    is_keyframe: bool,
    parameter_sets: &[&[u8]],
    length_prefixed: &[u8],
) -> (res: Result<EncodedFrame, HevcError>)
    ensures
        ({
            let (annex_b, error) = encoded_annex_b(
                is_keyframe,
                bitstream::nal_bytes(parameter_sets@),
                length_prefixed@,
            );
            match res {
                Ok(frame) => {
                    &&& error is None
                    &&& frame.annex_b@ == annex_b
                    &&& frame.is_keyframe == is_keyframe
                },
                Err(e) => error == Some(e),
            }
        }),
{
    let ghost all = bitstream::nal_bytes(parameter_sets@);
    let mut annex_b: Vec<u8> = Vec::new();
    if is_keyframe {
        let mut i: usize = 0;
        assert(bitstream::annex_b_of(all.take(0)) =~= Seq::<u8>::empty());
        while i < parameter_sets.len()
            invariant
                i <= parameter_sets@.len(),
                all == bitstream::nal_bytes(parameter_sets@),
                annex_b@ == bitstream::annex_b_of(all.take(i as int)),
            decreases parameter_sets@.len() - i,
        {
            let ghost before = annex_b@;
            let set: &[u8] = parameter_sets[i];
            annex_b.push(0);
            annex_b.push(0);
            annex_b.push(0);
            annex_b.push(1);
            annex_b.extend_from_slice(set);
            proof {
                lemma_annex_b_push(all.take(i as int), set@);
                assert(all.take(i + 1) =~= all.take(i as int).push(set@));
                assert(annex_b@ =~= before + bitstream::start_code() + set@);
            }
            i = i + 1;
        }
        assert(all.take(i as int) =~= all);
    }
    let ghost front = annex_b@;
    length_prefixed_to_annex_b(length_prefixed, &mut annex_b)?;
    assert(!is_keyframe ==> annex_b@ =~= bitstream::repacked(length_prefixed@).0);
    Ok(EncodedFrame { annex_b, is_keyframe })
}

/// Why a frame cannot be encoded.
#[derive(Debug, Clone, Copy, PartialEq, Eq, Structural)]
pub enum EncodeError {
    /// The BGRA input has fewer bytes than the resolution asks for.
    InputTooSmall { given: usize, needed: usize },
}

/// How to encode one frame.
#[derive(Debug, Clone, Copy, PartialEq, Eq, Structural)]
pub struct FramePlan {
    /// Whether the frame is forced to be a keyframe.
    pub force_keyframe: bool,
    /// Its presentation timestamp, in frames.
    pub pts: i64,
}

/// The state of a hardware HEVC encoder.
///
/// A frame is encoded in steps, between which the caller talks to the hardware
/// session: [`HevcEncoder::needs_session`] says whether a session has to be created
/// first, and [`HevcEncoder::session_created`] that it was;
/// [`HevcEncoder::plan_frame`] says how to encode the frame, and
/// [`HevcEncoder::submitted`] that the session took it.
#[derive(Debug, Clone, Copy, PartialEq, Eq, Structural)]
pub struct HevcEncoder {
    /// Frames that the session took since the last forced keyframe, that one included.
    pub seen_frames: usize,
    /// Force a keyframe every N encoded frames.
    pub keyframe_interval: usize,
    /// Target average bitrate, in bits per second.
    pub average_bitrate_bps: u32,
    /// Monotonic presentation timestamp counter (frame index).
    pub pts: i64,
    /// Resolution the current session was created at; a change recreates it.
    pub width: u32,
    pub height: u32,
    /// Whether the session was recreated and has taken no frame since.
    pub recreated: bool,
}

impl HevcEncoder {
    /// Whether the next frame is forced to be a keyframe, given whether the caller
    /// asks for one.
    pub open spec fn forces_keyframe(self, asked: bool) -> bool {
        asked || self.recreated || self.seen_frames >= self.keyframe_interval
    }

    /// How the next frame is to be encoded, given whether the caller asks for a
    /// keyframe.
    pub open spec fn next_plan(self, asked: bool) -> FramePlan {
        FramePlan { force_keyframe: self.forces_keyframe(asked), pts: self.pts }
    }

    /// How a frame of `bgra_len` bytes is to be encoded, or why it cannot be.
    pub open spec fn planned(self, bgra_len: usize, asked: bool) -> Result<
        FramePlan,
        EncodeError,
    > {
        if bgra_len < self.frame_bytes() {
            Err(
                EncodeError::InputTooSmall {
                    given: bgra_len,
                    needed: self.frame_bytes() as usize,
                },
            )
        } else {
            Ok(self.next_plan(asked))
        }
    }

    /// The encoder once the session took a frame as `plan` says.
    pub open spec fn after(self, plan: FramePlan) -> HevcEncoder {
        HevcEncoder {
            seen_frames: if plan.force_keyframe {
                1
            } else {
                (self.seen_frames + 1) as usize
            },
            pts: (self.pts + 1) as i64,
            recreated: false,
            ..self
        }
    }

    /// The encoder once its session was recreated at the given resolution.
    pub open spec fn with_session(self, width: u32, height: u32) -> HevcEncoder {
        HevcEncoder { width, height, pts: 0, seen_frames: 0, recreated: true, ..self }
    }

    /// How many bytes a frame has.
    pub open spec fn frame_bytes(self) -> int {
        self.width * self.height * 4
    }

    /// An encoder whose session was created at the given resolution.
    pub fn new(
        width: u32,
        height: u32,
        average_bitrate_bps: u32,
        keyframe_interval: usize,
    ) -> (res: Self)
        ensures
            res == (HevcEncoder {
                seen_frames: 0,
                keyframe_interval,
                average_bitrate_bps,
                pts: 0,
                width,
                height,
                recreated: false,
            }),
    {
        HevcEncoder {
            seen_frames: 0,
            keyframe_interval,
            average_bitrate_bps,
            pts: 0,
            width,
            height,
            recreated: false,
        }
    }

    /// Whether a fresh session has to be created before a frame of this resolution
    /// can be encoded: session dimensions are fixed at creation.
    pub fn needs_session(&self, width: u32, height: u32) -> (res: bool)
        ensures
            res == (width != self.width || height != self.height),
    {
        width != self.width || height != self.height
    }

    /// The session was recreated at the given resolution: timing starts over, and
    /// the next frame that it takes is a keyframe.
    pub fn session_created(&mut self, width: u32, height: u32)
        ensures
            *final(self) == old(self).with_session(width, height),
    {
        self.width = width;
        self.height = height;
        self.pts = 0;
        self.seen_frames = 0;
        self.recreated = true;
    }

    /// Plan the encoding of a frame of `bgra_len` bytes at the session's resolution.
    /// Planning changes nothing: a frame that is refused, here or by the session,
    /// does not count, and a keyframe that is due stays due.
    pub fn plan_frame(&self, bgra_len: usize, force_keyframe: bool) -> (res: Result<
        FramePlan,
        EncodeError,
    >)
        requires
            self.frame_bytes() <= usize::MAX,
        ensures
            res == self.planned(bgra_len, force_keyframe),
            res == if bgra_len < self.frame_bytes() {
                Err(
                    EncodeError::InputTooSmall {
                        given: bgra_len,
                        needed: self.frame_bytes() as usize,
                    },
                )
            } else {
                Ok(self.next_plan(force_keyframe))
            },
    {
        proof {
            assert(self.width * self.height <= self.width * self.height * 4) by (nonlinear_arith)
                requires
                    0 <= self.width * self.height,
            ;
        }
        let needed: usize = self.width as usize * self.height as usize * 4;
        if bgra_len < needed {
            return Err(EncodeError::InputTooSmall { given: bgra_len, needed });
        }
        // Keyframe cadence.
        let force: bool = force_keyframe || self.recreated || self.seen_frames
            >= self.keyframe_interval;
        Ok(FramePlan { force_keyframe: force, pts: self.pts })
    }

    /// The session took a frame, encoded as `plan` says.
    pub fn submitted(&mut self, plan: FramePlan)
        requires
            old(self).pts < i64::MAX,
            plan.force_keyframe || old(self).seen_frames < usize::MAX,
        ensures
            *final(self) == old(self).after(plan),
    {
        if plan.force_keyframe {
            self.seen_frames = 0;
        }
        self.seen_frames = self.seen_frames + 1;
        self.pts = self.pts + 1;
        self.recreated = false;
    }

    /// Force a keyframe every `every` encoded frames from now on.
    pub fn set_keyframe_interval(&mut self, every: usize)
        ensures
            *final(self) == (HevcEncoder { keyframe_interval: every, ..*old(self) }),
    {
        self.keyframe_interval = every;
    }

    /// Retarget the running session's rate control.
    pub fn set_bitrate(&mut self, bitrate_bps: u32)
        ensures
            *final(self) == (HevcEncoder { average_bitrate_bps: bitrate_bps, ..*old(self) }),
    {
        self.average_bitrate_bps = bitrate_bps;
    }

    /// The encoder once the session took a frame for each of the requests, which say
    /// whether a keyframe is asked for. Frames that are refused in between leave the
    /// encoder as it is.
    pub open spec fn after_frames(self, requests: Seq<bool>) -> HevcEncoder
        decreases requests.len(),
    {
        if requests.len() == 0 {
            self
        } else {
            let before = self.after_frames(requests.drop_last());
            before.after(before.next_plan(requests.last()))
        }
    }
}

/// The first frame that the session takes at a new resolution is forced to be a
/// keyframe and has timestamp 0, and only the first one is so for that reason. A frame
/// has four bytes for each pixel. The keyframe interval and the bitrate stay.
pub proof fn law_new_resolution_starts_with_keyframe(
    encoder: HevcEncoder,
    width: u32,
    height: u32,
    asked: bool,
)
    ensures
        ({
            let fresh = encoder.with_session(width, height);
            let plan = fresh.next_plan(asked);
            &&& plan == (FramePlan { force_keyframe: true, pts: 0 })
            &&& !fresh.after(plan).recreated
            &&& fresh.after(plan).seen_frames == 1
            &&& fresh.frame_bytes() == width * height * 4
            &&& fresh.keyframe_interval == encoder.keyframe_interval
            &&& fresh.average_bitrate_bps == encoder.average_bitrate_bps
        }),
{
}

/// Of any run of frames that the session takes, longer than the keyframe interval,
/// at least one is forced to be a keyframe.
pub proof fn law_keyframe_within_every_interval(encoder: HevcEncoder, requests: Seq<bool>)
    requires
        requests.len() > encoder.keyframe_interval,
    ensures
        exists|i: int|
            0 <= i < requests.len() && encoder.after_frames(requests.take(i)).next_plan(
                #[trigger] requests[i],
            ).force_keyframe,
{
    if forall|i: int|
        0 <= i < requests.len() ==> !encoder.after_frames(requests.take(i)).next_plan(
            #[trigger] requests[i],
        ).force_keyframe {
        let last = requests.len() - 1;
        lemma_unforced_run(encoder, requests, last);
        assert(!encoder.after_frames(requests.take(last)).next_plan(
            requests[last],
        ).force_keyframe);
    }
}

/// Behind a forced keyframe, another one is forced within the interval.
pub proof fn law_interval_counts_from_the_last_keyframe(
    encoder: HevcEncoder,
    plan: FramePlan,
    requests: Seq<bool>,
)
    requires
        plan.force_keyframe,
        requests.len() >= encoder.keyframe_interval,
        requests.len() > 0,
    ensures
        exists|i: int|
            0 <= i < requests.len() && encoder.after(plan).after_frames(
                requests.take(i),
            ).next_plan(#[trigger] requests[i]).force_keyframe,
{
    let start = encoder.after(plan);
    if forall|i: int|
        0 <= i < requests.len() ==> !start.after_frames(requests.take(i)).next_plan(
            #[trigger] requests[i],
        ).force_keyframe {
        let last = requests.len() - 1;
        lemma_unforced_run(start, requests, last);
        assert(!start.after_frames(requests.take(last)).next_plan(requests[last]).force_keyframe);
    }
}

/// Frames that are not forced are all counted.
proof fn lemma_unforced_run(encoder: HevcEncoder, requests: Seq<bool>, n: int)
    requires
        0 <= n <= requests.len(),
        forall|i: int|
            0 <= i < requests.len() ==> !encoder.after_frames(requests.take(i)).next_plan(
                #[trigger] requests[i],
            ).force_keyframe,
    ensures
        encoder.after_frames(requests.take(n)).seen_frames == encoder.seen_frames + n,
        encoder.after_frames(requests.take(n)).keyframe_interval == encoder.keyframe_interval,
    decreases n,
{
    if n > 0 {
        lemma_unforced_run(encoder, requests, n - 1);
        assert(requests.take(n).drop_last() =~= requests.take(n - 1));
        assert(requests.take(n).last() == requests[n - 1]);
    }
}

/// A keyframe's Annex B bytes split into the parameter sets, in band, and then the
/// NAL units that the hardware put out.
pub proof fn law_keyframe_carries_parameter_sets(
    parameter_sets: Seq<Seq<u8>>,
    units: Seq<Seq<u8>>,
)
    requires
        bitstream::separable(parameter_sets + units),
        forall|i: int| 0 <= i < units.len() ==> (#[trigger] units[i]).len() <= u32::MAX,
    ensures
        ({
            let (annex_b, error) = encoded_annex_b(
                true,
                parameter_sets,
                bitstream::length_prefixed(units),
            );
            error is None && bitstream::annex_b_units(annex_b) == parameter_sets + units
        }),
{
    bitstream::law_repackaging_keeps_units(units);
    lemma_annex_b_concat(parameter_sets, units);
    bitstream::law_splitting_undoes_framing(parameter_sets + units);
}

/// Annex B framing of a concatenation.
proof fn lemma_annex_b_concat(x: Seq<Seq<u8>>, y: Seq<Seq<u8>>)
    ensures
        bitstream::annex_b_of(x + y) == bitstream::annex_b_of(x) + bitstream::annex_b_of(y),
    decreases x.len(),
{
    if x.len() == 0 {
        assert(x + y =~= y);
        assert(bitstream::annex_b_of(x) + bitstream::annex_b_of(y) =~= bitstream::annex_b_of(y));
    } else {
        lemma_annex_b_concat(x.drop_first(), y);
        assert((x + y).drop_first() =~= x.drop_first() + y);
        assert(bitstream::annex_b_of(x + y) =~= bitstream::annex_b_of(x) + bitstream::annex_b_of(
            y,
        ));
    }
}

/// A decoder finds the three parameter sets that a keyframe carries in band.
pub proof fn law_decoder_finds_keyframe_parameter_sets(
    vps: Seq<u8>,
    sps: Seq<u8>,
    pps: Seq<u8>,
    units: Seq<Seq<u8>>,
)
    requires
        bitstream::nal_type(vps) == Some(bitstream::NAL_TYPE_VPS),
        bitstream::nal_type(sps) == Some(bitstream::NAL_TYPE_SPS),
        bitstream::nal_type(pps) == Some(bitstream::NAL_TYPE_PPS),
        bitstream::separable(seq![vps, sps, pps] + units),
        forall|i: int|
            0 <= i < units.len() ==> (#[trigger] units[i]).len() <= u32::MAX
                && !bitstream::parameter_set_nal(units[i]),
    ensures
        ({
            let annex_b = encoded_annex_b(
                true,
                seq![vps, sps, pps],
                bitstream::length_prefixed(units),
            ).0;
            bitstream::parameter_sets_of(bitstream::annex_b_units(annex_b)) == Some(
                bitstream::ParameterSetBytes { vps, sps, pps },
            )
        }),
{
    let sets = seq![vps, sps, pps];
    law_keyframe_carries_parameter_sets(sets, units);
    lemma_last_before(sets, units, bitstream::NAL_TYPE_VPS);
    lemma_last_before(sets, units, bitstream::NAL_TYPE_SPS);
    lemma_last_before(sets, units, bitstream::NAL_TYPE_PPS);
    reveal_with_fuel(bitstream::last_of_type, 4);
    assert(sets.drop_last() =~= seq![vps, sps]);
    assert(sets.drop_last().drop_last() =~= seq![vps]);
}

/// NAL units that are no parameter sets do not hide those before them.
proof fn lemma_last_before(sets: Seq<Seq<u8>>, units: Seq<Seq<u8>>, ty: u8)
    requires
        ty == bitstream::NAL_TYPE_VPS || ty == bitstream::NAL_TYPE_SPS || ty
            == bitstream::NAL_TYPE_PPS,
        forall|i: int|
            0 <= i < units.len() ==> !bitstream::parameter_set_nal(#[trigger] units[i]),
    ensures
        bitstream::last_of_type(sets + units, ty) == bitstream::last_of_type(sets, ty),
    decreases units.len(),
{
    if units.len() == 0 {
        assert(sets + units =~= sets);
    } else {
        assert(!bitstream::parameter_set_nal(units[units.len() - 1]));
        assert((sets + units).last() == units[units.len() - 1]);
        assert((sets + units).drop_last() =~= sets + units.drop_last());
        assert forall|i: int| 0 <= i < units.drop_last().len() implies
            !bitstream::parameter_set_nal(#[trigger] units.drop_last()[i]) by {
            assert(units.drop_last()[i] == units[i]);
        }
        lemma_last_before(sets, units.drop_last(), ty);
    }
}

/// A run of frames without any request for a keyframe.
pub open spec fn unasked(n: nat) -> Seq<bool> {
    Seq::new(n, |i: int| false)
}

/// Behind a forced keyframe, no other one is forced before the interval is over unless
/// it is asked for; then one is. Timestamps count the frames.
pub proof fn law_keyframes_come_no_sooner_than_asked(
    encoder: HevcEncoder,
    plan: FramePlan,
    n: nat,
)
    requires
        plan.force_keyframe,
        n + 1 <= encoder.keyframe_interval,
        encoder.pts + n + 1 <= i64::MAX,
    ensures
        ({
            let next = encoder.after(plan).after_frames(unasked(n)).next_plan(false);
            &&& next.force_keyframe <==> n + 1 == encoder.keyframe_interval
            &&& next.pts == encoder.pts + 1 + n
        }),
{
    lemma_unasked_run(encoder.after(plan), n);
}

/// Frames that nobody asks a keyframe for are counted until the interval is over.
proof fn lemma_unasked_run(encoder: HevcEncoder, n: nat)
    requires
        !encoder.recreated,
        encoder.seen_frames + n <= encoder.keyframe_interval,
        encoder.pts + n <= i64::MAX,
    ensures
        ({
            let after = encoder.after_frames(unasked(n));
            &&& after.seen_frames == encoder.seen_frames + n
            &&& after.pts == encoder.pts + n
            &&& after.keyframe_interval == encoder.keyframe_interval
            &&& !after.recreated
        }),
    decreases n,
{
    if n > 0 {
        lemma_unasked_run(encoder, (n - 1) as nat);
        assert(unasked(n).drop_last() =~= unasked((n - 1) as nat));
    }
}

/// A frame is forced to be a keyframe whenever that is asked for.
pub proof fn law_asking_forces_a_keyframe(encoder: HevcEncoder)
    ensures
        encoder.next_plan(true).force_keyframe,
        encoder.next_plan(true).pts == encoder.next_plan(false).pts,
{
}

/// The Annex B bytes of a frame that is no keyframe split into the NAL units that the
/// hardware put out, and nothing else.
pub proof fn law_inter_frame_carries_no_parameter_sets(
    parameter_sets: Seq<Seq<u8>>,
    units: Seq<Seq<u8>>,
)
    requires
        bitstream::separable(units),
        forall|i: int| 0 <= i < units.len() ==> (#[trigger] units[i]).len() <= u32::MAX,
    ensures
        ({
            let (annex_b, error) = encoded_annex_b(
                false,
                parameter_sets,
                bitstream::length_prefixed(units),
            );
            error is None && bitstream::annex_b_units(annex_b) == units
        }),
{
    bitstream::law_repackaging_keeps_units(units);
    bitstream::law_splitting_undoes_framing(units);
}

/// Input of at least four bytes for each pixel is encoded, whatever is behind them; with
/// less, a frame is refused, and the refusal says how much was given and is needed.
pub proof fn law_enough_input_is_encoded(encoder: HevcEncoder, bgra_len: usize, asked: bool)
    requires
        encoder.width * encoder.height * 4 <= usize::MAX,
    ensures
        encoder.planned(bgra_len, asked) is Ok <==> bgra_len >= encoder.width * encoder.height * 4,
        encoder.planned(bgra_len, asked) matches Ok(plan) ==> plan == encoder.next_plan(asked),
        encoder.planned(bgra_len, asked) matches Err(e) ==> e == (EncodeError::InputTooSmall {
            given: bgra_len,
            needed: (encoder.width * encoder.height * 4) as usize,
        }),
{
}

} // verus!
