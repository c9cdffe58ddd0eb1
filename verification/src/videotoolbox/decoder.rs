//! The state of a hardware HEVC decoder: when a session is needed, what is
//! submitted to it, and what its answer changes.

use super::conceal::{self, conceal_rps, ref_poc_lsb};
use crate::hevc::bitstream::{
    self, annex_b_nal_units, is_parameter_set, nal_unit_type, nals_contain_keyframe,
    parameter_sets_from_nals, ParameterSetBytes, ParameterSets,
};
use crate::hevc::emulation;
use crate::hevc::error::HevcError;
use crate::hevc::headers::{self, parse_pps, parse_sps, PpsInfo, SpsFields, SpsInfo};
use crate::hevc::rps::{self, RpsEntry};
use crate::hevc::set_syntax::StRefPicSet;
use crate::hevc::slice::{self, parse_slice, rewrite_rps, SliceFields, SliceInfo};
use crate::hevc::slice_laws;
use crate::hevc::slice_values::{self, SliceHeader};
use crate::BgraFrame;
use vstd::arithmetic::power2;
use vstd::prelude::*;

verus! {

/// How to create a [`HevcDecoder`].
#[derive(Debug, Clone, Copy, PartialEq, Eq, Structural)]
pub struct DecoderConfig {
    /// Emulate NVDEC-style concealment when a slice references pictures missing
    /// from the decoded picture buffer (see the [`hevc`](crate::hevc) module
    /// docs). Disabling it leaves slice headers untouched, so such frames fail
    /// to decode and the decoder waits for the next keyframe.
    pub conceal_missing_references: bool,
}

impl Default for DecoderConfig {
    fn default() -> (res: Self)
        ensures
            res.conceal_missing_references,
    {
        DecoderConfig { conceal_missing_references: true }
    }
}

/// Why an access unit could not be turned into a frame.
#[derive(Debug, Clone, PartialEq, Eq)]
pub enum DecodeError {
    /// No keyframe seen yet (or resyncing after a failure); feed a keyframe.
    MissingKeyframe,
    /// This frame failed to decode; the decoder now waits for a keyframe.
    Frame(String),
    /// Unrecoverable (e.g. session creation failed).
    Fatal(String),
}

/// One decoded picture.
#[derive(Debug, Clone, PartialEq, Eq)]
pub struct DecodedFrame {
    /// The picture, as tightly packed 32BGRA.
    pub frame: BgraFrame,
    /// Whether the access unit it came from was a keyframe.
    pub is_keyframe: bool,
}

/// A slice whose RPS was replaced before submission.
#[derive(Debug, Clone, Copy, PartialEq, Eq, Structural)]
pub struct Repair {
    /// POC lsb of the picture.
    pub poc: i64,
    /// How many references the new RPS has.
    pub kept: usize,
    /// How many references the slice had.
    pub total: usize,
    /// Whether a missing used reference was concealed.
    pub concealed: bool,
}

/// What to submit for one NAL unit.
#[verifier::ext_equal]
pub struct NalPlan {
    /// The NAL unit, repaired if need be.
    pub bytes: Seq<u8>,
    /// If it is a slice, the POC lsbs of the pictures that it leaves in the DPB.
    pub dpb: Option<Seq<u32>>,
    /// The repair, if there was one.
    pub repair: Option<Repair>,
}

/// How many POC lsbs there are.
pub open spec fn poc_max_of(sps: SpsFields) -> int {
    power2::pow2(sps.poc_lsb_bits as nat) as int
}

/// POC lsb of a slice's picture; an IDR picture has 0.
pub open spec fn poc_of(info: SliceFields) -> int {
    match info.poc_lsb {
        Some(lsb) => lsb as int,
        None => 0,
    }
}

/// The POC lsbs of the pictures that `entries` name, then that of the current one.
pub open spec fn dpb_after(entries: Seq<RpsEntry>, poc: int, poc_max: int) -> Seq<u32> {
    entries.map_values(
        |e: RpsEntry| conceal::poc_lsb_at(poc, e.delta_poc as int, poc_max),
    ).push(poc as u32)
}

/// The slice with its RPS replaced by `entries`, if that can be expressed.
pub open spec fn repaired_slice(
    nal: Seq<u8>,
    sps: SpsFields,
    pps: PpsInfo,
    entries: Seq<RpsEntry>,
) -> Option<Seq<u8>> {
    match slice::rewritten(nal, sps, pps, entries) {
        Ok(bytes) => if rps::encodable(entries) {
            Some(bytes)
        } else {
            None
        },
        Err(_) => None,
    }
}

/// Whether a used entry is among `entries`.
pub open spec fn any_used(entries: Seq<RpsEntry>) -> bool {
    exists|i: int| 0 <= i < entries.len() && (#[trigger] entries[i]).used
}

/// What to submit for the slice `nal`, which says `info`, if the DPB holds `decoded`.
///
/// The slice is repaired only when that can produce a decodable one: a slice with
/// a missing used reference, and none left to stand in for it, is submitted as it
/// is, and so is one that cannot be rewritten.
pub open spec fn slice_plan(
    nal: Seq<u8>,
    info: SliceFields,
    sps: SpsFields,
    pps: PpsInfo,
    decoded: Seq<u32>,
    repair_enabled: bool,
) -> NalPlan {
    let poc_max = poc_max_of(sps);
    let poc = poc_of(info);
    let entries = conceal::concealed(info.rps, poc, poc_max, decoded);
    let missing_used = conceal::misses_used(info.rps, poc, poc_max, decoded);
    let wanted = repair_enabled && entries != info.rps && (!missing_used || any_used(entries));
    match (wanted, repaired_slice(nal, sps, pps, entries)) {
        (true, Some(bytes)) => NalPlan {
            bytes,
            dpb: Some(dpb_after(entries, poc, poc_max)),
            repair: Some(
                Repair {
                    poc: poc as i64,
                    kept: entries.len() as usize,
                    total: info.rps.len() as usize,
                    concealed: missing_used,
                },
            ),
        },
        _ => NalPlan {
            bytes: nal,
            dpb: Some(dpb_after(info.rps, poc, poc_max)),
            repair: None,
        },
    }
}

/// What to submit for `nal`. Without header information, or if it does not parse
/// as a slice, it is submitted as it is.
#[verifier::opaque]
pub open spec fn nal_plan(
    nal: Seq<u8>,
    header_info: Option<(SpsFields, PpsInfo)>,
    decoded: Seq<u32>,
    repair_enabled: bool,
) -> NalPlan {
    match header_info {
        None => NalPlan { bytes: nal, dpb: None, repair: None },
        Some((sps, pps)) => match slice::slice_of(nal, sps, pps) {
            Err(_) => NalPlan { bytes: nal, dpb: None, repair: None },
            Ok(info) => slice_plan(nal, info, sps, pps, decoded, repair_enabled),
        },
    }
}

/// Append the number of bytes in `unit`, big-endian, and the bytes.
fn put_length_prefixed(out: &mut Vec<u8>, unit: &[u8])
    ensures
        final(out)@ == old(out)@ + bitstream::be32_bytes(unit@.len()) + unit@,
{
    let ghost given = out@;
    let n: u64 = unit.len() as u64;
    out.push((n / 0x100_0000 % 0x100) as u8);
    out.push((n / 0x1_0000 % 0x100) as u8);
    out.push((n / 0x100 % 0x100) as u8);
    out.push((n % 0x100) as u8);
    assert(out@ =~= given + bitstream::be32_bytes(unit@.len()));
    out.extend_from_slice(unit);
}

/// The POC lsbs that a decoded slice leaves in the DPB.
fn retained_lsbs(entries: &[RpsEntry], poc: i64, poc_max: i64) -> (dpb: Vec<u32>)
    requires
        poc_max > 0,
        0 <= poc <= u32::MAX,
    ensures
        dpb@ == dpb_after(entries@, poc as int, poc_max as int),
{
    let mut dpb: Vec<u32> = Vec::new();
    let mut i: usize = 0;
    while i < entries.len()
        invariant
            i <= entries@.len(),
            poc_max > 0,
            0 <= poc <= u32::MAX,
            dpb@.len() == i,
            forall|k: int|
                0 <= k < i ==> #[trigger] dpb@[k] == conceal::poc_lsb_at(
                    poc as int,
                    entries@[k].delta_poc as int,
                    poc_max as int,
                ),
        decreases entries@.len() - i,
    {
        dpb.push(ref_poc_lsb(poc, entries[i].delta_poc, poc_max));
        i = i + 1;
    }
    dpb.push(poc as u32);
    assert(dpb@ =~= dpb_after(entries@, poc as int, poc_max as int));
    dpb
}

/// Whether two entry lists are equal.
fn same_entries(a: &[RpsEntry], b: &[RpsEntry]) -> (res: bool)
    ensures
        res == (a@ == b@),
{
    if a.len() != b.len() {
        return false;
    }
    let mut i: usize = 0;
    while i < a.len()
        invariant
            i <= a@.len(),
            a@.len() == b@.len(),
            forall|k: int| 0 <= k < i ==> a@[k] == b@[k],
        decreases a@.len() - i,
    {
        if a[i] != b[i] {
            assert(a@[i as int] != b@[i as int]);
            return false;
        }
        i = i + 1;
    }
    assert(a@ =~= b@);
    true
}

/// Whether a used entry is among `entries`.
fn has_used(entries: &[RpsEntry]) -> (res: bool)
    ensures
        res == any_used(entries@),
{
    let mut i: usize = 0;
    while i < entries.len()
        invariant
            i <= entries@.len(),
            forall|k: int| 0 <= k < i ==> !(#[trigger] entries@[k]).used,
        decreases entries@.len() - i,
    {
        if entries[i].used {
            return true;
        }
        i = i + 1;
    }
    false
}

/// How many POC lsbs there are.
fn poc_lsb_count(sps: &SpsInfo) -> (poc_max: i64)
    requires
        sps.wf(),
    ensures
        poc_max == poc_max_of(sps@),
        0 < poc_max <= 0x1_0000,
{
    let bits: u64 = sps.poc_lsb_bits as u64;
    proof {
        power2::lemma2_to64();
        power2::lemma_pow2_pos(bits as nat);
        if bits < 16 {
            power2::lemma_pow2_strictly_increases(bits as nat, 16);
        }
        vstd::bits::lemma_u64_shl_is_mul(1, bits);
    }
    (1u64 << bits) as i64
}

/// What is submitted for one NAL unit.
struct PlannedNal {
    /// The repaired NAL unit, if there was a repair.
    repaired: Option<Vec<u8>>,
    dpb: Option<Vec<u32>>,
    repair: Option<Repair>,
}

impl PlannedNal {
    /// Whether this is `plan` for `nal`.
    spec fn matches_plan(&self, nal: Seq<u8>, plan: NalPlan) -> bool {
        &&& plan.bytes == match self.repaired {
            Some(bytes) => bytes@,
            None => nal,
        }
        &&& match (self.dpb, plan.dpb) {
            (Some(dpb), Some(lsbs)) => dpb@ == lsbs,
            (None, None) => true,
            _ => false,
        }
        &&& self.repair == plan.repair
    }
}

/// Plan the submission of a slice.
#[verifier::rlimit(40)]
fn plan_slice(
    nal: &[u8],
    info: &SliceInfo,
    sps: &SpsInfo,
    pps: &PpsInfo,
    decoded: &[u32],
    repair_enabled: bool,
) -> (res: PlannedNal)
    requires
        sps.wf(),
    ensures
        res.matches_plan(
            nal@,
            slice_plan(nal@, info@, sps@, *pps, decoded@, repair_enabled),
        ),
{
    let poc_max: i64 = poc_lsb_count(sps);
    let poc: i64 = match info.poc_lsb {
        Some(lsb) => lsb as i64,
        None => 0,
    };
    let (entries, missing_used) = conceal_rps(info.rps.as_slice(), poc, poc_max, decoded);

    // Repair only when it can produce a decodable P-slice; an unrepairable one is
    // submitted as-is so the normal failure path (keyframe request) takes over.
    let repairable: bool = !missing_used || has_used(entries.as_slice());
    if repair_enabled && !same_entries(entries.as_slice(), info.rps.as_slice()) && repairable {
        // Fail open: an un-rewritable slice passes through unmodified.
        if rps::is_encodable(entries.as_slice()) {
            if let Ok(bytes) = rewrite_rps(nal, sps, pps, entries.as_slice()) {
                return PlannedNal {
                    repaired: Some(bytes),
                    dpb: Some(retained_lsbs(entries.as_slice(), poc, poc_max)),
                    repair: Some(
                        Repair {
                            poc,
                            kept: entries.len(),
                            total: info.rps.len(),
                            concealed: missing_used,
                        },
                    ),
                };
            }
        }
    }
    PlannedNal {
        repaired: None,
        dpb: Some(retained_lsbs(info.rps.as_slice(), poc, poc_max)),
        repair: None,
    }
}

/// Plan the submission of a NAL unit.
fn plan_nal(
    nal: &[u8],
    header_info: &Option<(SpsInfo, PpsInfo)>,
    decoded: &[u32],
    repair_enabled: bool,
) -> (res: PlannedNal)
    requires
        header_info is Some ==> (header_info->0).0.wf(),
    ensures
        res.matches_plan(
            nal@,
            nal_plan(nal@, header_fields(*header_info), decoded@, repair_enabled),
        ),
{
    proof {
        reveal(nal_plan);
    }
    // Non-slice NALs (SEI, AUD, ...) and unsupported slice layouts fail to parse
    // and are passed through unmodified.
    if let Some((sps, pps)) = header_info {
        if let Ok(info) = parse_slice(nal, sps, pps) {
            return plan_slice(nal, &info, sps, pps, decoded, repair_enabled);
        }
    }
    PlannedNal { repaired: None, dpb: None, repair: None }
}

/// What the parameter sets of a session say.
pub open spec fn header_fields(header_info: Option<(SpsInfo, PpsInfo)>) -> Option<
    (SpsFields, PpsInfo),
> {
    match header_info {
        Some((sps, pps)) => Some((sps@, pps)),
        None => None,
    }
}

/// The state of a hardware HEVC decoder.
///
/// An access unit is decoded in steps, between which the caller talks to the
/// hardware session: [`HevcDecoder::session_request`] says whether a session has
/// to be created first, and [`HevcDecoder::session_created`] that it was;
/// [`HevcDecoder::prepare`] gives what to submit, and [`HevcDecoder::finish`]
/// takes what came out.
pub struct HevcDecoder {
    /// Parameter sets the current session was created from; a change (e.g. the
    /// encoder restarted at a new resolution) forces session recreation. `None`
    /// while there is no session.
    parameter_sets: Option<ParameterSets>,
    /// Set until a keyframe resynchronizes the decoder: initially, after
    /// `reset`, and after any per-frame decode failure.
    waiting_for_keyframe: bool,
    /// Whether to repair slices referencing pictures missing from the DPB.
    conceal_missing_references: bool,
    /// Parsed SPS/PPS of the current session, needed to parse slice headers for
    /// the RPS repair. `None` when concealment is off or the parameter sets fall
    /// outside the supported profile, either of which disables the repair.
    header_info: Option<(SpsInfo, PpsInfo)>,
    /// POC lsbs assumed to be in VideoToolbox's DPB; used by the RPS repair.
    decoded_poc_lsbs: Vec<u32>,
}

/// What a [`HevcDecoder`] knows.
#[verifier::ext_equal]
pub struct DecoderState {
    pub parameter_sets: Option<ParameterSetBytes>,
    pub waiting_for_keyframe: bool,
    pub conceal_missing_references: bool,
    pub header_info: Option<(SpsFields, PpsInfo)>,
    pub decoded: Seq<u32>,
}

/// The bytes of the parameter sets, if any.
pub open spec fn set_bytes(sets: Option<ParameterSets>) -> Option<ParameterSetBytes> {
    match sets {
        Some(sets) => Some(sets@),
        None => None,
    }
}

impl View for HevcDecoder {
    type V = DecoderState;

    closed spec fn view(&self) -> DecoderState {
        DecoderState {
            parameter_sets: set_bytes(self.parameter_sets),
            waiting_for_keyframe: self.waiting_for_keyframe,
            conceal_missing_references: self.conceal_missing_references,
            header_info: header_fields(self.header_info),
            decoded: self.decoded_poc_lsbs@,
        }
    }
}

impl DecoderState {
    /// A decoder that has seen nothing.
    pub open spec fn initial(conceal_missing_references: bool) -> DecoderState {
        DecoderState {
            parameter_sets: None,
            waiting_for_keyframe: true,
            conceal_missing_references,
            header_info: None,
            decoded: Seq::empty(),
        }
    }

    /// The parameter sets in `nals` that a session has to be created from first.
    pub open spec fn requested_session(self, nals: Seq<Seq<u8>>) -> Option<ParameterSetBytes> {
        let sets = bitstream::parameter_sets_of(nals);
        if sets is Some && self.parameter_sets != sets {
            sets
        } else {
            None
        }
    }

    /// The decoder once a session was created from `sets`.
    pub open spec fn with_session(self, sets: ParameterSetBytes) -> DecoderState {
        DecoderState {
            parameter_sets: Some(sets),
            header_info: match (headers::sps_of(sets.sps), headers::pps_of(sets.pps)) {
                (Ok(sps), Ok(pps)) => if self.conceal_missing_references {
                    Some((sps, pps))
                } else {
                    None
                },
                _ => None,
            },
            decoded: Seq::empty(),
            ..self
        }
    }

    /// Whether `nals` cannot be decoded for want of a keyframe: there is no session
    /// yet, or the decoder is out of sync and they hold no keyframe.
    pub open spec fn lacks_keyframe(self, nals: Seq<Seq<u8>>) -> bool {
        self.parameter_sets is None || self.waiting_for_keyframe && !holds_keyframe(nals)
    }

    /// The decoder once `submission` was decoded, if `decoded`, or failed.
    pub open spec fn after(self, submission: SubmissionFields, decoded: bool) -> DecoderState {
        if !decoded {
            DecoderState { waiting_for_keyframe: true, ..self }
        } else {
            DecoderState {
                waiting_for_keyframe: self.waiting_for_keyframe && !submission.is_keyframe,
                decoded: if self.header_info is Some {
                    match submission.dpb_after_decode {
                        Some(lsbs) => lsbs,
                        None => Seq::empty(),
                    }
                } else {
                    self.decoded
                },
                ..self
            }
        }
    }

    /// What the decoder submits for `nals`.
    pub open spec fn submission(self, nals: Seq<Seq<u8>>) -> SubmissionFields {
        let plans = plans_for(nals, self.header_info, self.decoded, repair_enabled(nals));
        SubmissionFields {
            data: bitstream::length_prefixed(plan_bytes(plans)),
            is_keyframe: holds_keyframe(nals),
            dpb_after_decode: first_dpb(plans),
            repairs: repairs_in(plans),
        }
    }
}

/// Whether `nals` hold an IRAP slice.
pub open spec fn holds_keyframe(nals: Seq<Seq<u8>>) -> bool {
    exists|i: int| 0 <= i < nals.len() && bitstream::irap_nal(#[trigger] nals[i])
}

/// Whether `nal` is coded picture data.
pub open spec fn picture_nal() -> spec_fn(Seq<u8>) -> bool {
    |nal: Seq<u8>| bitstream::nal_type(nal) is Some && bitstream::nal_type(nal)->0 <= 21
}

/// Whether a slice among `nals` may be repaired: only first-slice segments can be
/// rewritten, so repairing a picture of several slices would leave them
/// disagreeing.
pub open spec fn repair_enabled(nals: Seq<Seq<u8>>) -> bool {
    nals.filter(picture_nal()).len() <= 1
}

/// Whether `nal` is submitted: parameter sets are part of the session.
pub open spec fn submitted() -> spec_fn(Seq<u8>) -> bool {
    |nal: Seq<u8>| !bitstream::parameter_set_nal(nal)
}

/// What to submit for each of `nals`.
pub open spec fn plans_for(
    nals: Seq<Seq<u8>>,
    header_info: Option<(SpsFields, PpsInfo)>,
    decoded: Seq<u32>,
    repair_enabled: bool,
) -> Seq<NalPlan> {
    nals.filter(submitted()).map_values(
        |nal: Seq<u8>| nal_plan(nal, header_info, decoded, repair_enabled),
    )
}

/// The NAL units to submit.
pub open spec fn plan_bytes(plans: Seq<NalPlan>) -> Seq<Seq<u8>> {
    plans.map_values(|plan: NalPlan| plan.bytes)
}

/// What the first slice leaves in the DPB.
pub open spec fn first_dpb(plans: Seq<NalPlan>) -> Option<Seq<u32>>
    decreases plans.len(),
{
    if plans.len() == 0 {
        None
    } else if first_dpb(plans.drop_last()) is Some {
        first_dpb(plans.drop_last())
    } else {
        plans.last().dpb
    }
}

/// The repairs, in order.
pub open spec fn repairs_in(plans: Seq<NalPlan>) -> Seq<Repair>
    decreases plans.len(),
{
    if plans.len() == 0 {
        Seq::empty()
    } else {
        match plans.last().repair {
            Some(repair) => repairs_in(plans.drop_last()).push(repair),
            None => repairs_in(plans.drop_last()),
        }
    }
}

/// One access unit, ready for the hardware.
pub struct Submission {
    /// The NAL units, each behind its 4-byte big-endian length. Parameter sets are
    /// left out (they live in the format description).
    pub data: Vec<u8>,
    /// Whether the access unit holds a keyframe.
    pub is_keyframe: bool,
    /// POC lsbs (current picture + retained references) to install as the
    /// assumed DPB contents once this access unit decodes successfully.
    pub dpb_after_decode: Option<Vec<u32>>,
    /// The slices that were repaired.
    pub repairs: Vec<Repair>,
}

/// What a [`Submission`] holds.
#[verifier::ext_equal]
pub struct SubmissionFields {
    pub data: Seq<u8>,
    pub is_keyframe: bool,
    pub dpb_after_decode: Option<Seq<u32>>,
    pub repairs: Seq<Repair>,
}

/// The POC lsbs, if any.
pub open spec fn lsbs_of(dpb: Option<Vec<u32>>) -> Option<Seq<u32>> {
    match dpb {
        Some(lsbs) => Some(lsbs@),
        None => None,
    }
}

impl View for Submission {
    type V = SubmissionFields;

    open spec fn view(&self) -> SubmissionFields {
        SubmissionFields {
            data: self.data@,
            is_keyframe: self.is_keyframe,
            dpb_after_decode: lsbs_of(self.dpb_after_decode),
            repairs: self.repairs@,
        }
    }
}

/// Length-prefixing one more NAL unit appends it.
proof fn lemma_length_prefixed_push(units: Seq<Seq<u8>>, unit: Seq<u8>)
    ensures
        bitstream::length_prefixed(units.push(unit)) == bitstream::length_prefixed(units)
            + bitstream::be32_bytes(unit.len()) + unit,
    decreases units.len(),
{
    let all = units.push(unit);
    if units.len() == 0 {
        assert(all.drop_first() =~= Seq::empty());
        assert(bitstream::length_prefixed(all.drop_first()) =~= Seq::<u8>::empty());
        assert(bitstream::length_prefixed(all) =~= bitstream::length_prefixed(units)
            + bitstream::be32_bytes(unit.len()) + unit);
    } else {
        lemma_length_prefixed_push(units.drop_first(), unit);
        assert(all.drop_first() =~= units.drop_first().push(unit));
        assert(bitstream::length_prefixed(all) =~= bitstream::length_prefixed(units)
            + bitstream::be32_bytes(unit.len()) + unit);
    }
}

/// Planning one more NAL unit appends its plan.
proof fn lemma_plans_push(
    nals: Seq<Seq<u8>>,
    nal: Seq<u8>,
    header_info: Option<(SpsFields, PpsInfo)>,
    decoded: Seq<u32>,
    enabled: bool,
)
    ensures
        ({
            let plans = plans_for(nals, header_info, decoded, enabled);
            let plan = nal_plan(nal, header_info, decoded, enabled);
            plans_for(nals.push(nal), header_info, decoded, enabled) == if submitted()(nal) {
                plans.push(plan)
            } else {
                plans
            }
        }),
{
    reveal(Seq::filter);
    assert(nals.push(nal).drop_last() =~= nals);
    let plans = plans_for(nals, header_info, decoded, enabled);
    let plan = nal_plan(nal, header_info, decoded, enabled);
    if submitted()(nal) {
        assert(plans_for(nals.push(nal), header_info, decoded, enabled) =~= plans.push(plan));
    }
}

/// What planning one more NAL unit adds to a submission.
proof fn lemma_plan_step(
    nals: Seq<Seq<u8>>,
    nal: Seq<u8>,
    header_info: Option<(SpsFields, PpsInfo)>,
    decoded: Seq<u32>,
    enabled: bool,
)
    ensures
        ({
            let plans = plans_for(nals, header_info, decoded, enabled);
            let plan = nal_plan(nal, header_info, decoded, enabled);
            let all = plans_for(nals.push(nal), header_info, decoded, enabled);
            let data = bitstream::length_prefixed(plan_bytes(plans));
            if submitted()(nal) {
                &&& bitstream::length_prefixed(plan_bytes(all)) == data + bitstream::be32_bytes(
                    plan.bytes.len(),
                ) + plan.bytes
                &&& first_dpb(all) == if first_dpb(plans) is Some {
                    first_dpb(plans)
                } else {
                    plan.dpb
                }
                &&& repairs_in(all) == match plan.repair {
                    Some(repair) => repairs_in(plans).push(repair),
                    None => repairs_in(plans),
                }
            } else {
                all == plans
            }
        }),
{
    let plans = plans_for(nals, header_info, decoded, enabled);
    let plan = nal_plan(nal, header_info, decoded, enabled);
    lemma_plans_push(nals, nal, header_info, decoded, enabled);
    if submitted()(nal) {
        lemma_length_prefixed_push(plan_bytes(plans), plan.bytes);
        assert(plan_bytes(plans.push(plan)) =~= plan_bytes(plans).push(plan.bytes));
        assert(plans.push(plan).drop_last() =~= plans);
    }
}

/// Count the NAL units with coded picture data.
fn count_pictures(nals: &[&[u8]]) -> (n: usize)
    ensures
        n == bitstream::nal_bytes(nals@).filter(picture_nal()).len(),
{
    let ghost all = bitstream::nal_bytes(nals@);
    let mut n: usize = 0;
    let mut i: usize = 0;
    proof {
        reveal(Seq::filter);
    }
    while i < nals.len()
        invariant
            i <= nals@.len(),
            n <= i,
            all == bitstream::nal_bytes(nals@),
            n == all.take(i as int).filter(picture_nal()).len(),
        decreases nals@.len() - i,
    {
        proof {
            reveal(Seq::filter);
            assert(all.take(i + 1).drop_last() =~= all.take(i as int));
            assert(all.take(i + 1).last() == nals@[i as int]@);
        }
        if let Some(ty) = nal_unit_type(nals[i]) {
            if ty <= 21 {
                n = n + 1;
            }
        }
        i = i + 1;
    }
    assert(all.take(i as int) =~= all);
    n
}

/// Whether the bytes are equal.
fn same_bytes(a: &Vec<u8>, b: &Vec<u8>) -> (res: bool)
    ensures
        res == (a@ == b@),
{
    if a.len() != b.len() {
        return false;
    }
    let mut i: usize = 0;
    while i < a.len()
        invariant
            i <= a@.len(),
            a@.len() == b@.len(),
            forall|k: int| 0 <= k < i ==> a@[k] == b@[k],
        decreases a@.len() - i,
    {
        if a[i] != b[i] {
            return false;
        }
        i = i + 1;
    }
    assert(a@ =~= b@);
    true
}

/// Whether a NAL list holds a keyframe.
fn contains_keyframe(nals: &[&[u8]]) -> (res: bool)
    ensures
        res == holds_keyframe(bitstream::nal_bytes(nals@)),
{
    let ghost all = bitstream::nal_bytes(nals@);
    let res: bool = nals_contain_keyframe(nals);
    proof {
        assert(all.len() == nals@.len());
        assert(forall|i: int| 0 <= i < nals@.len() ==> all[i] == (#[trigger] nals@[i])@);
        if res {
            let i = choose|i: int|
                0 <= i < nals@.len() && bitstream::irap_nal((#[trigger] nals@[i])@);
            assert(bitstream::irap_nal(all[i]));
        }
    }
    res
}

impl HevcDecoder {
    /// What holds of every decoder: the header information is that of a parsed SPS.
    #[verifier::type_invariant]
    spec fn wf(&self) -> bool {
        self.header_info is Some ==> (self.header_info->0).0.wf()
    }

    /// Create a decoder. The hardware session is created lazily, from the
    /// parameter sets of the first keyframe fed to it.
    pub fn new(config: &DecoderConfig) -> (res: HevcDecoder)
        ensures
            res@ == DecoderState::initial(config.conceal_missing_references),
    {
        HevcDecoder {
            parameter_sets: None,
            waiting_for_keyframe: true,
            conceal_missing_references: config.conceal_missing_references,
            header_info: None,
            decoded_poc_lsbs: Vec::new(),
        }
    }

    /// Whether only a keyframe can be decoded: initially, after `reset`, and after
    /// any per-frame decode failure.
    pub fn is_waiting_for_keyframe(&self) -> (res: bool)
        ensures
            res == self@.waiting_for_keyframe,
    {
        self.waiting_for_keyframe
    }

    /// Whether slices that reference missing pictures are repaired in this session.
    pub fn repairs_slices(&self) -> (res: bool)
        ensures
            res == (self@.header_info is Some),
    {
        self.header_info.is_some()
    }

    /// POC lsbs assumed to be in VideoToolbox's DPB.
    pub fn decoded_poc_lsbs(&self) -> (res: &[u32])
        ensures
            res@ == self@.decoded,
    {
        self.decoded_poc_lsbs.as_slice()
    }

    /// The parameter sets that a session has to be created from before `annex_b`
    /// can be decoded: those in band, if they differ from the session's.
    ///
    /// Differing ones mean the encoder restarted (at a new resolution, say), so
    /// the session can no longer decode and is rebuilt. Keyframes carry all three
    /// sets in band.
    pub fn session_request(&self, annex_b: &[u8]) -> (res: Option<ParameterSets>)
        ensures
            set_bytes(res) == self@.requested_session(bitstream::annex_b_units(annex_b@)),
    {
        let nals = annex_b_nal_units(annex_b);
        match parameter_sets_from_nals(nals.as_slice()) {
            None => None,
            Some(sets) => {
                let known: bool = match &self.parameter_sets {
                    None => false,
                    Some(own) => same_bytes(&own.vps, &sets.vps) && same_bytes(
                        &own.sps,
                        &sets.sps,
                    ) && same_bytes(&own.pps, &sets.pps),
                };
                if known {
                    assert(self@.parameter_sets->0 =~= sets@);
                    None
                } else {
                    Some(sets)
                }
            },
        }
    }

    /// A session was created from `sets`. The result is what keeps slices from being
    /// repaired, if concealment is on: an unsupported bitstream feature disables the
    /// repair, not decoding.
    pub fn session_created(&mut self, sets: ParameterSets) -> (res: Option<HevcError>)
        ensures
            final(self)@ == old(self)@.with_session(sets@),
            res == match (headers::sps_of(sets@.sps), headers::pps_of(sets@.pps)) {
                (Err(e), _) => if old(self)@.conceal_missing_references {
                    Some(e)
                } else {
                    None
                },
                (Ok(_), Err(e)) => if old(self)@.conceal_missing_references {
                    Some(e)
                } else {
                    None
                },
                _ => None,
            },
    {
        let mut header_info: Option<(SpsInfo, PpsInfo)> = None;
        let mut problem: Option<HevcError> = None;
        if self.conceal_missing_references {
            match parse_sps(sets.sps.as_slice()) {
                Err(e) => {
                    problem = Some(e);
                },
                Ok(sps) => {
                    match parse_pps(sets.pps.as_slice()) {
                        Err(e) => {
                            problem = Some(e);
                        },
                        Ok(pps) => {
                            header_info = Some((sps, pps));
                        },
                    }
                },
            }
        }
        self.header_info = header_info;
        self.parameter_sets = Some(sets);
        self.decoded_poc_lsbs = Vec::new();
        assert(self@ =~= old(self)@.with_session(sets@));
        problem
    }

    /// What to submit for one HEVC Annex B access unit, once any session it needs
    /// was created.
    #[verifier::rlimit(40)]
    pub fn prepare(&self, annex_b: &[u8]) -> (res: Result<Submission, DecodeError>)
        ensures
            ({
                let nals = bitstream::annex_b_units(annex_b@);
                match res {
                    Ok(submission) => {
                        &&& !self@.lacks_keyframe(nals)
                        &&& submission@ == self@.submission(nals)
                    },
                    Err(e) => self@.lacks_keyframe(nals) && e is MissingKeyframe,
                }
            }),
    {
        let nals = annex_b_nal_units(annex_b);
        let ghost all = bitstream::nal_bytes(nals@);
        let ghost header_info = self@.header_info;
        let ghost decoded = self@.decoded;

        // No session yet: inter frames arrived before any keyframe.
        if self.parameter_sets.is_none() {
            return Err(DecodeError::MissingKeyframe);
        }
        // Out of sync and not a keyframe: an inter frame can only reference pictures
        // the decoder does not hold, so submitting it would fail.
        let is_keyframe: bool = contains_keyframe(nals.as_slice());
        if self.waiting_for_keyframe && !is_keyframe {
            return Err(DecodeError::MissingKeyframe);
        }

        // Repackage Annex B → 4-byte length prefixes, skipping VPS/SPS/PPS (they
        // live in the format description), and repair slices whose RPS references
        // pictures that were never decoded.
        let mut data: Vec<u8> = Vec::new();
        let mut dpb_after_decode: Option<Vec<u32>> = None;
        let mut repairs: Vec<Repair> = Vec::new();
        // Only first-slice segments are rewritten, so repairing a multi-slice picture
        // would leave its slices disagreeing; fail open instead. The supported
        // encoders emit single-slice pictures.
        let enabled: bool = count_pictures(nals.as_slice()) <= 1;
        proof {
            reveal(Seq::filter);
            assert(plans_for(all.take(0), header_info, decoded, enabled) =~= Seq::empty());
            assert(plan_bytes(Seq::empty()) =~= Seq::empty());
        }
        let mut i: usize = 0;
        while i < nals.len()
            invariant
                i <= nals@.len(),
                all == bitstream::nal_bytes(nals@),
                header_info == header_fields(self.header_info),
                decoded == self.decoded_poc_lsbs@,
                ({
                    let plans = plans_for(all.take(i as int), header_info, decoded, enabled);
                    &&& data@ == bitstream::length_prefixed(plan_bytes(plans))
                    &&& lsbs_of(dpb_after_decode) == first_dpb(plans)
                    &&& repairs@ == repairs_in(plans)
                }),
            decreases nals@.len() - i,
        {
            proof {
                use_type_invariant(self);
            }
            let nal: &[u8] = nals[i];
            let ghost plans = plans_for(all.take(i as int), header_info, decoded, enabled);
            let ghost plan = nal_plan(nal@, header_info, decoded, enabled);
            proof {
                assert(all.take(i + 1) =~= all.take(i as int).push(nal@));
                lemma_plan_step(all.take(i as int), nal@, header_info, decoded, enabled);
            }
            if !is_parameter_set(nal) {
                let planned = plan_nal(
                    nal,
                    &self.header_info,
                    self.decoded_poc_lsbs.as_slice(),
                    enabled,
                );
                if dpb_after_decode.is_none() {
                    dpb_after_decode = planned.dpb;
                }
                if let Some(repair) = planned.repair {
                    repairs.push(repair);
                }
                match planned.repaired {
                    Some(bytes) => put_length_prefixed(&mut data, bytes.as_slice()),
                    None => put_length_prefixed(&mut data, nal),
                }
            }
            i = i + 1;
        }
        assert(all.take(i as int) =~= all);
        Ok(Submission { data, is_keyframe, dpb_after_decode, repairs })
    }

    /// Take what the hardware made of a submission: a picture, or why there is none.
    ///
    /// Per-frame failures (kVTVideoDecoderBadDataErr on reference loss, say) are
    /// recoverable: the decoder waits for a keyframe, and keeps its session.
    pub fn finish(
        &mut self,
        submission: Submission,
        output: Result<BgraFrame, String>,
    ) -> (res: Result<DecodedFrame, DecodeError>)
        ensures
            final(self)@ == old(self)@.after(submission@, output is Ok),
            res == match output {
                Ok(frame) => Ok::<DecodedFrame, DecodeError>(
                    (DecodedFrame { frame, is_keyframe: submission.is_keyframe }),
                ),
                Err(msg) => Err(DecodeError::Frame(msg)),
            },
    {
        proof {
            use_type_invariant(&*self);
        }
        match output {
            Err(msg) => {
                self.waiting_for_keyframe = true;
                Err(DecodeError::Frame(msg))
            },
            Ok(frame) => {
                if submission.is_keyframe {
                    self.waiting_for_keyframe = false;
                }
                // The decoder's DPB now holds this picture plus the references its
                // slice header retained; anything else was released per RPS
                // semantics.
                if self.header_info.is_some() {
                    self.decoded_poc_lsbs = match submission.dpb_after_decode {
                        Some(lsbs) => lsbs,
                        None => Vec::new(),
                    };
                }
                Ok(DecodedFrame { frame, is_keyframe: submission.is_keyframe })
            },
        }
    }

    /// Drop the session and wait for a keyframe again.
    pub fn reset(&mut self)
        ensures
            final(self)@ == DecoderState::initial(old(self)@.conceal_missing_references),
    {
        self.header_info = None;
        self.parameter_sets = None;
        self.waiting_for_keyframe = true;
        self.decoded_poc_lsbs = Vec::new();
    }
}

/// What a decode came to, given how submitting went and what the output callback
/// left behind: a submission that was refused, and a callback that never ran, are
/// failures of this frame.
pub fn decode_output(
    submitted: Result<(), String>,
    output: Option<Result<BgraFrame, String>>,
) -> (res: Result<BgraFrame, String>)
    ensures
        match (submitted, output) {
            (Err(msg), _) => res == Err::<BgraFrame, String>(msg),
            (Ok(_), Some(output)) => res == output,
            (Ok(_), None) => res is Err && res->Err_0@ == "decode callback produced no result"@,
        },
{
    match submitted {
        Err(msg) => Err(msg),
        Ok(_) => match output {
            Some(output) => output,
            None => Err("decode callback produced no result".to_string()),
        },
    }
}

/// Rate limiting for the RPS-repair warning: the first in a quiet period is
/// logged immediately, the rest fold into "and N more".
#[derive(Debug, Clone, Copy, PartialEq, Eq, Structural)]
pub struct RepairLog {
    /// When the last warning was emitted, in nanoseconds on the caller's clock.
    pub last: Option<u64>,
    /// Repairs suppressed since the last emitted warning.
    pub suppressed: u32,
}

impl RepairLog {
    /// Whether a warning was emitted less than a second before `now`. A clock that
    /// runs backwards counts as standing still.
    pub open spec fn recently_logged(self, now: u64) -> bool {
        self.last is Some && now - self.last->0 < 1_000_000_000
    }

    /// What is emitted when a repair happens at `now`, and the log then.
    pub open spec fn noted(self, now: u64) -> (Option<u32>, RepairLog) {
        if self.recently_logged(now) {
            (
                None,
                RepairLog { last: self.last, suppressed: (self.suppressed + 1) as u32 },
            )
        } else {
            (Some(self.suppressed), RepairLog { last: Some(now), suppressed: 0 })
        }
    }

    /// The log after repairs at these times, and how many of them were warned of, each
    /// warning counted with those it reports as suppressed before it.
    pub open spec fn noted_all(self, times: Seq<u64>) -> (nat, RepairLog)
        decreases times.len(),
    {
        if times.len() == 0 {
            (0, self)
        } else {
            let (told, log) = self.noted_all(times.drop_last());
            let (warning, log) = log.noted(times.last());
            match warning {
                Some(suppressed) => (told + suppressed as nat + 1, log),
                None => (told, log),
            }
        }
    }

    /// A log that has emitted nothing.
    pub fn new() -> (res: Self)
        ensures
            res == (RepairLog { last: None, suppressed: 0 }),
    {
        RepairLog { last: None, suppressed: 0 }
    }

    /// Whether a warning was emitted less than a second before `now`.
    pub fn is_recent(&self, now: u64) -> (res: bool)
        ensures
            res == self.recently_logged(now),
    {
        match self.last {
            Some(last) => now < last || now - last < 1_000_000_000,
            None => false,
        }
    }

    /// A repair happened at `now`. Warnings are emitted at most once a second:
    /// `None` if this one is suppressed, else how many were suppressed before it.
    pub fn note(&mut self, now: u64) -> (res: Option<u32>)
        requires
            old(self).recently_logged(now) ==> old(self).suppressed < u32::MAX,
        ensures
            (res, *final(self)) == old(self).noted(now),
            old(self).recently_logged(now) ==> {
                &&& res is None
                &&& *final(self) == (RepairLog {
                    last: old(self).last,
                    suppressed: (old(self).suppressed + 1) as u32,
                })
            },
            !old(self).recently_logged(now) ==> {
                &&& res == Some(old(self).suppressed)
                &&& *final(self) == (RepairLog { last: Some(now), suppressed: 0 })
            },
    {
        if self.is_recent(now) {
            self.suppressed = self.suppressed + 1;
            return None;
        }
        let suppressed: u32 = self.suppressed;
        self.last = Some(now);
        self.suppressed = 0;
        Some(suppressed)
    }
}

/// A decoder that has no session, that failed to decode a frame, or that was reset,
/// takes no access unit without a keyframe.
pub proof fn law_decoder_waits_for_keyframe(
    state: DecoderState,
    submission: SubmissionFields,
    nals: Seq<Seq<u8>>,
)
    requires
        !holds_keyframe(nals),
    ensures
        DecoderState::initial(state.conceal_missing_references).lacks_keyframe(nals),
        state.after(submission, false).lacks_keyframe(nals),
{
}

/// A decoder that waits for a keyframe goes on waiting until an access unit with a
/// keyframe was decoded, and then waits no longer.
pub proof fn law_decoded_keyframe_ends_the_wait(state: DecoderState, nals: Seq<Seq<u8>>)
    ensures
        state.after(state.submission(nals), true).waiting_for_keyframe == (
        state.waiting_for_keyframe && !holds_keyframe(nals)),
{
}

/// Without header information, which a decoder that does not conceal never has,
/// the NAL units are submitted as they came, parameter sets left out.
pub proof fn law_no_concealment_leaves_slices_untouched(state: DecoderState, nals: Seq<Seq<u8>>)
    requires
        state.header_info is None,
    ensures
        state.submission(nals).data == bitstream::length_prefixed(nals.filter(submitted())),
        state.submission(nals).repairs == Seq::<Repair>::empty(),
        forall|sets: ParameterSetBytes|
            !state.conceal_missing_references ==> (#[trigger] state.with_session(
                sets,
            )).header_info is None,
{
    reveal(nal_plan);
    let plans = plans_for(nals, state.header_info, state.decoded, repair_enabled(nals));
    assert(plan_bytes(plans) =~= nals.filter(submitted()));
    assert forall|k: int| 0 <= k < plans.len() implies (#[trigger] plans[k]).repair is None by {}
    lemma_no_repairs(plans);
}

/// Plans without repairs add up to none.
proof fn lemma_no_repairs(plans: Seq<NalPlan>)
    requires
        forall|k: int| 0 <= k < plans.len() ==> (#[trigger] plans[k]).repair is None,
    ensures
        repairs_in(plans) == Seq::<Repair>::empty(),
    decreases plans.len(),
{
    if plans.len() > 0 {
        assert(plans[plans.len() - 1].repair is None);
        assert forall|k: int| 0 <= k < plans.drop_last().len() implies (
        #[trigger] plans.drop_last()[k]).repair is None by {
            assert(plans.drop_last()[k] == plans[k]);
        }
        lemma_no_repairs(plans.drop_last());
    }
}

/// A slice whose references are all in the DPB is submitted as it came.
pub proof fn law_complete_slice_is_untouched(
    nal: Seq<u8>,
    sps: SpsFields,
    pps: PpsInfo,
    decoded: Seq<u32>,
    enabled: bool,
)
    requires
        slice::slice_of(nal, sps, pps) is Ok,
        ({
            let info = slice::slice_of(nal, sps, pps)->Ok_0;
            forall|i: int|
                0 <= i < info.rps.len() ==> conceal::in_dpb(
                    decoded,
                    poc_of(info),
                    poc_max_of(sps),
                )(#[trigger] info.rps[i])
        }),
    ensures
        nal_plan(nal, Some((sps, pps)), decoded, enabled).bytes == nal,
        nal_plan(nal, Some((sps, pps)), decoded, enabled).repair is None,
{
    reveal(nal_plan);
    let info = slice::slice_of(nal, sps, pps)->Ok_0;
    conceal::law_complete_rps_is_kept(info.rps, poc_of(info), poc_max_of(sps), decoded);
}

/// A repaired slice parses, is of the same picture, has the same payload, and names
/// only pictures that are in the DPB. If a used reference was missing and the DPB
/// holds another picture, the slice predicts from the newest such picture.
#[verifier::rlimit(40)]
pub proof fn law_repaired_slice_is_decodable(
    nal: Seq<u8>,
    sps: SpsFields,
    pps: PpsInfo,
    decoded: Seq<u32>,
    enabled: bool,
)
    requires
        sps.poc_lsb_bits <= 16,
        forall|i: int| 0 <= i < decoded.len() ==> #[trigger] decoded[i] < poc_max_of(sps),
        slice::slice_of(nal, sps, pps) is Ok,
        nal_plan(nal, Some((sps, pps)), decoded, enabled).repair is Some,
        ({
            let info = slice::slice_of(nal, sps, pps)->Ok_0;
            let entries = conceal::concealed(info.rps, poc_of(info), poc_max_of(sps), decoded);
            slice_laws::reads_back(
                headers::payload_bits(nal),
                bitstream::header_type(nal[0]),
                sps,
                pps,
                entries,
            )
        }),
    ensures
        ({
            let info = slice::slice_of(nal, sps, pps)->Ok_0;
            let bytes = nal_plan(nal, Some((sps, pps)), decoded, enabled).bytes;
            let repaired = slice::slice_of(bytes, sps, pps);
            &&& repaired is Ok
            &&& repaired->Ok_0.poc_lsb == info.poc_lsb
            &&& slice_laws::slice_payload(bytes, sps, pps) == slice_laws::slice_payload(
                nal,
                sps,
                pps,
            )
            &&& forall|i: int|
                0 <= i < repaired->Ok_0.rps.len() ==> conceal::in_dpb(
                    decoded,
                    poc_of(info),
                    poc_max_of(sps),
                )(#[trigger] repaired->Ok_0.rps[i])
            &&& conceal::misses_used(info.rps, poc_of(info), poc_max_of(sps), decoded)
                && conceal::holds_other_picture(
                decoded,
                poc_of(info),
                poc_max_of(sps),
            ) ==> exists|i: int|
                0 <= i < repaired->Ok_0.rps.len() && conceal::names_newest(
                    #[trigger] repaired->Ok_0.rps[i],
                    poc_of(info),
                    poc_max_of(sps),
                    decoded,
                )
        }),
{
    reveal(nal_plan);
    let info = slice::slice_of(nal, sps, pps)->Ok_0;
    let poc = poc_of(info);
    let poc_max = poc_max_of(sps);
    let entries = conceal::concealed(info.rps, poc, poc_max, decoded);
    if slice::idr(bitstream::header_type(nal[0])) {
        slice_laws::lemma_idr_has_no_rps(nal, sps, pps);
        reveal(Seq::filter);
        assert(entries =~= info.rps);
    }
    slice_laws::law_rewritten_slice_says_entries(nal, sps, pps, entries);
    power2::lemma2_to64();
    power2::lemma_pow2_pos(sps.poc_lsb_bits as nat);
    if sps.poc_lsb_bits < 16 {
        power2::lemma_pow2_strictly_increases(sps.poc_lsb_bits as nat, 16);
    }
    conceal::law_concealed_names_only_decoded_pictures(info.rps, poc, poc_max, decoded);
    let keep = conceal::in_dpb(decoded, poc, poc_max);
    let listed = rps::canonical_rps(entries);
    assert forall|i: int| 0 <= i < listed.len() implies keep(#[trigger] listed[i]) by {
        rps::lemma_canonical_contained(entries, i);
        let k = choose|k: int| 0 <= k < entries.len() && entries[k] == listed[i];
        assert(keep(entries[k]));
    }
    if conceal::misses_used(info.rps, poc, poc_max, decoded) && conceal::holds_other_picture(
        decoded,
        poc,
        poc_max,
    ) {
        conceal::law_missing_reference_maps_to_newest(info.rps, poc, poc_max, decoded);
        let k = choose|k: int|
            0 <= k < entries.len() && conceal::names_newest(
                #[trigger] entries[k],
                poc,
                poc_max,
                decoded,
            );
        rps::lemma_canonical_contains(entries, k);
        let i = choose|i: int| 0 <= i < listed.len() && listed[i] == entries[k];
        assert(conceal::names_newest(listed[i], poc, poc_max, decoded));
    }
}

/// A slice that names a picture outside the DPB does not reach the decoder as it came,
/// unless nothing can be done: it is repaired whenever the references that are there,
/// with the newest picture standing in for a missing used one, can be written into it.
/// What is submitted names only pictures in the DPB and, if a used one was missing,
/// predicts from the newest one.
#[verifier::rlimit(40)]
pub proof fn law_lost_reference_is_repaired(
    nal: Seq<u8>,
    sps: SpsFields,
    pps: PpsInfo,
    decoded: Seq<u32>,
    lost: int,
)
    requires
        sps.poc_lsb_bits <= 16,
        forall|i: int| 0 <= i < decoded.len() ==> #[trigger] decoded[i] < poc_max_of(sps),
        slice::slice_of(nal, sps, pps) is Ok,
        ({
            let info = slice::slice_of(nal, sps, pps)->Ok_0;
            let poc = poc_of(info);
            let poc_max = poc_max_of(sps);
            let entries = conceal::concealed(info.rps, poc, poc_max, decoded);
            &&& 0 <= lost < info.rps.len()
            &&& !conceal::in_dpb(decoded, poc, poc_max)(info.rps[lost])
            &&& conceal::misses_used(info.rps, poc, poc_max, decoded)
                ==> conceal::holds_other_picture(decoded, poc, poc_max)
            &&& slice::rewritten(nal, sps, pps, entries) is Ok
            &&& slice_laws::reads_back(
                headers::payload_bits(nal),
                bitstream::header_type(nal[0]),
                sps,
                pps,
                entries,
            )
        }),
    ensures
        ({
            let info = slice::slice_of(nal, sps, pps)->Ok_0;
            let poc = poc_of(info);
            let poc_max = poc_max_of(sps);
            let missing_used = conceal::misses_used(info.rps, poc, poc_max, decoded);
            let plan = nal_plan(nal, Some((sps, pps)), decoded, true);
            let repaired = slice::slice_of(plan.bytes, sps, pps);
            &&& plan.bytes != nal
            &&& repaired is Ok
            &&& repaired->Ok_0.poc_lsb == info.poc_lsb
            &&& forall|i: int|
                0 <= i < repaired->Ok_0.rps.len() ==> conceal::in_dpb(decoded, poc, poc_max)(
                    #[trigger] repaired->Ok_0.rps[i],
                )
            &&& missing_used ==> exists|i: int|
                0 <= i < repaired->Ok_0.rps.len() && conceal::names_newest(
                    #[trigger] repaired->Ok_0.rps[i],
                    poc,
                    poc_max,
                    decoded,
                )
            &&& plan.repair is Some
            &&& (plan.repair->0).poc == poc
            &&& (plan.repair->0).concealed == missing_used
            &&& (plan.repair->0).total == info.rps.len() as usize
            &&& (plan.repair->0).kept == conceal::concealed(
                info.rps,
                poc,
                poc_max,
                decoded,
            ).len() as usize
        }),
{
    reveal(nal_plan);
    let info = slice::slice_of(nal, sps, pps)->Ok_0;
    let poc = poc_of(info);
    let poc_max = poc_max_of(sps);
    let keep = conceal::in_dpb(decoded, poc, poc_max);
    let entries = conceal::concealed(info.rps, poc, poc_max, decoded);
    let missing_used = conceal::misses_used(info.rps, poc, poc_max, decoded);
    power2::lemma2_to64();
    power2::lemma_pow2_pos(sps.poc_lsb_bits as nat);
    if sps.poc_lsb_bits < 16 {
        power2::lemma_pow2_strictly_increases(sps.poc_lsb_bits as nat, 16);
    }
    if slice::idr(bitstream::header_type(nal[0])) {
        slice_laws::lemma_idr_has_no_rps(nal, sps, pps);
    }
    conceal::law_concealed_names_only_decoded_pictures(info.rps, poc, poc_max, decoded);
    if entries == info.rps {
        assert(keep(entries[lost]));
    }
    if missing_used {
        conceal::law_missing_reference_maps_to_newest(info.rps, poc, poc_max, decoded);
        let k = choose|k: int|
            0 <= k < entries.len() && conceal::names_newest(
                #[trigger] entries[k],
                poc,
                poc_max,
                decoded,
            );
        assert(entries[k].used);
    }
    assert(!missing_used || any_used(entries));
    assert(nal_plan(nal, Some((sps, pps)), decoded, true).repair is Some);
    law_repaired_slice_is_decodable(nal, sps, pps, decoded, true);
    let bytes = nal_plan(nal, Some((sps, pps)), decoded, true).bytes;
    if bytes == nal {
        assert(keep(info.rps[lost]));
    }
}

/// Once the submitted slice is decoded, the DPB holds the pictures that it names and
/// the picture that it is of, and no others.
#[verifier::rlimit(40)]
pub proof fn law_dpb_is_what_the_submitted_slice_keeps(
    nal: Seq<u8>,
    sps: SpsFields,
    pps: PpsInfo,
    decoded: Seq<u32>,
    enabled: bool,
    lsb: u32,
)
    requires
        4 <= sps.poc_lsb_bits <= 16,
        slice::slice_of(nal, sps, pps) is Ok,
        ({
            let info = slice::slice_of(nal, sps, pps)->Ok_0;
            let entries = conceal::concealed(info.rps, poc_of(info), poc_max_of(sps), decoded);
            slice_laws::reads_back(
                headers::payload_bits(nal),
                bitstream::header_type(nal[0]),
                sps,
                pps,
                entries,
            )
        }),
    ensures
        ({
            let plan = nal_plan(nal, Some((sps, pps)), decoded, enabled);
            let sent = slice::slice_of(plan.bytes, sps, pps);
            let poc: int = match sent->Ok_0.poc_lsb {
                Some(lsb) => lsb as int,
                None => 0,
            };
            &&& plan.dpb is Some
            &&& sent is Ok
            &&& plan.dpb->0.contains(lsb) <==> lsb == poc || exists|i: int|
                0 <= i < sent->Ok_0.rps.len() && lsb == (poc + (
                #[trigger] sent->Ok_0.rps[i]).delta_poc) % (power2::pow2(
                    sps.poc_lsb_bits as nat,
                ) as int)
        }),
{
    reveal(nal_plan);
    let info = slice::slice_of(nal, sps, pps)->Ok_0;
    let poc = poc_of(info);
    let poc_max = poc_max_of(sps);
    let entries = conceal::concealed(info.rps, poc, poc_max, decoded);
    let plan = nal_plan(nal, Some((sps, pps)), decoded, enabled);
    let dpb = plan.dpb->0;
    power2::lemma2_to64();
    power2::lemma_pow2_pos(sps.poc_lsb_bits as nat);
    if sps.poc_lsb_bits < 16 {
        power2::lemma_pow2_strictly_increases(sps.poc_lsb_bits as nat, 16);
    }
    slice_laws::lemma_poc_lsb_bound(nal, sps, pps);
    if plan.repair is Some {
        if slice::idr(bitstream::header_type(nal[0])) {
            slice_laws::lemma_idr_has_no_rps(nal, sps, pps);
            reveal(Seq::filter);
            assert(entries =~= info.rps);
        }
        slice_laws::law_rewritten_slice_says_entries(nal, sps, pps, entries);
    }
    let kept = if plan.repair is Some {
        entries
    } else {
        info.rps
    };
    let sent = slice::slice_of(plan.bytes, sps, pps)->Ok_0;
    assert(poc_of(sent) == poc);
    assert(dpb == dpb_after(kept, poc, poc_max));
    if dpb.contains(lsb) {
        let k = choose|k: int| 0 <= k < dpb.len() && dpb[k] == lsb;
        if k < kept.len() {
            let x = poc + kept[k].delta_poc;
            assert(0 <= x % poc_max < poc_max);
            assert(lsb == x % poc_max);
            if plan.repair is Some {
                if kept[k].delta_poc != 0 {
                    rps::lemma_canonical_contains(entries, k);
                    let i = choose|i: int| 0 <= i < sent.rps.len() && sent.rps[i] == kept[k];
                    assert(sent.rps[i].delta_poc == kept[k].delta_poc);
                } else {
                    assert(poc % poc_max == poc) by (nonlinear_arith)
                        requires
                            0 <= poc < poc_max,
                    ;
                }
            } else {
                assert(sent.rps[k].delta_poc == kept[k].delta_poc);
            }
        }
    }
    if lsb == poc {
        assert(dpb[kept.len() as int] == lsb);
    }
    if exists|i: int|
        0 <= i < sent.rps.len() && lsb == (poc + (#[trigger] sent.rps[i]).delta_poc) % poc_max {
        let i = choose|i: int|
            0 <= i < sent.rps.len() && lsb == (poc + (#[trigger] sent.rps[i]).delta_poc) % poc_max;
        if plan.repair is Some {
            rps::lemma_canonical_contained(entries, i);
        } else {
            assert(kept[i] == sent.rps[i]);
        }
        let k = choose|k: int| 0 <= k < kept.len() && kept[k] == sent.rps[i];
        assert(dpb[k] == conceal::poc_lsb_at(poc, kept[k].delta_poc as int, poc_max));
        let x = poc + kept[k].delta_poc;
        assert(0 <= x % poc_max < poc_max);
        assert(dpb[k] == lsb);
    }
}

/// Whether each POC lsb is one of those that the SPS allows for.
pub open spec fn lsbs_in_range(lsbs: Seq<u32>, sps: SpsFields) -> bool {
    forall|i: int| 0 <= i < lsbs.len() ==> #[trigger] lsbs[i] < poc_max_of(sps)
}

/// Whether the assumed DPB contents are POC lsbs of the stream.
pub open spec fn dpb_in_range(state: DecoderState) -> bool {
    match state.header_info {
        Some((sps, pps)) => sps.poc_lsb_bits <= 16 && lsbs_in_range(state.decoded, sps),
        None => true,
    }
}

/// The POC lsbs that a slice leaves in the DPB are in range.
proof fn lemma_dpb_after_in_range(entries: Seq<RpsEntry>, poc: int, sps: SpsFields)
    requires
        sps.poc_lsb_bits <= 16,
        0 <= poc < poc_max_of(sps),
    ensures
        lsbs_in_range(dpb_after(entries, poc, poc_max_of(sps)), sps),
{
    let poc_max = poc_max_of(sps);
    power2::lemma2_to64();
    if sps.poc_lsb_bits < 16 {
        power2::lemma_pow2_strictly_increases(sps.poc_lsb_bits as nat, 16);
    }
    let lsbs = dpb_after(entries, poc, poc_max);
    assert forall|i: int| 0 <= i < lsbs.len() implies #[trigger] lsbs[i] < poc_max by {
        if i < entries.len() {
            let x = poc + entries[i].delta_poc;
            assert(0 <= x % poc_max < poc_max);
            assert(lsbs[i] == conceal::poc_lsb_at(poc, entries[i].delta_poc as int, poc_max));
        }
    }
}

/// What the plan for a NAL unit leaves in the DPB is in range.
proof fn lemma_nal_plan_in_range(
    nal: Seq<u8>,
    sps: SpsFields,
    pps: PpsInfo,
    decoded: Seq<u32>,
    enabled: bool,
)
    requires
        sps.poc_lsb_bits <= 16,
    ensures
        nal_plan(nal, Some((sps, pps)), decoded, enabled).dpb matches Some(lsbs) ==> lsbs_in_range(
            lsbs,
            sps,
        ),
{
    reveal(nal_plan);
    if slice::slice_of(nal, sps, pps) is Ok {
        let info = slice::slice_of(nal, sps, pps)->Ok_0;
        let poc_max = poc_max_of(sps);
        slice_laws::lemma_poc_lsb_bound(nal, sps, pps);
        power2::lemma_pow2_pos(sps.poc_lsb_bits as nat);
        let entries = conceal::concealed(info.rps, poc_of(info), poc_max, decoded);
        lemma_dpb_after_in_range(entries, poc_of(info), sps);
        lemma_dpb_after_in_range(info.rps, poc_of(info), sps);
    }
}

/// What the first slice leaves in the DPB is in range if what each one leaves is.
proof fn lemma_first_dpb_in_range(plans: Seq<NalPlan>, sps: SpsFields)
    requires
        forall|i: int|
            0 <= i < plans.len() ==> ((#[trigger] plans[i]).dpb matches Some(lsbs)
                ==> lsbs_in_range(lsbs, sps)),
    ensures
        first_dpb(plans) matches Some(lsbs) ==> lsbs_in_range(lsbs, sps),
    decreases plans.len(),
{
    if plans.len() > 0 {
        let rest = plans.drop_last();
        assert forall|i: int| 0 <= i < rest.len() implies ((#[trigger] rest[i]).dpb matches Some(
            lsbs,
        ) ==> lsbs_in_range(lsbs, sps)) by {
            assert(rest[i] == plans[i]);
        }
        lemma_first_dpb_in_range(rest, sps);
        assert(plans[plans.len() - 1] == plans.last());
    }
}

/// Whatever is decoded, the assumed DPB contents stay POC lsbs of the stream.
pub proof fn law_dpb_stays_in_range(
    state: DecoderState,
    nals: Seq<Seq<u8>>,
    sets: ParameterSetBytes,
    decoded: bool,
)
    requires
        dpb_in_range(state),
    ensures
        dpb_in_range(state.after(state.submission(nals), decoded)),
        dpb_in_range(DecoderState::initial(state.conceal_missing_references)),
        dpb_in_range(state.with_session(sets)),
{
    if headers::sps_of(sets.sps) is Ok {
        headers::law_parsed_sps_is_in_range(sets.sps);
    }
    if let Some((sps, pps)) = state.header_info {
        let enabled = repair_enabled(nals);
        let plans = plans_for(nals, state.header_info, state.decoded, enabled);
        let kept = nals.filter(submitted());
        assert forall|i: int| 0 <= i < plans.len() implies ((#[trigger] plans[i]).dpb matches Some(
            lsbs,
        ) ==> lsbs_in_range(lsbs, sps)) by {
            lemma_nal_plan_in_range(kept[i], sps, pps, state.decoded, enabled);
            assert(plans[i] == nal_plan(kept[i], Some((sps, pps)), state.decoded, enabled));
        }
        lemma_first_dpb_in_range(plans, sps);
    }
}

/// Whether two of the NAL units are coded picture data.
pub open spec fn several_pictures(nals: Seq<Seq<u8>>) -> bool {
    exists|i: int, j: int|
        0 <= i < j < nals.len() && picture_nal()(#[trigger] nals[i]) && picture_nal()(
            #[trigger] nals[j],
        )
}

/// A NAL unit is coded picture data if its type, the six bits behind the leading bit of
/// its first byte, is at most 21.
pub proof fn law_picture_data_by_type(nal: Seq<u8>)
    ensures
        picture_nal()(nal) <==> nal.len() > 0 && (nal[0] / 2) % 64 <= 21,
{
}

/// How many are kept of a sequence.
proof fn lemma_filter_count(nals: Seq<Seq<u8>>, p: spec_fn(Seq<u8>) -> bool)
    ensures
        nals.filter(p).len() > 1 <==> exists|i: int, j: int|
            0 <= i < j < nals.len() && p(#[trigger] nals[i]) && p(#[trigger] nals[j]),
        nals.filter(p).len() == 0 <==> forall|i: int|
            0 <= i < nals.len() ==> !p(#[trigger] nals[i]),
    decreases nals.len(),
{
    reveal(Seq::filter);
    if nals.len() > 0 {
        let rest = nals.drop_last();
        let last = nals.len() - 1;
        lemma_filter_count(rest, p);
        assert forall|i: int| 0 <= i < rest.len() implies rest[i] == #[trigger] nals[i] by {}
        if rest.filter(p).len() > 0 && p(nals[last]) {
            let i = choose|i: int| 0 <= i < rest.len() && p(#[trigger] rest[i]);
            assert(p(nals[i]) && p(nals[last]));
        }
        if rest.filter(p).len() > 1 {
            let (i, j) = choose|i: int, j: int|
                0 <= i < j < rest.len() && p(#[trigger] rest[i]) && p(#[trigger] rest[j]);
            assert(p(nals[i]) && p(nals[j]));
        }
        if exists|i: int, j: int|
            0 <= i < j < nals.len() && p(#[trigger] nals[i]) && p(#[trigger] nals[j]) {
            let (i, j) = choose|i: int, j: int|
                0 <= i < j < nals.len() && p(#[trigger] nals[i]) && p(#[trigger] nals[j]);
            assert(p(rest[i]));
            if j < last {
                assert(p(rest[j]));
            }
        }
        if nals.filter(p).len() == 0 {
            assert forall|i: int| 0 <= i < nals.len() implies !p(#[trigger] nals[i]) by {
                if i < last {
                    assert(!p(rest[i]));
                }
            }
        }
        if forall|i: int| 0 <= i < nals.len() ==> !p(#[trigger] nals[i]) {
            assert forall|i: int| 0 <= i < rest.len() implies !p(#[trigger] rest[i]) by {
                assert(!p(nals[i]));
            }
            assert(!p(nals[last]));
        }
    }
}

/// A picture of several slices is never repaired, since only a first slice can be
/// rewritten: its NAL units are submitted as they came. A picture of one slice may be.
pub proof fn law_pictures_of_several_slices_are_untouched(
    state: DecoderState,
    nals: Seq<Seq<u8>>,
)
    ensures
        repair_enabled(nals) <==> !several_pictures(nals),
        several_pictures(nals) ==> {
            &&& state.submission(nals).data == bitstream::length_prefixed(
                nals.filter(submitted()),
            )
            &&& state.submission(nals).repairs == Seq::<Repair>::empty()
        },
{
    lemma_filter_count(nals, picture_nal());
    if several_pictures(nals) {
        reveal(nal_plan);
        let plans = plans_for(nals, state.header_info, state.decoded, repair_enabled(nals));
        assert(plan_bytes(plans) =~= nals.filter(submitted()));
        assert forall|k: int| 0 <= k < plans.len() implies (
        #[trigger] plans[k]).repair is None by {}
        lemma_no_repairs(plans);
    }
}

/// What is submitted is one NAL unit for each one that came and is no parameter set, in
/// the same order; a unit that is no slice is submitted as it came.
pub proof fn law_submission_keeps_the_units(state: DecoderState, nals: Seq<Seq<u8>>, k: int)
    requires
        0 <= k < nals.filter(submitted()).len(),
    ensures
        ({
            let sent = nals.filter(submitted());
            let plans = plans_for(nals, state.header_info, state.decoded, repair_enabled(nals));
            &&& plans.len() == sent.len()
            &&& state.submission(nals).data == bitstream::length_prefixed(plan_bytes(plans))
            &&& !bitstream::parameter_set_nal(sent[k])
            &&& state.header_info matches Some((sps, pps)) ==> slice::slice_of(
                sent[k],
                sps,
                pps,
            ) is Err ==> plan_bytes(plans)[k] == sent[k]
        }),
{
    reveal(nal_plan);
    nals.lemma_filter_pred(submitted(), k);
}

/// What the first slice leaves in the DPB counts.
pub proof fn law_first_slice_decides_the_dpb(
    state: DecoderState,
    nals: Seq<Seq<u8>>,
    sps: SpsFields,
    pps: PpsInfo,
    first: int,
)
    requires
        state.header_info == Some((sps, pps)),
        0 <= first < nals.filter(submitted()).len(),
        slice::slice_of(nals.filter(submitted())[first], sps, pps) is Ok,
        forall|k: int|
            0 <= k < first ==> slice::slice_of(
                #[trigger] nals.filter(submitted())[k],
                sps,
                pps,
            ) is Err,
    ensures
        state.submission(nals).dpb_after_decode == nal_plan(
            nals.filter(submitted())[first],
            Some((sps, pps)),
            state.decoded,
            repair_enabled(nals),
        ).dpb,
        state.submission(nals).dpb_after_decode is Some,
{
    reveal(nal_plan);
    let sent = nals.filter(submitted());
    let plans = plans_for(nals, state.header_info, state.decoded, repair_enabled(nals));
    assert forall|k: int| 0 <= k < first implies (#[trigger] plans[k]).dpb is None by {
        assert(slice::slice_of(sent[k], sps, pps) is Err);
    }
    lemma_first_dpb(plans, first);
}

/// The first plan that leaves something in the DPB counts.
proof fn lemma_first_dpb(plans: Seq<NalPlan>, first: int)
    requires
        0 <= first < plans.len(),
        plans[first].dpb is Some,
        forall|k: int| 0 <= k < first ==> (#[trigger] plans[k]).dpb is None,
    ensures
        first_dpb(plans) == plans[first].dpb,
    decreases plans.len(),
{
    let rest = plans.drop_last();
    assert forall|k: int| 0 <= k < first && k < rest.len() implies (
    #[trigger] rest[k]).dpb is None by {
        assert(rest[k] == plans[k]);
    }
    if first < rest.len() {
        assert(rest[first] == plans[first]);
        lemma_first_dpb(rest, first);
    } else {
        lemma_no_dpb(rest);
    }
}

/// Plans that leave nothing in the DPB add up to nothing.
proof fn lemma_no_dpb(plans: Seq<NalPlan>)
    requires
        forall|k: int| 0 <= k < plans.len() ==> (#[trigger] plans[k]).dpb is None,
    ensures
        first_dpb(plans) is None,
    decreases plans.len(),
{
    if plans.len() > 0 {
        assert(plans[plans.len() - 1].dpb is None);
        assert forall|k: int| 0 <= k < plans.drop_last().len() implies (
        #[trigger] plans.drop_last()[k]).dpb is None by {
            assert(plans.drop_last()[k] == plans[k]);
        }
        lemma_no_dpb(plans.drop_last());
    }
}

/// Parameter sets that the session was not created from ask for a new session, once:
/// when it was created from them, the same access unit asks for none.
pub proof fn law_session_is_requested_once(
    state: DecoderState,
    nals: Seq<Seq<u8>>,
    sets: ParameterSetBytes,
)
    requires
        bitstream::parameter_sets_of(nals) == Some(sets),
    ensures
        state.requested_session(nals) is Some <==> state.parameter_sets != Some(sets),
        state.requested_session(nals) is Some ==> state.requested_session(nals) == Some(sets),
        state.with_session(sets).requested_session(nals) is None,
        state.with_session(sets).decoded == Seq::<u32>::empty(),
        state.with_session(sets).waiting_for_keyframe == state.waiting_for_keyframe,
        state.with_session(sets).conceal_missing_references == state.conceal_missing_references,
{
}

/// A decoder that conceals repairs slices in every session whose parameter sets can be
/// parsed, by what these say.
pub proof fn law_concealing_session_knows_its_headers(
    state: DecoderState,
    sets: ParameterSetBytes,
)
    requires
        state.conceal_missing_references,
        headers::sps_of(sets.sps) is Ok,
        headers::pps_of(sets.pps) is Ok,
    ensures
        state.with_session(sets).header_info == Some(
            (headers::sps_of(sets.sps)->Ok_0, headers::pps_of(sets.pps)->Ok_0),
        ),
{
}

/// A frame that fails to decode costs the decoder its sync and nothing else: it keeps
/// its session and what it knows of the DPB. Until then, only a missing session or a
/// wait for a keyframe keeps an access unit from being decoded.
pub proof fn law_failed_frame_keeps_the_session(
    state: DecoderState,
    submission: SubmissionFields,
    nals: Seq<Seq<u8>>,
)
    ensures
        ({
            let failed = state.after(submission, false);
            &&& failed.parameter_sets == state.parameter_sets
            &&& failed.header_info == state.header_info
            &&& failed.decoded == state.decoded
            &&& failed.requested_session(nals) == state.requested_session(nals)
            &&& holds_keyframe(nals) && state.parameter_sets is Some ==> !failed.lacks_keyframe(
                nals,
            )
        }),
        state.parameter_sets is Some && !state.waiting_for_keyframe ==> !state.lacks_keyframe(
            nals,
        ),
        state.parameter_sets is None ==> state.lacks_keyframe(nals),
{
}

/// A decoded access unit keeps the session, and leaves in the DPB what its submission
/// says, if slices are parsed at all.
pub proof fn law_decoded_frame_keeps_the_session(
    state: DecoderState,
    submission: SubmissionFields,
    nals: Seq<Seq<u8>>,
)
    ensures
        ({
            let next = state.after(submission, true);
            &&& next.parameter_sets == state.parameter_sets
            &&& next.header_info == state.header_info
            &&& next.requested_session(nals) == state.requested_session(nals)
            &&& state.header_info is Some ==> match submission.dpb_after_decode {
                Some(lsbs) => next.decoded == lsbs,
                None => next.decoded.len() == 0,
            }
            &&& state.header_info is None ==> next.decoded == state.decoded
        }),
{
}

/// A keyframe is an access unit with a NAL unit of type 16 to 23.
pub proof fn law_keyframe_by_type(nals: Seq<Seq<u8>>)
    ensures
        holds_keyframe(nals) <==> exists|i: int|
            0 <= i < nals.len() && (#[trigger] nals[i]).len() > 0 && 16 <= (nals[i][0] / 2) % 64
                <= 23,
{
    if holds_keyframe(nals) {
        let i = choose|i: int| 0 <= i < nals.len() && bitstream::irap_nal(#[trigger] nals[i]);
        assert(nals[i].len() > 0);
    }
    if exists|i: int|
        0 <= i < nals.len() && (#[trigger] nals[i]).len() > 0 && 16 <= (nals[i][0] / 2) % 64
            <= 23 {
        let i = choose|i: int|
            0 <= i < nals.len() && (#[trigger] nals[i]).len() > 0 && 16 <= (nals[i][0] / 2) % 64
                <= 23;
        assert(bitstream::irap_nal(nals[i]));
    }
}

/// The slice with a lost reference, written field by field, is submitted as the slice
/// written from the same values with the references that concealment leaves, in front
/// of the same payload.
#[verifier::rlimit(40)]
pub proof fn law_repair_replaces_the_references_only(
    h: SliceHeader,
    set: StRefPicSet,
    nal_type: u8,
    header: Seq<u8>,
    front: Seq<u8>,
    new_front: Seq<u8>,
    zeros: nat,
    new_zeros: nat,
    payload: Seq<u8>,
    sps: SpsFields,
    pps: PpsInfo,
    decoded: Seq<u32>,
    lost: int,
)
    requires
        sps.poc_lsb_bits <= 16,
        forall|i: int| 0 <= i < decoded.len() ==> #[trigger] decoded[i] < poc_max_of(sps),
        h.in_range(sps, pps),
        slice_values::supported(h, sps, pps),
        nal_type < 32,
        !slice_values::is_idr_type(nal_type),
        header.len() == 2,
        header[0] / 2 == nal_type,
        slice_values::fills_bytes(front, h.written(nal_type, sps, pps), zeros),
        slice_values::fills_bytes(
            new_front,
            slice_values::with_set(h, set).written(nal_type, sps, pps),
            new_zeros,
        ),
        ({
            let rps = h.entries(sps);
            let poc = h.pic_order_cnt_lsb as int;
            let poc_max = power2::pow2(sps.poc_lsb_bits as nat) as int;
            let entries = conceal::concealed(rps, poc, poc_max, decoded);
            &&& 0 <= lost < rps.len()
            &&& !decoded.contains(((poc + rps[lost].delta_poc) % poc_max) as u32)
            &&& conceal::misses_used(rps, poc, poc_max, decoded) ==> conceal::holds_other_picture(
                decoded,
                poc,
                poc_max,
            )
            &&& set.in_range()
            &&& entries.to_multiset() == set.entries().to_multiset()
            &&& slice_values::replaceable(h, nal_type, sps, pps, set.entries())
        }),
    ensures
        nal_plan(
            header + emulation::escaped(front + payload),
            Some((sps, pps)),
            decoded,
            true,
        ).bytes == header + emulation::escaped(new_front + payload),
{
    let nal = header + emulation::escaped(front + payload);
    let rps = h.entries(sps);
    let poc = h.pic_order_cnt_lsb as int;
    let poc_max = poc_max_of(sps);
    let entries = conceal::concealed(rps, poc, poc_max, decoded);
    slice_values::lemma_written_unit(h, nal_type, front, zeros, payload, sps, pps);
    slice_values::law_written_slice_reads_back(h, nal_type, header, front + payload, sps, pps);
    slice_values::law_rewriting_replaces_the_references_only(
        h,
        set,
        entries,
        nal_type,
        header,
        front,
        new_front,
        zeros,
        new_zeros,
        payload,
        sps,
        pps,
    );
    slice_values::lemma_set_fits(set, entries, pps);
    power2::lemma2_to64();
    if sps.poc_lsb_bits < 16 {
        power2::lemma_pow2_strictly_increases(sps.poc_lsb_bits as nat, 16);
    }
    let info = slice::slice_of(nal, sps, pps)->Ok_0;
    assert(poc_of(info) == poc);
    law_lost_reference_is_repaired(nal, sps, pps, decoded, lost);
    reveal(nal_plan);
}

/// A slice with a missing used reference is submitted as it came if there is nothing to
/// stand in for it: no other picture is in the DPB, and no used reference is left.
pub proof fn law_unrepairable_slice_is_untouched(
    nal: Seq<u8>,
    sps: SpsFields,
    pps: PpsInfo,
    decoded: Seq<u32>,
    enabled: bool,
)
    requires
        sps.poc_lsb_bits <= 16,
        forall|i: int| 0 <= i < decoded.len() ==> #[trigger] decoded[i] < poc_max_of(sps),
        slice::slice_of(nal, sps, pps) is Ok,
        ({
            let info = slice::slice_of(nal, sps, pps)->Ok_0;
            let keep = conceal::in_dpb(decoded, poc_of(info), poc_max_of(sps));
            &&& conceal::misses_used(info.rps, poc_of(info), poc_max_of(sps), decoded)
            &&& !conceal::holds_other_picture(decoded, poc_of(info), poc_max_of(sps))
            &&& forall|i: int|
                0 <= i < info.rps.len() && (#[trigger] info.rps[i]).used ==> !keep(info.rps[i])
        }),
    ensures
        nal_plan(nal, Some((sps, pps)), decoded, enabled).bytes == nal,
        nal_plan(nal, Some((sps, pps)), decoded, enabled).repair is None,
{
    reveal(nal_plan);
    let info = slice::slice_of(nal, sps, pps)->Ok_0;
    let poc = poc_of(info);
    let poc_max = poc_max_of(sps);
    let keep = conceal::in_dpb(decoded, poc, poc_max);
    let entries = conceal::concealed(info.rps, poc, poc_max, decoded);
    power2::lemma2_to64();
    power2::lemma_pow2_pos(sps.poc_lsb_bits as nat);
    if sps.poc_lsb_bits < 16 {
        power2::lemma_pow2_strictly_increases(sps.poc_lsb_bits as nat, 16);
    }
    conceal::law_concealed_names_only_decoded_pictures(info.rps, poc, poc_max, decoded);
    if any_used(entries) {
        let k = choose|k: int| 0 <= k < entries.len() && (#[trigger] entries[k]).used;
        conceal::law_concealment_adds_only_the_newest(info.rps, poc, poc_max, decoded, k);
        let e = entries[k];
        assert(keep(e));
        if info.rps.contains(e) {
            let i = choose|i: int| 0 <= i < info.rps.len() && info.rps[i] == e;
            assert(info.rps[i].used);
        } else {
            let lsb = conceal::poc_lsb_at(poc, e.delta_poc as int, poc_max);
            let i = choose|i: int| 0 <= i < decoded.len() && decoded[i] == lsb;
            conceal::lemma_other_picture(poc, e.delta_poc as int, poc_max);
            assert(conceal::distance_behind(poc, decoded[i], poc_max) != 0);
        }
    }
}

/// Every repair is told of once: as a warning of its own, as one that a later warning
/// reports as suppressed, or as one that the log still holds back.
pub proof fn law_every_repair_is_counted(times: Seq<u64>)
    requires
        times.len() <= u32::MAX,
    ensures
        ({
            let (told, log) = (RepairLog { last: None, suppressed: 0 }).noted_all(times);
            told + log.suppressed == times.len()
        }),
    decreases times.len(),
{
    if times.len() > 0 {
        law_every_repair_is_counted(times.drop_last());
    }
}

/// Warnings are emitted at most once a second, and no later than the first repair a
/// second after the last one.
pub proof fn law_warnings_are_a_second_apart(log: RepairLog, first: u64, later: u64)
    requires
        log.noted(first).0 is Some,
    ensures
        ({
            let next = log.noted(first).1.noted(later);
            next.0 is Some <==> later >= first + 1_000_000_000
        }),
{
}

} // verus!
