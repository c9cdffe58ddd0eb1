//! HEVC bitstream repackaging between Annex B and length-prefixed framing.
//!
//! See the [module docs](super) for why both framings show up.

use super::error::HevcError;
use vstd::prelude::*;
use vstd::slice::{slice_subrange, slice_to_vec};

verus! {

/// HEVC VPS (video parameter set) NAL unit type (ITU-T H.265 Table 7-1).
pub const NAL_TYPE_VPS: u8 = 32;

/// HEVC SPS (sequence parameter set) NAL unit type (ITU-T H.265 Table 7-1).
pub const NAL_TYPE_SPS: u8 = 33;

/// HEVC PPS (picture parameter set) NAL unit type (ITU-T H.265 Table 7-1).
pub const NAL_TYPE_PPS: u8 = 34;

/// The six bits behind the leading bit of a NAL unit header.
pub open spec fn header_type(first: u8) -> u8 {
    (first / 2) % 64
}

/// The type of a NAL unit that has a first byte.
pub open spec fn nal_type(nal: Seq<u8>) -> Option<u8> {
    if nal.len() == 0 {
        None
    } else {
        Some(header_type(nal[0]))
    }
}

/// Whether a NAL unit type is an IRAP picture.
pub open spec fn irap(nal_type: u8) -> bool {
    16 <= nal_type <= 23
}

/// Whether `nal` is a slice that a decoder can start from.
pub open spec fn irap_nal(nal: Seq<u8>) -> bool {
    nal_type(nal) is Some && irap(nal_type(nal)->0)
}

/// Whether `nal` is a VPS, SPS or PPS.
pub open spec fn parameter_set_nal(nal: Seq<u8>) -> bool {
    ||| nal_type(nal) == Some(NAL_TYPE_VPS)
    ||| nal_type(nal) == Some(NAL_TYPE_SPS)
    ||| nal_type(nal) == Some(NAL_TYPE_PPS)
}

/// The NAL unit type in the first byte of a NAL unit header.
pub(crate) fn type_in_header(first: u8) -> (res: u8)
    ensures
        res == header_type(first),
{
    assert((first >> 1) & 0x3F == (first / 2) % 64) by (bit_vector);
    (first >> 1) & 0x3F
}

/// The NAL unit type from the first byte of an HEVC NAL unit header.
pub fn nal_unit_type(nal: &[u8]) -> (res: Option<u8>)
    ensures
        res == nal_type(nal@),
{
    if nal.len() == 0 {
        None
    } else {
        Some(type_in_header(nal[0]))
    }
}

/// Whether `nal_type` is an IRAP picture (BLA/IDR/CRA, types 16..=23) — a
/// keyframe the decoder can start from.
pub fn is_irap(nal_type: u8) -> (res: bool)
    ensures
        res == irap(nal_type),
{
    16 <= nal_type && nal_type <= 23
}

/// Whether `nal` is a VPS/SPS/PPS parameter set NAL unit.
pub fn is_parameter_set(nal: &[u8]) -> (res: bool)
    ensures
        res == parameter_set_nal(nal@),
{
    match nal_unit_type(nal) {
        Some(ty) => ty == NAL_TYPE_VPS || ty == NAL_TYPE_SPS || ty == NAL_TYPE_PPS,
        None => false,
    }
}

/// Whether a NAL list contains a keyframe (IRAP) slice.
pub fn nals_contain_keyframe(nals: &[&[u8]]) -> (res: bool)
    ensures
        res <==> exists|i: int| 0 <= i < nals@.len() && irap_nal((#[trigger] nals@[i])@),
{
    let mut i: usize = 0;
    while i < nals.len()
        invariant
            i <= nals@.len(),
            forall|j: int| 0 <= j < i ==> !irap_nal((#[trigger] nals@[j])@),
        decreases nals@.len() - i,
    {
        if let Some(ty) = nal_unit_type(nals[i]) {
            if is_irap(ty) {
                assert(irap_nal(nals@[i as int]@));
                return true;
            }
        }
        i = i + 1;
    }
    false
}

/// The bytes of each NAL unit of a list.
pub open spec fn nal_bytes(nals: Seq<&[u8]>) -> Seq<Seq<u8>> {
    nals.map_values(|nal: &[u8]| nal@)
}

/// Whether a start code (`00 00 01`) begins at `p`.
pub open spec fn start_code_at(data: Seq<u8>, p: int) -> bool {
    0 <= p && p + 3 <= data.len() && data[p] == 0 && data[p + 1] == 0 && data[p + 2] == 1
}

/// Where start codes begin, from `from` on, in order.
pub open spec fn start_codes(data: Seq<u8>, from: int) -> Seq<int>
    decreases data.len() - from,
{
    if from + 3 > data.len() {
        Seq::empty()
    } else if start_code_at(data, from) {
        seq![from] + start_codes(data, from + 1)
    } else {
        start_codes(data, from + 1)
    }
}

/// Where a NAL unit that begins at `start` ends if the next start code begins, or
/// the data end, at `limit`: a zero byte there is taken for the lead zero of a
/// 4-byte start code.
pub open spec fn unit_end(data: Seq<u8>, start: int, limit: int) -> int {
    if limit > start && data[limit - 1] == 0 {
        limit - 1
    } else {
        limit
    }
}

/// The NAL units behind the start codes at `codes`. Empty ones are left out.
pub open spec fn units_at(data: Seq<u8>, codes: Seq<int>) -> Seq<Seq<u8>>
    decreases codes.len(),
{
    if codes.len() == 0 {
        Seq::empty()
    } else {
        let start = codes[0] + 3;
        let limit = if codes.len() > 1 {
            codes[1]
        } else {
            data.len() as int
        };
        let end = unit_end(data, start, limit);
        let rest = units_at(data, codes.drop_first());
        if end > start {
            seq![data.subrange(start, end)] + rest
        } else {
            rest
        }
    }
}

/// The NAL units of an Annex B stream, start codes stripped.
pub open spec fn annex_b_units(data: Seq<u8>) -> Seq<Seq<u8>> {
    units_at(data, start_codes(data, 0))
}

/// Start codes begin inside the data.
proof fn lemma_start_codes_bound(data: Seq<u8>, from: int)
    requires
        0 <= from,
    ensures
        forall|k: int|
            0 <= k < start_codes(data, from).len() ==> {
                &&& from <= #[trigger] start_codes(data, from)[k]
                &&& start_code_at(data, start_codes(data, from)[k])
            },
        forall|k: int|
            0 < k < start_codes(data, from).len() ==> start_codes(data, from)[k - 1] + 3
                <= #[trigger] start_codes(data, from)[k],
    decreases data.len() - from,
{
    if from + 3 <= data.len() {
        lemma_start_codes_bound(data, from + 1);
        let rest = start_codes(data, from + 1);
        if start_code_at(data, from) {
            let all = seq![from] + rest;
            assert forall|k: int| 0 <= k < all.len() implies from <= #[trigger] all[k]
                && start_code_at(data, all[k]) by {
                if k > 0 {
                    assert(all[k] == rest[k - 1]);
                }
            }
            assert forall|k: int| 0 < k < all.len() implies all[k - 1] + 3
                <= #[trigger] all[k] by {
                assert(all[k] == rest[k - 1]);
                if k > 1 {
                    assert(all[k - 1] == rest[k - 2]);
                } else {
                    assert(start_code_at(data, rest[0]));
                }
            }
        }
    }
}

/// Find where start codes begin.
fn find_start_codes(data: &[u8]) -> (codes: Vec<usize>)
    ensures
        codes@.map_values(|p: usize| p as int) == start_codes(data@, 0),
{
    let mut codes: Vec<usize> = Vec::new();
    let mut i: usize = 0;
    assert(codes@.map_values(|p: usize| p as int) =~= Seq::<int>::empty());
    assert(start_codes(data@, 0) =~= Seq::<int>::empty() + start_codes(data@, 0));
    while i < data.len() && data.len() - i >= 3
        invariant
            i <= data@.len(),
            start_codes(data@, 0) == codes@.map_values(|p: usize| p as int) + start_codes(
                data@,
                i as int,
            ),
        decreases data@.len() - i,
    {
        let ghost before = codes@.map_values(|p: usize| p as int);
        if data[i] == 0 && data[i + 1] == 0 && data[i + 2] == 1 {
            codes.push(i);
            proof {
                reveal_with_fuel(start_codes, 4);
                assert(!start_code_at(data@, i + 1));
                assert(!start_code_at(data@, i + 2));
                assert(codes@.map_values(|p: usize| p as int) =~= before.push(i as int));
                assert(before + (seq![i as int] + start_codes(data@, i + 3)) =~= before.push(
                    i as int,
                ) + start_codes(data@, i + 3));
            }
            i = i + 3;
        } else {
            i = i + 1;
        }
    }
    assert(start_codes(data@, i as int) =~= Seq::<int>::empty());
    codes
}

/// Split an Annex B stream into NAL unit payloads (start codes stripped).
/// Handles both 3-byte (`00 00 01`) and 4-byte (`00 00 00 01`) start codes.
#[verifier::rlimit(40)]
pub fn annex_b_nal_units(data: &[u8]) -> (units: Vec<&[u8]>)
    ensures
        nal_bytes(units@) == annex_b_units(data@),
{
    let codes = find_start_codes(data);
    let ghost all = start_codes(data@, 0);
    proof {
        lemma_start_codes_bound(data@, 0);
        assert(all.skip(0) =~= all);
    }
    let mut units: Vec<&[u8]> = Vec::with_capacity(codes.len());
    assert(nal_bytes(units@) =~= Seq::empty());
    let mut index: usize = 0;
    while index < codes.len()
        invariant
            index <= codes@.len(),
            all == codes@.map_values(|p: usize| p as int),
            forall|k: int| 0 <= k < all.len() ==> start_code_at(data@, #[trigger] all[k]),
            forall|k: int| 0 < k < all.len() ==> all[k - 1] + 3 <= #[trigger] all[k],
            nal_bytes(units@) + units_at(data@, all.skip(index as int)) == units_at(data@, all),
        decreases codes@.len() - index,
    {
        let ghost before = nal_bytes(units@);
        let ghost rest = all.skip(index as int);
        proof {
            assert(all[index as int] == codes@[index as int] as int);
            assert(start_code_at(data@, all[index as int]) && data@.len() == data.len());
            assert(rest[0] == all[index as int]);
            assert(rest.drop_first() =~= all.skip(index + 1));
            if index + 1 < codes@.len() {
                assert(rest[1] == all[index + 1]);
                assert(all[index + 1] == codes@[index + 1] as int);
            }
        }
        let start: usize = codes[index] + 3;
        let mut end: usize = if index + 1 < codes.len() {
            codes[index + 1]
        } else {
            data.len()
        };
        // A 4-byte start code leaves one extra zero before the 3-byte match.
        // The byte right before a `00 00 01` is ambiguous: it could be the lead
        // zero of a 4-byte start code, or the final `0x00` of the preceding NAL.
        // Attributing it to the start code matches the universal splitter
        // convention (ffmpeg et al.). An RBSP ends in a one bit and its alignment,
        // not in zero bytes, and neither does it once escaped, so a byte is at
        // stake only against payloads with a trailing zero and encoders that emit
        // 3-byte start codes.
        if end > start && data[end - 1] == 0 {
            end = end - 1;
        }
        if end > start {
            let unit: &[u8] = slice_subrange(data, start, end);
            units.push(unit);
            assert(nal_bytes(units@) =~= before.push(unit@));
            assert(before.push(unit@) + units_at(data@, rest.drop_first()) =~= before + (
            seq![unit@] + units_at(data@, rest.drop_first())));
        }
        index = index + 1;
    }
    assert(nal_bytes(units@) + Seq::<Seq<u8>>::empty() =~= nal_bytes(units@));
    units
}

/// The 4-byte start code.
pub open spec fn start_code() -> Seq<u8> {
    seq![0u8, 0u8, 0u8, 1u8]
}

/// The big-endian number in the first four bytes.
pub open spec fn be32(data: Seq<u8>) -> nat {
    (data[0] * 0x100_0000 + data[1] * 0x1_0000 + data[2] * 0x100 + data[3]) as nat
}

/// The Annex B form of the length-prefixed NAL units in `data`, as far as they are
/// complete, and what is wrong with what follows them, if anything.
pub open spec fn repacked(data: Seq<u8>) -> (Seq<u8>, Option<HevcError>)
    decreases data.len(),
{
    if data.len() == 0 {
        (Seq::empty(), None)
    } else if data.len() < 4 {
        (Seq::empty(), Some(HevcError::TruncatedLengthPrefix { trailing: data.len() as usize }))
    } else if data.len() - 4 < be32(data) {
        (
            Seq::empty(),
            Some(
                HevcError::TruncatedNalUnit {
                    available: (data.len() - 4) as usize,
                    announced: be32(data) as usize,
                },
            ),
        )
    } else {
        let end = 4 + be32(data) as int;
        let (rest, error) = repacked(data.skip(end));
        (start_code() + data.subrange(4, end) + rest, error)
    }
}

/// Convert 4-byte big-endian length-prefixed NAL units (as produced by
/// VideoToolbox) into Annex B with 4-byte start codes.
pub fn length_prefixed_to_annex_b(data: &[u8], out: &mut Vec<u8>) -> (res: Result<(), HevcError>)
    ensures
        final(out)@ == old(out)@ + repacked(data@).0,
        match res {
            Ok(_) => repacked(data@).1 is None,
            Err(e) => repacked(data@).1 == Some(e),
        },
{
    let ghost given = out@;
    let mut at: usize = 0;
    proof {
        assert(data@.skip(0) =~= data@);
        assert(out@ + repacked(data@).0 =~= given + repacked(data@).0);
    }
    while at < data.len()
        invariant
            at <= data@.len(),
            given == old(out)@,
            out@ + repacked(data@.skip(at as int)).0 == given + repacked(data@).0,
            repacked(data@.skip(at as int)).1 == repacked(data@).1,
        decreases data@.len() - at,
    {
        let ghost rest = data@.skip(at as int);
        let ghost so_far = out@;
        let left: usize = data.len() - at;
        if left < 4 {
            assert(out@ + Seq::<u8>::empty() =~= out@);
            return Err(HevcError::TruncatedLengthPrefix { trailing: left });
        }
        let prefix: u32 = data[at] as u32 * 0x100_0000 + data[at + 1] as u32 * 0x1_0000 + data[at
            + 2] as u32 * 0x100 + data[at + 3] as u32;
        let length: usize = prefix as usize;
        assert(length == be32(rest));
        if left - 4 < length {
            assert(out@ + Seq::<u8>::empty() =~= out@);
            return Err(HevcError::TruncatedNalUnit { available: left - 4, announced: length });
        }
        out.push(0);
        out.push(0);
        out.push(0);
        out.push(1);
        let unit: &[u8] = slice_subrange(data, at + 4, at + 4 + length);
        out.extend_from_slice(unit);
        at = at + 4 + length;
        proof {
            assert(rest.subrange(4, 4 + length as int) =~= unit@);
            assert(rest.skip(4 + length as int) =~= data@.skip(at as int));
            let tail = repacked(data@.skip(at as int)).0;
            assert(out@ + tail =~= so_far + (start_code() + unit@ + tail));
        }
    }
    assert(out@ + Seq::<u8>::empty() =~= out@);
    Ok(())
}

/// The three HEVC parameter set NAL units (without start codes).
#[derive(Debug, Clone, PartialEq, Eq)]
pub struct ParameterSets {
    /// The video parameter set (VPS) NAL unit.
    pub vps: Vec<u8>,
    /// The sequence parameter set (SPS) NAL unit.
    pub sps: Vec<u8>,
    /// The picture parameter set (PPS) NAL unit.
    pub pps: Vec<u8>,
}

/// The bytes of three parameter sets.
#[verifier::ext_equal]
pub struct ParameterSetBytes {
    pub vps: Seq<u8>,
    pub sps: Seq<u8>,
    pub pps: Seq<u8>,
}

impl View for ParameterSets {
    type V = ParameterSetBytes;

    open spec fn view(&self) -> ParameterSetBytes {
        ParameterSetBytes { vps: self.vps@, sps: self.sps@, pps: self.pps@ }
    }
}

/// The last NAL unit of type `ty`.
pub open spec fn last_of_type(nals: Seq<Seq<u8>>, ty: u8) -> Option<Seq<u8>>
    decreases nals.len(),
{
    if nals.len() == 0 {
        None
    } else if nal_type(nals.last()) == Some(ty) {
        Some(nals.last())
    } else {
        last_of_type(nals.drop_last(), ty)
    }
}

/// The last parameter set of each kind, if there is one of each.
pub open spec fn parameter_sets_of(nals: Seq<Seq<u8>>) -> Option<ParameterSetBytes> {
    match (
        last_of_type(nals, NAL_TYPE_VPS),
        last_of_type(nals, NAL_TYPE_SPS),
        last_of_type(nals, NAL_TYPE_PPS),
    ) {
        (Some(vps), Some(sps), Some(pps)) => Some(ParameterSetBytes { vps, sps, pps }),
        _ => None,
    }
}

/// Find the last NAL unit of type `ty`.
fn find_last(nals: &[&[u8]], ty: u8) -> (res: Option<Vec<u8>>)
    ensures
        match res {
            Some(nal) => last_of_type(nal_bytes(nals@), ty) == Some(nal@),
            None => last_of_type(nal_bytes(nals@), ty) is None,
        },
{
    let ghost all = nal_bytes(nals@);
    let mut i: usize = nals.len();
    assert(all.take(i as int) =~= all);
    while i > 0
        invariant
            i <= nals@.len(),
            all == nal_bytes(nals@),
            last_of_type(all.take(i as int), ty) == last_of_type(all, ty),
        decreases i,
    {
        proof {
            assert(all.take(i as int).last() == nals@[i - 1]@);
            assert(all.take(i as int).drop_last() =~= all.take(i - 1));
        }
        if let Some(found) = nal_unit_type(nals[i - 1]) {
            if found == ty {
                return Some(slice_to_vec(nals[i - 1]));
            }
        }
        i = i - 1;
    }
    None
}

/// Extract VPS/SPS/PPS from a NAL list. Returns `None` unless all three are
/// present (keyframes carry all three in-band; other frames none).
pub fn parameter_sets_from_nals(nals: &[&[u8]]) -> (res: Option<ParameterSets>)
    ensures
        match res {
            Some(sets) => parameter_sets_of(nal_bytes(nals@)) == Some(sets@),
            None => parameter_sets_of(nal_bytes(nals@)) is None,
        },
{
    match (
        find_last(nals, NAL_TYPE_VPS),
        find_last(nals, NAL_TYPE_SPS),
        find_last(nals, NAL_TYPE_PPS),
    ) {
        (Some(vps), Some(sps), Some(pps)) => Some(ParameterSets { vps, sps, pps }),
        _ => None,
    }
}

/// The NAL units in Annex B form, each behind a 4-byte start code.
pub open spec fn annex_b_of(units: Seq<Seq<u8>>) -> Seq<u8>
    decreases units.len(),
{
    if units.len() == 0 {
        Seq::empty()
    } else {
        start_code() + units[0] + annex_b_of(units.drop_first())
    }
}

/// `n` as four big-endian bytes.
pub open spec fn be32_bytes(n: nat) -> Seq<u8> {
    seq![
        (n / 0x100_0000 % 0x100) as u8,
        (n / 0x1_0000 % 0x100) as u8,
        (n / 0x100 % 0x100) as u8,
        (n % 0x100) as u8,
    ]
}

/// The NAL units, each behind its length.
pub open spec fn length_prefixed(units: Seq<Seq<u8>>) -> Seq<u8>
    decreases units.len(),
{
    if units.len() == 0 {
        Seq::empty()
    } else {
        be32_bytes(units[0].len()) + units[0] + length_prefixed(units.drop_first())
    }
}

/// Four big-endian bytes hold the number they were made from.
proof fn lemma_be32(n: nat)
    requires
        n <= u32::MAX,
    ensures
        be32(be32_bytes(n)) == n,
{
    let a = n / 0x100_0000;
    let b = n / 0x1_0000 % 0x100;
    let c = n / 0x100 % 0x100;
    let d = n % 0x100;
    assert(a % 0x100 == a);
    assert(n / 0x1_0000 == a * 0x100 + b);
    assert(n / 0x100 == n / 0x1_0000 * 0x100 + c);
    assert(n == n / 0x100 * 0x100 + d);
}

/// Repackaging length-prefixed NAL units succeeds and puts the same units behind
/// start codes.
#[verifier::rlimit(40)]
pub proof fn law_repackaging_keeps_units(units: Seq<Seq<u8>>)
    requires
        forall|i: int| 0 <= i < units.len() ==> (#[trigger] units[i]).len() <= u32::MAX,
    ensures
        repacked(length_prefixed(units)) == (annex_b_of(units), None::<HevcError>),
    decreases units.len(),
{
    if units.len() > 0 {
        let unit = units[0];
        let rest = units.drop_first();
        assert forall|i: int| 0 <= i < rest.len() implies (#[trigger] rest[i]).len()
            <= u32::MAX by {
            assert(rest[i] == units[i + 1]);
        }
        law_repackaging_keeps_units(rest);
        let data = length_prefixed(units);
        let n = unit.len();
        assert(units[0].len() <= u32::MAX);
        assert(be32(data) == n) by {
            let prefix = be32_bytes(n);
            assert(data[0] == prefix[0] && data[1] == prefix[1]);
            assert(data[2] == prefix[2] && data[3] == prefix[3]);
            lemma_be32(n);
        }
        assert(data.subrange(4, 4 + n as int) =~= unit);
        assert(data.skip(4 + n as int) =~= length_prefixed(rest));
    }
}

/// Whether a start code begins somewhere in `nal`.
pub open spec fn holds_start_code(nal: Seq<u8>) -> bool {
    exists|p: int| #[trigger] start_code_at(nal, p)
}

/// Whether Annex B framing keeps the NAL units apart: each has a byte and holds no
/// start code, and the last one does not end in a zero byte.
pub open spec fn separable(units: Seq<Seq<u8>>) -> bool {
    &&& forall|i: int| 0 <= i < units.len() ==> (#[trigger] units[i]).len() > 0
    &&& forall|i: int| 0 <= i < units.len() ==> !holds_start_code(#[trigger] units[i])
    &&& units.len() > 0 ==> units.last().last() != 0
}

/// A stretch in which no start code begins adds none.
proof fn lemma_no_start_codes(data: Seq<u8>, from: int, to: int)
    requires
        0 <= from <= to,
        forall|p: int| from <= p < to ==> !#[trigger] start_code_at(data, p),
    ensures
        start_codes(data, from) == start_codes(data, to),
    decreases to - from,
{
    if from < to {
        assert(!start_code_at(data, from));
        lemma_no_start_codes(data, from + 1, to);
    }
}

/// Splitting a stream from `at` on, where Annex B framed units begin.
#[verifier::rlimit(40)]
proof fn lemma_units_from(data: Seq<u8>, at: int, units: Seq<Seq<u8>>)
    requires
        0 <= at <= data.len(),
        data.skip(at) == annex_b_of(units),
        separable(units),
    ensures
        units_at(data, start_codes(data, at)) == units,
        units.len() > 0 ==> start_codes(data, at).len() > 0 && start_codes(data, at)[0] == at + 1,
    decreases units.len(),
{
    let tail = data.skip(at);
    if units.len() == 0 {
        assert(start_codes(data, at) =~= Seq::empty());
        assert(units =~= Seq::empty());
    } else {
        let unit = units[0];
        let n = unit.len() as int;
        let rest = units.drop_first();
        let next = at + 4 + n;
        assert(forall|i: int| 0 <= i < tail.len() ==> data[at + i] == #[trigger] tail[i]);
        assert(tail =~= start_code() + unit + annex_b_of(rest));
        assert(tail.skip(4 + n) =~= annex_b_of(rest));
        assert(data.skip(next) =~= annex_b_of(rest));
        assert(tail[0] == 0 && tail[1] == 0 && tail[2] == 0 && tail[3] == 1);
        assert forall|i: int| 0 <= i < n implies data[at + 4 + i] == #[trigger] unit[i] by {
            assert(tail[4 + i] == unit[i]);
        }
        if rest.len() > 0 {
            let after = annex_b_of(rest);
            assert(after =~= start_code() + rest[0] + annex_b_of(rest.drop_first()));
            assert(after[0] == 0 && after[1] == 0 && after[2] == 0);
            assert(tail[4 + n] == after[0] && tail[5 + n] == after[1] && tail[6 + n] == after[2]);
        }
        assert(start_code_at(data, at + 1));
        assert(!start_code_at(data, at));
        assert forall|p: int| at + 2 <= p < next implies !#[trigger] start_code_at(data, p) by {
            let i = p - (at + 4);
            if start_code_at(data, p) {
                if i == -2 {
                    assert(data[at + 3] == tail[3]);
                } else if i == -1 {
                    assert(data[at + 3] == tail[3]);
                } else if i + 3 <= n {
                    assert(data[at + 4 + (i + 1)] == unit[i + 1]);
                    assert(data[at + 4 + (i + 2)] == unit[i + 2]);
                    assert(start_code_at(unit, i));
                    assert(holds_start_code(units[0]));
                } else if rest.len() > 0 {
                    if i + 2 == n {
                        assert(data[p + 2] == tail[4 + n]);
                    } else {
                        assert(data[p + 2] == tail[5 + n]);
                    }
                } else {
                    assert(annex_b_of(rest) =~= Seq::empty());
                    assert(tail.len() == 4 + n);
                }
            }
        }
        lemma_no_start_codes(data, at + 2, next);
        let codes = start_codes(data, at);
        assert(codes =~= seq![at + 1] + start_codes(data, next)) by {
            reveal_with_fuel(start_codes, 3);
        }
        assert forall|i: int| 0 <= i < rest.len() implies (#[trigger] rest[i]).len() > 0
            && !holds_start_code(rest[i]) by {
            assert(rest[i] == units[i + 1]);
        }
        lemma_units_from(data, next, rest);
        assert(codes.drop_first() =~= start_codes(data, next));
        assert(data.subrange(at + 4, next) =~= unit);
        if rest.len() > 0 {
            assert(codes[1] == next + 1);
            assert(data[next] == tail[4 + n]);
        } else {
            assert(annex_b_of(rest) =~= Seq::empty());
            assert(tail.len() == 4 + n);
            assert(start_codes(data, next) =~= Seq::empty());
            assert(data[next - 1] == unit[n - 1]);
        }
        assert(seq![unit] + rest =~= units);
    }
}

/// Splitting an Annex B stream gives back the NAL units that it was made of.
pub proof fn law_splitting_undoes_framing(units: Seq<Seq<u8>>)
    requires
        separable(units),
    ensures
        annex_b_units(annex_b_of(units)) == units,
{
    let data = annex_b_of(units);
    assert(data.skip(0) =~= data);
    lemma_units_from(data, 0, units);
}

/// Length-prefixed NAL units come back out of the Annex B stream that they are
/// repackaged into.
pub proof fn law_repackaged_units_split(units: Seq<Seq<u8>>)
    requires
        separable(units),
        forall|i: int| 0 <= i < units.len() ==> (#[trigger] units[i]).len() <= u32::MAX,
    ensures
        repacked(length_prefixed(units)).1 is None,
        annex_b_units(repacked(length_prefixed(units)).0) == units,
{
    law_repackaging_keeps_units(units);
    law_splitting_undoes_framing(units);
}

/// The NAL units in Annex B form, each behind a 4-byte start code if `long` says so,
/// else behind a 3-byte one.
pub open spec fn framed(units: Seq<Seq<u8>>, long: Seq<bool>) -> Seq<u8>
    decreases units.len(),
{
    if units.len() == 0 {
        Seq::empty()
    } else {
        let code = if long[0] {
            seq![0u8, 0u8, 0u8, 1u8]
        } else {
            seq![0u8, 0u8, 1u8]
        };
        code + units[0] + framed(units.drop_first(), long.drop_first())
    }
}

/// Whether the NAL units can be told apart in any framing: each holds no start code and
/// does not end in a zero byte.
pub open spec fn clear_cut(units: Seq<Seq<u8>>) -> bool {
    forall|i: int|
        0 <= i < units.len() ==> {
            &&& (#[trigger] units[i]).len() > 0
            &&& !holds_start_code(units[i])
            &&& units[i].last() != 0
        }
}

/// Splitting a stream from `at` on, where framed units begin.
#[verifier::rlimit(40)]
proof fn lemma_framed_from(data: Seq<u8>, at: int, units: Seq<Seq<u8>>, long: Seq<bool>)
    requires
        0 <= at <= data.len(),
        long.len() == units.len(),
        data.skip(at) == framed(units, long),
        clear_cut(units),
    ensures
        units_at(data, start_codes(data, at)) == units,
        units.len() > 0 ==> {
            &&& start_codes(data, at).len() > 0
            &&& start_codes(data, at)[0] == if long[0] {
                at + 1
            } else {
                at
            }
            &&& long[0] ==> data[at] == 0
        },
    decreases units.len(),
{
    let tail = data.skip(at);
    if units.len() == 0 {
        assert(start_codes(data, at) =~= Seq::empty());
        assert(units =~= Seq::empty());
    } else {
        let unit = units[0];
        let n = unit.len() as int;
        let rest = units.drop_first();
        let rest_long = long.drop_first();
        let code = if long[0] {
            seq![0u8, 0u8, 0u8, 1u8]
        } else {
            seq![0u8, 0u8, 1u8]
        };
        let m = code.len() as int;
        let next = at + m + n;
        assert(forall|i: int| 0 <= i < tail.len() ==> data[at + i] == #[trigger] tail[i]);
        assert(tail =~= code + unit + framed(rest, rest_long));
        assert(tail.skip(m + n) =~= framed(rest, rest_long));
        assert(data.skip(next) =~= framed(rest, rest_long));
        assert forall|i: int| 0 <= i < m implies data[at + i] == #[trigger] code[i] by {
            assert(tail[i] == code[i]);
        }
        assert forall|i: int| 0 <= i < n implies data[at + m + i] == #[trigger] unit[i] by {
            assert(tail[m + i] == unit[i]);
        }
        let begin = if long[0] {
            at + 1
        } else {
            at
        };
        assert(code[0] == 0 && code[1] == 0 && code[m - 1] == 1);
        if long[0] {
            assert(code[2] == 0);
            assert(!start_code_at(data, at));
        }
        assert(start_code_at(data, begin));
        assert(unit[n - 1] != 0);
        assert forall|p: int| begin + 1 <= p < next implies !#[trigger] start_code_at(
            data,
            p,
        ) by {
            let i = p - (at + m);
            if start_code_at(data, p) {
                if i < 0 {
                    assert(data[at + m - 1] == code[m - 1]);
                    assert(p + 1 == at + m - 1 || p == at + m - 1);
                } else if i + 3 <= n {
                    assert(data[at + m + i] == unit[i]);
                    assert(data[at + m + (i + 1)] == unit[i + 1]);
                    assert(data[at + m + (i + 2)] == unit[i + 2]);
                    assert(start_code_at(unit, i));
                    assert(holds_start_code(units[0]));
                } else {
                    assert(data[at + m + (n - 1)] == unit[n - 1]);
                }
            }
        }
        lemma_no_start_codes(data, begin + 1, next);
        let codes = start_codes(data, at);
        assert(codes =~= seq![begin] + start_codes(data, next)) by {
            reveal_with_fuel(start_codes, 3);
        }
        assert forall|i: int| 0 <= i < rest.len() implies {
            &&& (#[trigger] rest[i]).len() > 0
            &&& !holds_start_code(rest[i])
            &&& rest[i].last() != 0
        } by {
            assert(rest[i] == units[i + 1]);
        }
        lemma_framed_from(data, next, rest, rest_long);
        assert(codes.drop_first() =~= start_codes(data, next));
        assert(data.subrange(at + m, next) =~= unit);
        assert(data[next - 1] == unit[n - 1]);
        if rest.len() > 0 {
            assert(codes[1] == start_codes(data, next)[0]);
        } else {
            assert(framed(rest, rest_long) =~= Seq::empty());
            assert(tail.len() == m + n);
            assert(start_codes(data, next) =~= Seq::empty());
        }
        assert(seq![unit] + rest =~= units);
    }
}

/// Splitting an Annex B stream gives back the NAL units that it was made of, whether
/// they stand behind 3-byte or 4-byte start codes, and whatever stands before the first
/// one.
pub proof fn law_both_start_codes_are_stripped(
    lead: Seq<u8>,
    units: Seq<Seq<u8>>,
    long: Seq<bool>,
)
    requires
        long.len() == units.len(),
        clear_cut(units),
        forall|p: int|
            0 <= p < lead.len() ==> !#[trigger] start_code_at(lead + framed(units, long), p),
    ensures
        annex_b_units(lead + framed(units, long)) == units,
{
    let data = lead + framed(units, long);
    let at = lead.len() as int;
    assert(data.skip(at) =~= framed(units, long));
    lemma_no_start_codes(data, 0, at);
    lemma_framed_from(data, at, units, long);
}

/// Of several NAL units of a type, the last one is taken.
pub proof fn law_last_of_a_type_is_taken(nals: Seq<Seq<u8>>, ty: u8, i: int)
    requires
        0 <= i < nals.len(),
        nal_type(nals[i]) == Some(ty),
        forall|k: int| i < k < nals.len() ==> nal_type(#[trigger] nals[k]) != Some(ty),
    ensures
        last_of_type(nals, ty) == Some(nals[i]),
    decreases nals.len(),
{
    let last = nals.len() - 1;
    if i < last {
        assert(nal_type(nals[last]) != Some(ty));
        let rest = nals.drop_last();
        assert forall|k: int| i < k < rest.len() implies nal_type(#[trigger] rest[k]) != Some(
            ty,
        ) by {
            assert(rest[k] == nals[k]);
        }
        law_last_of_a_type_is_taken(rest, ty, i);
    }
}

/// The parameter sets of an access unit are its last VPS, its last SPS and its last PPS.
pub proof fn law_parameter_sets_are_the_last_of_each(
    nals: Seq<Seq<u8>>,
    vps: int,
    sps: int,
    pps: int,
)
    requires
        0 <= vps < nals.len(),
        0 <= sps < nals.len(),
        0 <= pps < nals.len(),
        nal_type(nals[vps]) == Some(32u8),
        nal_type(nals[sps]) == Some(33u8),
        nal_type(nals[pps]) == Some(34u8),
        forall|k: int| vps < k < nals.len() ==> nal_type(#[trigger] nals[k]) != Some(32u8),
        forall|k: int| sps < k < nals.len() ==> nal_type(#[trigger] nals[k]) != Some(33u8),
        forall|k: int| pps < k < nals.len() ==> nal_type(#[trigger] nals[k]) != Some(34u8),
    ensures
        parameter_sets_of(nals) == Some(
            ParameterSetBytes { vps: nals[vps], sps: nals[sps], pps: nals[pps] },
        ),
{
    law_last_of_a_type_is_taken(nals, 32, vps);
    law_last_of_a_type_is_taken(nals, 33, sps);
    law_last_of_a_type_is_taken(nals, 34, pps);
}

/// A type that no NAL unit has is not found.
pub proof fn law_missing_parameter_set_is_noticed(nals: Seq<Seq<u8>>, ty: u8)
    requires
        forall|k: int| 0 <= k < nals.len() ==> nal_type(#[trigger] nals[k]) != Some(ty),
    ensures
        last_of_type(nals, ty) is None,
        32 <= ty <= 34 ==> parameter_sets_of(nals) is None,
    decreases nals.len(),
{
    if nals.len() > 0 {
        let last = nals.len() - 1;
        assert(nal_type(nals[last]) != Some(ty));
        let rest = nals.drop_last();
        assert forall|k: int| 0 <= k < rest.len() implies nal_type(#[trigger] rest[k]) != Some(
            ty,
        ) by {
            assert(rest[k] == nals[k]);
        }
        law_missing_parameter_set_is_noticed(rest, ty);
    }
}

/// Whatever is left over behind complete NAL units is refused, and they are kept: fewer
/// bytes than a length takes, or fewer than the length announces.
#[verifier::rlimit(40)]
pub proof fn law_truncated_units_are_refused(units: Seq<Seq<u8>>, left: Seq<u8>)
    requires
        forall|i: int| 0 <= i < units.len() ==> (#[trigger] units[i]).len() <= u32::MAX,
        0 < left.len() <= usize::MAX,
        left.len() >= 4 ==> left.len() - 4 < left[0] * 0x100_0000 + left[1] * 0x1_0000 + left[2]
            * 0x100 + left[3],
    ensures
        repacked(length_prefixed(units) + left).0 == annex_b_of(units),
        repacked(length_prefixed(units) + left).1 == Some(
            if left.len() < 4 {
                HevcError::TruncatedLengthPrefix { trailing: left.len() as usize }
            } else {
                HevcError::TruncatedNalUnit {
                    available: (left.len() - 4) as usize,
                    announced: (left[0] * 0x100_0000 + left[1] * 0x1_0000 + left[2] * 0x100
                        + left[3]) as usize,
                }
            },
        ),
    decreases units.len(),
{
    if units.len() == 0 {
        assert(length_prefixed(units) + left =~= left);
    } else {
        let unit = units[0];
        let rest = units.drop_first();
        assert forall|i: int| 0 <= i < rest.len() implies (#[trigger] rest[i]).len()
            <= u32::MAX by {
            assert(rest[i] == units[i + 1]);
        }
        law_truncated_units_are_refused(rest, left);
        let data = length_prefixed(units) + left;
        let n = unit.len();
        assert(units[0].len() <= u32::MAX);
        assert(be32(data) == n) by {
            let prefix = be32_bytes(n);
            assert(data[0] == prefix[0] && data[1] == prefix[1]);
            assert(data[2] == prefix[2] && data[3] == prefix[3]);
            lemma_be32(n);
        }
        assert(data.subrange(4, 4 + n as int) =~= unit);
        assert(data.skip(4 + n as int) =~= length_prefixed(rest) + left);
    }
}

/// A parameter set is a NAL unit of type 32, 33 or 34; a picture that a decoder can start
/// from has a type from 16 to 23. The type stands behind the leading bit of the first
/// byte.
pub proof fn law_kinds_of_units_by_type(nal: Seq<u8>)
    ensures
        parameter_set_nal(nal) <==> nal.len() > 0 && 32 <= (nal[0] / 2) % 64 <= 34,
        irap_nal(nal) <==> nal.len() > 0 && 16 <= (nal[0] / 2) % 64 <= 23,
        nal_type(nal) == if nal.len() > 0 {
            Some((nal[0] / 2) % 64)
        } else {
            None
        },
{
}

/// A zero byte behind the last NAL unit is taken for padding, once.
pub proof fn law_trailing_zero_is_dropped(data: Seq<u8>)
    requires
        data.len() > 0,
        data.last() != 0,
    ensures
        annex_b_units(data.push(0)) == annex_b_units(data),
{
    let all = data.push(0);
    lemma_start_codes_padded(data, 0);
    lemma_start_codes_bound(data, 0);
    let codes = start_codes(data, 0);
    assert(codes.skip(0) =~= codes);
    lemma_units_padded(data, codes, 0);
}

/// A zero byte at the end begins no start code.
proof fn lemma_start_codes_padded(data: Seq<u8>, from: int)
    requires
        0 <= from,
    ensures
        start_codes(data.push(0), from) == start_codes(data, from),
    decreases data.len() + 1 - from,
{
    let all = data.push(0);
    if from + 3 <= all.len() {
        lemma_start_codes_padded(data, from + 1);
        if from + 3 <= data.len() {
            assert(start_code_at(all, from) == start_code_at(data, from));
        } else {
            assert(all[from + 2] == 0);
            assert(start_codes(all, from + 1) =~= Seq::empty());
        }
    }
}

/// The units are the same with a zero byte at the end.
proof fn lemma_units_padded(data: Seq<u8>, codes: Seq<int>, k: int)
    requires
        data.len() > 0,
        data.last() != 0,
        0 <= k <= codes.len(),
        forall|i: int| 0 <= i < codes.len() ==> start_code_at(data, #[trigger] codes[i]),
        forall|i: int| 0 < i < codes.len() ==> codes[i - 1] + 3 <= #[trigger] codes[i],
    ensures
        units_at(data.push(0), codes.skip(k)) == units_at(data, codes.skip(k)),
    decreases codes.len() - k,
{
    let all = data.push(0);
    let rest = codes.skip(k);
    if k < codes.len() {
        lemma_units_padded(data, codes, k + 1);
        assert(rest.drop_first() =~= codes.skip(k + 1));
        assert(rest[0] == codes[k]);
        let start = codes[k] + 3;
        assert(start_code_at(data, codes[k]));
        if k + 1 < codes.len() {
            assert(rest[1] == codes[k + 1]);
            assert(start_code_at(data, codes[k + 1]));
            let end = unit_end(data, start, codes[k + 1]);
            assert(unit_end(all, start, codes[k + 1]) == end);
            assert(all.subrange(start, end) =~= data.subrange(start, end));
        } else {
            let n = data.len() as int;
            assert(unit_end(data, start, n) == n);
            assert(unit_end(all, start, n + 1) == n);
            assert(all.subrange(start, n) =~= data.subrange(start, n));
        }
    }
}

/// Whether a NAL unit can end at `end`: the data end there, or a start code begins, or
/// one zero byte stands before either.
pub open spec fn ends_at(data: Seq<u8>, end: int) -> bool {
    ||| end == data.len()
    ||| start_code_at(data, end)
    ||| data[end] == 0 && (end + 1 == data.len() || start_code_at(data, end + 1))
}

/// Whether `unit` is what stands behind the start code at `p`: it has a byte, runs across
/// no other start code, and ends where a NAL unit can end.
pub open spec fn stands_behind(data: Seq<u8>, unit: Seq<u8>, p: int) -> bool {
    let end = p + 3 + unit.len();
    &&& start_code_at(data, p)
    &&& unit.len() > 0
    &&& end <= data.len()
    &&& unit == data.subrange(p + 3, end)
    &&& ends_at(data, end)
    &&& forall|q: int| p < q < end ==> !#[trigger] start_code_at(data, q)
}

/// Every NAL unit of a stream, whatever the stream holds, is what stands between two
/// start codes, or behind the last one.
pub proof fn law_units_stand_between_start_codes(data: Seq<u8>, k: int)
    requires
        0 <= k < annex_b_units(data).len(),
    ensures
        exists|p: int| #[trigger] stands_behind(data, annex_b_units(data)[k], p),
{
    let codes = start_codes(data, 0);
    lemma_start_codes_bound(data, 0);
    lemma_start_codes_complete(data, 0);
    assert(codes.skip(0) =~= codes);
    assert forall|i: int, l: int| 0 <= i < l < codes.len() implies #[trigger] codes[i]
        < #[trigger] codes[l] by {
        lemma_codes_ordered(codes, i, l);
    }
    lemma_unit_between(data, codes, 0, k);
}

/// Every start code is found.
proof fn lemma_start_codes_complete(data: Seq<u8>, from: int)
    requires
        0 <= from,
    ensures
        forall|q: int|
            from <= q && #[trigger] start_code_at(data, q) ==> start_codes(data, from).contains(q),
    decreases data.len() - from,
{
    let all = start_codes(data, from);
    if from + 3 <= data.len() {
        let rest = start_codes(data, from + 1);
        lemma_start_codes_complete(data, from + 1);
        assert forall|q: int| from <= q && #[trigger] start_code_at(
            data,
            q,
        ) implies all.contains(q) by {
            if q == from {
                assert(all[0] == q);
            } else {
                let i = choose|i: int| 0 <= i < rest.len() && rest[i] == q;
                if start_code_at(data, from) {
                    assert(all[i + 1] == q);
                } else {
                    assert(all[i] == q);
                }
            }
        }
    }
}

/// A unit behind the start codes from `j` on stands behind one of them.
proof fn lemma_unit_between(data: Seq<u8>, codes: Seq<int>, j: int, k: int)
    requires
        0 <= j <= codes.len(),
        forall|i: int| 0 <= i < codes.len() ==> start_code_at(data, #[trigger] codes[i]),
        forall|i: int, l: int|
            0 <= i < l < codes.len() ==> #[trigger] codes[i] < #[trigger] codes[l],
        forall|q: int| 0 <= q && #[trigger] start_code_at(data, q) ==> codes.contains(q),
        0 <= k < units_at(data, codes.skip(j)).len(),
    ensures
        exists|p: int| #[trigger] stands_behind(data, units_at(data, codes.skip(j))[k], p),
    decreases codes.len() - j,
{
    let rest = codes.skip(j);
    let p = codes[j];
    assert(rest[0] == p);
    assert(start_code_at(data, p));
    assert(rest.drop_first() =~= codes.skip(j + 1));
    let limit = if rest.len() > 1 {
        rest[1]
    } else {
        data.len() as int
    };
    if rest.len() > 1 {
        assert(rest[1] == codes[j + 1]);
        assert(start_code_at(data, codes[j + 1]));
    }
    let end = unit_end(data, p + 3, limit);
    if end > p + 3 && k == 0 {
        lemma_first_unit(data, codes, j, limit);
        assert(units_at(data, rest)[0] == data.subrange(p + 3, end));
        assert(stands_behind(data, data.subrange(p + 3, end), p));
    } else {
        let others = units_at(data, codes.skip(j + 1));
        let l = if end > p + 3 {
            k - 1
        } else {
            k
        };
        if end > p + 3 {
            assert(units_at(data, rest) =~= seq![data.subrange(p + 3, end)] + others);
        }
        assert(units_at(data, rest)[k] == others[l]);
        lemma_unit_between(data, codes, j + 1, l);
        let q = choose|q: int| #[trigger] stands_behind(data, others[l], q);
        assert(stands_behind(data, units_at(data, rest)[k], q));
    }
}

/// What is cut out behind a start code.
proof fn lemma_first_unit(data: Seq<u8>, codes: Seq<int>, j: int, limit: int)
    requires
        0 <= j < codes.len(),
        start_code_at(data, codes[j]),
        j + 1 < codes.len() ==> start_code_at(data, codes[j + 1]),
        limit == if j + 1 < codes.len() {
            codes[j + 1]
        } else {
            data.len() as int
        },
        forall|i: int, l: int|
            0 <= i < l < codes.len() ==> #[trigger] codes[i] < #[trigger] codes[l],
        forall|q: int| 0 <= q && #[trigger] start_code_at(data, q) ==> codes.contains(q),
        unit_end(data, codes[j] + 3, limit) > codes[j] + 3,
    ensures
        ({
            let p = codes[j];
            stands_behind(data, data.subrange(p + 3, unit_end(data, p + 3, limit)), p)
        }),
{
    let p = codes[j];
    let end = unit_end(data, p + 3, limit);
    assert forall|q: int| p < q < end implies !#[trigger] start_code_at(data, q) by {
        if start_code_at(data, q) {
            let i = choose|i: int| 0 <= i < codes.len() && codes[i] == q;
            assert(codes[i] == q);
            assert(i > j);
            if i > j + 1 {
                assert(codes[j + 1] < codes[i]);
            }
        }
    }
}

/// Start codes stand in order.
proof fn lemma_codes_ordered(codes: Seq<int>, i: int, j: int)
    requires
        0 <= i < j < codes.len(),
        forall|i: int| 0 < i < codes.len() ==> codes[i - 1] + 3 <= #[trigger] codes[i],
    ensures
        codes[i] < codes[j],
    decreases j - i,
{
    assert(codes[j - 1] + 3 <= codes[j]);
    if i < j - 1 {
        lemma_codes_ordered(codes, i, j - 1);
    }
}

} // verus!
