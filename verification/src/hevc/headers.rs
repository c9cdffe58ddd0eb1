//! The parameter sets: the fields of an SPS and of a PPS that slice-header
//! parsing depends on.

use super::bits::{self, BitReader, Cursor};
use super::emulation::{self, unescape_rbsp};
use super::error::HevcError;
use super::rps::{self, parse_direct_st_rps, RpsEntry};
use vstd::prelude::*;
use vstd::slice::slice_subrange;

verus! {

broadcast use super::bits::group_failed;

/// The fields of an SPS that slice-header parsing depends on.
#[derive(Debug, Clone, PartialEq, Eq)]
pub struct SpsInfo {
    /// Number of bits in `slice_pic_order_cnt_lsb` (log2_max_pic_order_cnt_lsb).
    pub poc_lsb_bits: u32,
    /// `separate_colour_plane_flag` (4:4:4 streams coding planes separately).
    pub separate_colour_plane: bool,
    /// The SPS-level short-term RPS candidates a slice can select by index.
    pub short_term_rps: Vec<Vec<RpsEntry>>,
    /// `long_term_ref_pics_present_flag`.
    pub long_term_ref_pics_present: bool,
    /// `num_long_term_ref_pics_sps`.
    pub num_long_term_ref_pics_sps: u32,
    /// `sps_temporal_mvp_enabled_flag`.
    pub temporal_mvp: bool,
    /// `sample_adaptive_offset_enabled_flag`.
    pub sao: bool,
}

/// What an [`SpsInfo`] says.
#[verifier::ext_equal]
pub struct SpsFields {
    pub poc_lsb_bits: u32,
    pub separate_colour_plane: bool,
    pub short_term_rps: Seq<Seq<RpsEntry>>,
    pub long_term_ref_pics_present: bool,
    pub num_long_term_ref_pics_sps: u32,
    pub temporal_mvp: bool,
    pub sao: bool,
}

impl View for SpsInfo {
    type V = SpsFields;

    open spec fn view(&self) -> SpsFields {
        SpsFields {
            poc_lsb_bits: self.poc_lsb_bits,
            separate_colour_plane: self.separate_colour_plane,
            short_term_rps: sets_view(self.short_term_rps@),
            long_term_ref_pics_present: self.long_term_ref_pics_present,
            num_long_term_ref_pics_sps: self.num_long_term_ref_pics_sps,
            temporal_mvp: self.temporal_mvp,
            sao: self.sao,
        }
    }
}

impl SpsInfo {
    /// What holds of every parsed SPS: a POC length that a slice can carry, and
    /// as many candidates as a slice can address.
    pub open spec fn wf(&self) -> bool {
        4 <= self.poc_lsb_bits <= 16 && self.short_term_rps@.len() <= 64
    }
}

/// The entries of each set.
pub open spec fn sets_view(sets: Seq<Vec<RpsEntry>>) -> Seq<Seq<RpsEntry>> {
    sets.map_values(|set: Vec<RpsEntry>| set@)
}

impl Default for SpsInfo {
    fn default() -> (res: Self)
        ensures
            res@ == (SpsFields {
                poc_lsb_bits: 0,
                separate_colour_plane: false,
                short_term_rps: Seq::empty(),
                long_term_ref_pics_present: false,
                num_long_term_ref_pics_sps: 0,
                temporal_mvp: false,
                sao: false,
            }),
    {
        let res = SpsInfo {
            poc_lsb_bits: 0,
            separate_colour_plane: false,
            short_term_rps: Vec::new(),
            long_term_ref_pics_present: false,
            num_long_term_ref_pics_sps: 0,
            temporal_mvp: false,
            sao: false,
        };
        assert(res@.short_term_rps =~= Seq::empty());
        res
    }
}

/// Reads, for each of `n` sub-layers, whether its profile and its level follow.
pub open spec fn sub_layer_flags(c: Cursor, n: nat) -> (Seq<(bool, bool)>, Cursor)
    decreases n,
{
    if n == 0 {
        (Seq::empty(), c)
    } else {
        let (profile, c) = c.flag();
        let (level, c) = c.flag();
        let (rest, c) = sub_layer_flags(c, (n - 1) as nat);
        (seq![(profile, level)] + rest, c)
    }
}

/// Skips the sub-layer profiles (88 bits) and levels (8 bits) that `flags` announce.
pub open spec fn skip_sub_layers(c: Cursor, flags: Seq<(bool, bool)>) -> Cursor
    decreases flags.len(),
{
    if flags.len() == 0 {
        c
    } else {
        let c = if flags[0].0 {
            c.skip_u(32).skip_u(32).skip_u(24)
        } else {
            c
        };
        let c = if flags[0].1 {
            c.skip_u(8)
        } else {
            c
        };
        skip_sub_layers(c, flags.drop_first())
    }
}

/// Skips profile_tier_level(): the 96 bits of the general profile and level,
/// then what there is of `n` sub-layers.
pub open spec fn profile_tier_level(c: Cursor, n: u32) -> Cursor {
    let c = c.skip_u(2).skip_u(1).skip_u(5);
    let c = c.skip_u(32).skip_u(4).skip_u(32).skip_u(12).skip_u(8);
    let (flags, c) = sub_layer_flags(c, n as nat);
    let c = if 0 < n < 8 {
        c.skip_u_times(2, (8 - n) as nat)
    } else {
        c
    };
    skip_sub_layers(c, flags)
}

/// A failed cursor stays failed.
pub broadcast proof fn lemma_sub_layer_flags_failed(c: Cursor, n: nat)
    ensures
        !c.ok() ==> (#[trigger] sub_layer_flags(c, n)).1 == c,
    decreases n,
{
    if n > 0 {
        lemma_sub_layer_flags_failed(c.flag().1.flag().1, (n - 1) as nat);
    }
}

/// A failed cursor stays failed.
pub broadcast proof fn lemma_skip_sub_layers_failed(c: Cursor, flags: Seq<(bool, bool)>)
    ensures
        !c.ok() ==> #[trigger] skip_sub_layers(c, flags) == c,
    decreases flags.len(),
{
    if flags.len() > 0 {
        lemma_skip_sub_layers_failed(c, flags.drop_first());
    }
}

/// Skip profile_tier_level() for `max_sub_layers_minus1` sub-layers.
fn skip_profile_tier_level(r: &mut BitReader<'_>, max_sub_layers_minus1: u32) -> (res: Result<
    (),
    HevcError,
>)
    ensures
        final(r).bytes() == old(r).bytes(),
        match res {
            Ok(_) => profile_tier_level(old(r).cursor(), max_sub_layers_minus1)
                == final(r).cursor(),
            Err(e) => profile_tier_level(old(r).cursor(), max_sub_layers_minus1).err == Some(e),
        },
{
    broadcast use {
        lemma_sub_layer_flags_failed,
        lemma_skip_sub_layers_failed,
    };

    r.u(2)?;  // profile_space
    r.u(1)?;  // tier
    r.u(5)?;  // profile_idc
    r.u(32)?;  // compatibility flags
    r.u(4)?;  // progressive/interlaced/non_packed/frame_only
    r.u(32)?;  // reserved (43 bits) + inbld (1 bit), split for the 32-bit reader
    r.u(12)?;
    r.u(8)?;  // level_idc
    let sub_layers = read_sub_layer_flags(r, max_sub_layers_minus1)?;
    if max_sub_layers_minus1 > 0 && max_sub_layers_minus1 < 8 {
        r.skip_u_times(2, 8 - max_sub_layers_minus1)?;
    }
    let ghost flags = sub_layers@;
    let ghost start = r.cursor();
    assert(sub_layers@.skip(0) =~= flags);
    let mut i: usize = 0;
    while i < sub_layers.len()
        invariant
            r.bytes() == old(r).bytes(),
            i <= sub_layers.len(),
            flags == sub_layers@,
            profile_tier_level(old(r).cursor(), max_sub_layers_minus1) == skip_sub_layers(
                start,
                flags,
            ),
            skip_sub_layers(start, flags) == skip_sub_layers(r.cursor(), flags.skip(i as int)),
        decreases sub_layers.len() - i,
    {
        let (sub_profile, sub_level) = sub_layers[i];
        proof {
            let rest = flags.skip(i as int);
            assert(rest[0] == sub_layers@[i as int]);
            assert(rest.drop_first() =~= flags.skip(i + 1));
            let c = r.cursor();
            let c1 = if sub_profile {
                c.skip_u(32).skip_u(32).skip_u(24)
            } else {
                c
            };
            let c2 = if sub_level {
                c1.skip_u(8)
            } else {
                c1
            };
            lemma_skip_sub_layers_failed(c2, rest.drop_first());
        }
        if sub_profile {
            r.u(32)?;
            r.u(32)?;
            r.u(24)?;  // 88 bits total
        }
        if sub_level {
            r.u(8)?;
        }
        i = i + 1;
    }
    Ok(())
}

/// Read the presence flags of `n` sub-layers.
fn read_sub_layer_flags(r: &mut BitReader<'_>, n: u32) -> (res: Result<
    Vec<(bool, bool)>,
    HevcError,
>)
    ensures
        final(r).bytes() == old(r).bytes(),
        match res {
            Ok(flags) => sub_layer_flags(old(r).cursor(), n as nat) == (flags@, final(r).cursor()),
            Err(e) => sub_layer_flags(old(r).cursor(), n as nat).1.err == Some(e),
        },
{
    let mut flags: Vec<(bool, bool)> = Vec::new();
    let ghost start = r.cursor();
    let mut i: u32 = 0;
    while i < n
        invariant
            r.bytes() == old(r).bytes(),
            i <= n,
            start == old(r).cursor(),
            sub_layer_flags(start, n as nat).0 =~= flags@ + sub_layer_flags(
                r.cursor(),
                (n - i) as nat,
            ).0,
            sub_layer_flags(start, n as nat).1 == sub_layer_flags(r.cursor(), (n - i) as nat).1,
        decreases n - i,
    {
        proof {
            let next = r.cursor().flag().1.flag().1;
            lemma_sub_layer_flags_failed(next, (n - i - 1) as nat);
        }
        let profile: bool = r.flag()?;
        let level: bool = r.flag()?;
        flags.push((profile, level));
        i = i + 1;
    }
    assert(flags@ =~= flags@ + sub_layer_flags(r.cursor(), 0).0);
    Ok(flags)
}

/// What the first part of an SPS says.
pub struct SpsHead {
    pub max_sub_layers_minus1: u32,
    pub separate_colour_plane: bool,
}

/// Reads an SPS from its start to the bit depths.
pub open spec fn sps_head(c: Cursor) -> (SpsHead, Cursor) {
    let c = c.skip_u(4);
    let (max_sub_layers_minus1, c) = c.u(3);
    let c = c.skip_u(1);
    let c = profile_tier_level(c, max_sub_layers_minus1);
    let c = c.skip_ue();
    let (chroma_format_idc, c) = c.ue();
    let (separate_colour_plane, c) = if chroma_format_idc == 3 {
        c.flag()
    } else {
        (false, c)
    };
    let c = c.skip_ue().skip_ue();
    let (conformance_window, c) = c.flag();
    let c = if conformance_window {
        c.skip_ue_times(4)
    } else {
        c
    };
    let c = c.skip_ue().skip_ue();
    (SpsHead { max_sub_layers_minus1, separate_colour_plane }, c)
}

/// What the middle part of an SPS says.
pub struct SpsCoding {
    pub poc_lsb_bits: u32,
    pub sao: bool,
}

/// Reads an SPS from the POC length to the PCM parameters.
pub open spec fn sps_coding(c: Cursor, max_sub_layers_minus1: u32) -> (SpsCoding, Cursor) {
    let (poc_lsb_bits_minus4, c) = c.ue();
    let c = c.ensure(poc_lsb_bits_minus4 <= 12, HevcError::BadPocLsbBits);
    let (sub_layer_ordering, c) = c.flag();
    let sub_layers = if sub_layer_ordering {
        max_sub_layers_minus1 + 1
    } else {
        1
    };
    let c = c.skip_ue_times((3 * sub_layers) as nat);
    let c = c.skip_ue_times(6);
    let (scaling_list_enabled, c) = c.flag();
    let c = if scaling_list_enabled {
        let (scaling_list_data, c) = c.flag();
        c.ensure(!scaling_list_data, HevcError::SpsScalingList)
    } else {
        c
    };
    let c = c.skip_u(1);
    let (sao, c) = c.flag();
    let (pcm_enabled, c) = c.flag();
    let c = if pcm_enabled {
        c.skip_u(8).skip_ue().skip_ue().skip_u(1)
    } else {
        c
    };
    (SpsCoding { poc_lsb_bits: (poc_lsb_bits_minus4 + 4) as u32, sao }, c)
}

/// Reads the short-term sets of an SPS from set `i` to the last of `n`.
pub open spec fn sps_sets(c: Cursor, i: nat, n: nat) -> (Seq<Seq<RpsEntry>>, Cursor)
    decreases n - i,
{
    if i >= n {
        (Seq::empty(), c)
    } else {
        let c = if i > 0 {
            let (predicted, c) = c.flag();
            c.ensure(!predicted, HevcError::PredictedSpsRps)
        } else {
            c
        };
        let (set, c) = rps::direct_st_rps(c);
        let (rest, c) = sps_sets(c, i + 1, n);
        (seq![set.entries] + rest, c)
    }
}

/// Skips `count` long-term reference candidates.
pub open spec fn skip_long_term(c: Cursor, poc_lsb_bits: u32, count: nat) -> Cursor
    decreases count,
{
    if count == 0 {
        c
    } else {
        skip_long_term(c.skip_u(poc_lsb_bits).skip_u(1), poc_lsb_bits, (count - 1) as nat)
    }
}

/// What the last part of an SPS says.
pub struct SpsReferences {
    pub short_term_rps: Seq<Seq<RpsEntry>>,
    pub long_term_ref_pics_present: bool,
    pub num_long_term_ref_pics_sps: u32,
    pub temporal_mvp: bool,
}

/// Reads an SPS from the number of short-term sets to the temporal MVP flag.
pub open spec fn sps_references(c: Cursor, poc_lsb_bits: u32) -> (SpsReferences, Cursor) {
    let (num_st_rps, c) = c.ue();
    let c = c.ensure(num_st_rps <= 64, HevcError::ImplausibleRpsCount);
    let (short_term_rps, c) = sps_sets(c, 0, num_st_rps as nat);
    let (long_term_ref_pics_present, c) = c.flag();
    let (num_long_term_ref_pics_sps, c) = if long_term_ref_pics_present {
        let (num, c) = c.ue();
        (num, skip_long_term(c, poc_lsb_bits, num as nat))
    } else {
        (0u32, c)
    };
    let (temporal_mvp, c) = c.flag();
    (
        SpsReferences {
            short_term_rps,
            long_term_ref_pics_present,
            num_long_term_ref_pics_sps,
            temporal_mvp,
        },
        c,
    )
}

/// Reads the fields of an SPS from its RBSP.
pub open spec fn sps_fields(c: Cursor) -> (SpsFields, Cursor) {
    let (head, c) = sps_head(c);
    let (coding, c) = sps_coding(c, head.max_sub_layers_minus1);
    let (references, c) = sps_references(c, coding.poc_lsb_bits);
    (
        SpsFields {
            poc_lsb_bits: coding.poc_lsb_bits,
            separate_colour_plane: head.separate_colour_plane,
            short_term_rps: references.short_term_rps,
            long_term_ref_pics_present: references.long_term_ref_pics_present,
            num_long_term_ref_pics_sps: references.num_long_term_ref_pics_sps,
            temporal_mvp: references.temporal_mvp,
            sao: coding.sao,
        },
        c,
    )
}

/// The bits behind the two-byte header of `nal`, without emulation prevention.
pub open spec fn payload_bits(nal: Seq<u8>) -> Seq<bool> {
    bits::bits_of(emulation::unescaped(nal.skip(2)))
}

/// What the SPS NAL unit `nal` says, or what is wrong with it.
pub open spec fn sps_of(nal: Seq<u8>) -> Result<SpsFields, HevcError> {
    if nal.len() <= 2 {
        Err(HevcError::SpsTooShort)
    } else {
        let (sps, c) = sps_fields(Cursor::start(payload_bits(nal)));
        c.finish(sps)
    }
}

/// A failed cursor stays failed.
pub broadcast proof fn lemma_profile_tier_level_failed(c: Cursor, n: u32)
    ensures
        !c.ok() ==> #[trigger] profile_tier_level(c, n) == c,
{
    broadcast use {
        lemma_sub_layer_flags_failed,
        lemma_skip_sub_layers_failed,
    };

}

/// A failed cursor stays failed.
pub broadcast proof fn lemma_sps_sets_failed(c: Cursor, i: nat, n: nat)
    ensures
        !c.ok() ==> (#[trigger] sps_sets(c, i, n)).1 == c,
    decreases n - i,
{
    broadcast use rps::lemma_direct_st_rps_failed;

    if i < n {
        lemma_sps_sets_failed(c, i + 1, n);
    }
}

/// A failed cursor stays failed.
pub broadcast proof fn lemma_skip_long_term_failed(c: Cursor, poc_lsb_bits: u32, count: nat)
    ensures
        !c.ok() ==> #[trigger] skip_long_term(c, poc_lsb_bits, count) == c,
    decreases count,
{
    if count > 0 {
        lemma_skip_long_term_failed(c, poc_lsb_bits, (count - 1) as nat);
    }
}

/// A failed cursor stays failed.
pub proof fn lemma_sps_coding_failed(c: Cursor, n: u32)
    ensures
        !c.ok() ==> sps_coding(c, n).1 == c,
{
}

/// A failed cursor stays failed.
pub proof fn lemma_sps_references_failed(c: Cursor, poc_lsb_bits: u32)
    ensures
        !c.ok() ==> sps_references(c, poc_lsb_bits).1 == c,
{
    broadcast use {lemma_sps_sets_failed, lemma_skip_long_term_failed};

}

/// Parse an SPS from its start to the bit depths.
#[verifier::rlimit(40)]
fn parse_sps_head(r: &mut BitReader<'_>) -> (res: Result<(u32, bool), HevcError>)
    ensures
        final(r).bytes() == old(r).bytes(),
        match res {
            Ok((max_sub_layers_minus1, separate_colour_plane)) => {
                &&& max_sub_layers_minus1 < 8
                &&& sps_head(old(r).cursor()) == (
                    SpsHead { max_sub_layers_minus1, separate_colour_plane },
                    final(r).cursor(),
                )
            },
            Err(e) => sps_head(old(r).cursor()).1.err == Some(e),
        },
{
    broadcast use lemma_profile_tier_level_failed;

    r.u(4)?;  // sps_video_parameter_set_id
    proof {
        use_type_invariant(&*r);
        bits::lemma_reader_in_range(*r);
        bits::lemma_u_bound(r.cursor(), 3);
        vstd::arithmetic::power2::lemma2_to64();
    }
    let max_sub_layers_minus1: u32 = r.u(3)?;
    r.u(1)?;  // temporal_id_nesting
    skip_profile_tier_level(r, max_sub_layers_minus1)?;
    r.ue()?;  // sps_seq_parameter_set_id
    let chroma_format_idc: u32 = r.ue()?;
    let separate_colour_plane = if chroma_format_idc == 3 {
        r.flag()?
    } else {
        false
    };
    r.ue()?;  // pic_width_in_luma_samples
    r.ue()?;  // pic_height_in_luma_samples
    if r.flag()? {
        // conformance window
        r.skip_ue_times(4)?;
    }
    r.ue()?;  // bit_depth_luma_minus8
    r.ue()?;  // bit_depth_chroma_minus8
    Ok((max_sub_layers_minus1, separate_colour_plane))
}

/// Parse an SPS from the POC length to the PCM parameters.
#[verifier::rlimit(40)]
fn parse_sps_coding(r: &mut BitReader<'_>, max_sub_layers_minus1: u32) -> (res: Result<
    (u32, bool),
    HevcError,
>)
    requires
        max_sub_layers_minus1 < 8,
    ensures
        final(r).bytes() == old(r).bytes(),
        match res {
            Ok((poc_lsb_bits, sao)) => {
                &&& 4 <= poc_lsb_bits <= 16
                &&& sps_coding(old(r).cursor(), max_sub_layers_minus1) == (
                    SpsCoding { poc_lsb_bits, sao },
                    final(r).cursor(),
                )
            },
            Err(e) => sps_coding(old(r).cursor(), max_sub_layers_minus1).1.err == Some(e),
        },
{
    let poc_lsb_bits_minus4: u32 = r.ue()?;
    if poc_lsb_bits_minus4 > 12 {
        return Err(HevcError::BadPocLsbBits);
    }
    let sub_layers: u32 = if r.flag()? {
        // sub_layer_ordering_info_present
        max_sub_layers_minus1 + 1
    } else {
        1
    };
    // max_dec_pic_buffering_minus1, num_reorder_pics, max_latency_increase_plus1
    r.skip_ue_times(3 * sub_layers)?;
    // log2_min_luma_coding_block_size_minus3,
    // log2_diff_max_min_luma_coding_block_size,
    // log2_min_luma_transform_block_size_minus2,
    // log2_diff_max_min_luma_transform_block_size,
    // max_transform_hierarchy_depth_inter, max_transform_hierarchy_depth_intra
    r.skip_ue_times(6)?;
    if r.flag()? {
        // scaling_list_enabled
        if r.flag()? {
            return Err(HevcError::SpsScalingList);
        }
    }
    r.u(1)?;  // amp_enabled
    let sao: bool = r.flag()?;
    if r.flag()? {
        // pcm_enabled
        r.u(8)?;  // sample bit depths
        r.ue()?;
        r.ue()?;
        r.u(1)?;
    }
    Ok((poc_lsb_bits_minus4 + 4, sao))
}

/// Parse the short-term sets of an SPS.
fn parse_sps_sets(r: &mut BitReader<'_>, n: u32) -> (res: Result<Vec<Vec<RpsEntry>>, HevcError>)
    ensures
        final(r).bytes() == old(r).bytes(),
        match res {
            Ok(sets) => sps_sets(old(r).cursor(), 0, n as nat) == (
                sets_view(sets@),
                final(r).cursor(),
            ),
            Err(e) => sps_sets(old(r).cursor(), 0, n as nat).1.err == Some(e),
        },
{
    let mut sets: Vec<Vec<RpsEntry>> = Vec::new();
    let ghost start = r.cursor();
    assert(sets_view(sets@) =~= Seq::empty());
    let mut i: u32 = 0;
    while i < n
        invariant
            r.bytes() == old(r).bytes(),
            i <= n,
            start == old(r).cursor(),
            sps_sets(start, 0, n as nat).0 =~= sets_view(sets@) + sps_sets(
                r.cursor(),
                i as nat,
                n as nat,
            ).0,
            sps_sets(start, 0, n as nat).1 == sps_sets(r.cursor(), i as nat, n as nat).1,
        decreases n - i,
    {
        let ghost before = sets_view(sets@);
        proof {
            let c = r.cursor();
            let c1 = if i > 0 {
                c.flag().1.ensure(!c.flag().0, HevcError::PredictedSpsRps)
            } else {
                c
            };
            rps::lemma_direct_st_rps_failed(c1);
            lemma_sps_sets_failed(rps::direct_st_rps(c1).1, i as nat + 1, n as nat);
        }
        if i > 0 {
            if r.flag()? {
                return Err(HevcError::PredictedSpsRps);
            }
        }
        let set = parse_direct_st_rps(r)?;
        sets.push(set);
        assert(sets_view(sets@) =~= before.push(set@));
        i = i + 1;
    }
    Ok(sets)
}

/// Parse an SPS from the number of short-term sets to the temporal MVP flag.
fn parse_sps_references(r: &mut BitReader<'_>, poc_lsb_bits: u32) -> (res: Result<
    (Vec<Vec<RpsEntry>>, bool, u32, bool),
    HevcError,
>)
    ensures
        final(r).bytes() == old(r).bytes(),
        match res {
            Ok((sets, long_term_ref_pics_present, num_long_term_ref_pics_sps, temporal_mvp)) => {
                &&& sets@.len() <= 64
                &&& sps_references(old(r).cursor(), poc_lsb_bits) == (
                    SpsReferences {
                        short_term_rps: sets_view(sets@),
                        long_term_ref_pics_present,
                        num_long_term_ref_pics_sps,
                        temporal_mvp,
                    },
                    final(r).cursor(),
                )
            },
            Err(e) => sps_references(old(r).cursor(), poc_lsb_bits).1.err == Some(e),
        },
{
    broadcast use {lemma_sps_sets_failed, lemma_skip_long_term_failed};

    let num_st_rps: u32 = r.ue()?;
    if num_st_rps > 64 {
        return Err(HevcError::ImplausibleRpsCount);
    }
    let ghost sets_start = r.cursor();
    let sets = parse_sps_sets(r, num_st_rps)?;
    proof {
        lemma_sps_sets_len(sets_start, 0, num_st_rps as nat);
        assert(sets_view(sets@).len() == sets@.len());
    }
    let long_term_ref_pics_present: bool = r.flag()?;
    let mut num_long_term_ref_pics_sps: u32 = 0;
    if long_term_ref_pics_present {
        num_long_term_ref_pics_sps = r.ue()?;
        skip_long_term_candidates(r, poc_lsb_bits, num_long_term_ref_pics_sps)?;
    }
    let temporal_mvp: bool = r.flag()?;
    Ok((sets, long_term_ref_pics_present, num_long_term_ref_pics_sps, temporal_mvp))
}

/// Skip `count` long-term reference candidates.
fn skip_long_term_candidates(r: &mut BitReader<'_>, poc_lsb_bits: u32, count: u32) -> (res: Result<
    (),
    HevcError,
>)
    ensures
        final(r).bytes() == old(r).bytes(),
        match res {
            Ok(_) => skip_long_term(old(r).cursor(), poc_lsb_bits, count as nat)
                == final(r).cursor(),
            Err(e) => skip_long_term(old(r).cursor(), poc_lsb_bits, count as nat).err == Some(e),
        },
{
    let ghost start = r.cursor();
    let mut i: u32 = 0;
    while i < count
        invariant
            r.bytes() == old(r).bytes(),
            i <= count,
            start == old(r).cursor(),
            skip_long_term(r.cursor(), poc_lsb_bits, (count - i) as nat) == skip_long_term(
                start,
                poc_lsb_bits,
                count as nat,
            ),
        decreases count - i,
    {
        proof {
            let next = r.cursor().skip_u(poc_lsb_bits).skip_u(1);
            lemma_skip_long_term_failed(next, poc_lsb_bits, (count - i - 1) as nat);
        }
        r.u(poc_lsb_bits)?;  // lt_ref_pic_poc_lsb_sps
        r.u(1)?;  // used_by_curr_pic_lt_sps
        i = i + 1;
    }
    Ok(())
}

/// As many sets are read as are announced.
proof fn lemma_sps_sets_len(c: Cursor, i: nat, n: nat)
    requires
        i <= n,
    ensures
        sps_sets(c, i, n).0.len() == n - i,
    decreases n - i,
{
    if i < n {
        let c1 = if i > 0 {
            let (predicted, c) = c.flag();
            c.ensure(!predicted, HevcError::PredictedSpsRps)
        } else {
            c
        };
        lemma_sps_sets_len(rps::direct_st_rps(c1).1, i + 1, n);
    }
}

/// Parse the SPS fields needed for slice-header parsing. Errors on any
/// feature outside the supported profile (callers must then skip slice
/// processing entirely).
#[verifier::rlimit(40)]
pub fn parse_sps(sps_nal: &[u8]) -> (res: Result<SpsInfo, HevcError>)
    ensures
        match res {
            Ok(sps) => {
                &&& sps_of(sps_nal@) == Ok::<SpsFields, HevcError>(sps@)
                &&& sps.wf()
            },
            Err(e) => sps_of(sps_nal@) == Err::<SpsFields, HevcError>(e),
        },
{
    if sps_nal.len() <= 2 {
        return Err(HevcError::SpsTooShort);
    }
    let rbsp = unescape_rbsp(slice_subrange(sps_nal, 2, sps_nal.len()));
    let mut r = BitReader::new(rbsp.as_slice());
    proof {
        assert(sps_nal@.subrange(2, sps_nal@.len() as int) =~= sps_nal@.skip(2));
        assert(r.cursor() == Cursor::start(payload_bits(sps_nal@)));
        let (head, c1) = sps_head(r.cursor());
        let (coding, c2) = sps_coding(c1, head.max_sub_layers_minus1);
        lemma_sps_coding_failed(c1, head.max_sub_layers_minus1);
        lemma_sps_references_failed(c1, coding.poc_lsb_bits);
        lemma_sps_references_failed(c2, coding.poc_lsb_bits);
    }
    let (max_sub_layers_minus1, separate_colour_plane) = parse_sps_head(&mut r)?;
    let (poc_lsb_bits, sao) = parse_sps_coding(&mut r, max_sub_layers_minus1)?;
    let (
        short_term_rps,
        long_term_ref_pics_present,
        num_long_term_ref_pics_sps,
        temporal_mvp,
    ) = parse_sps_references(&mut r, poc_lsb_bits)?;
    Ok(
        SpsInfo {
            poc_lsb_bits,
            separate_colour_plane,
            short_term_rps,
            long_term_ref_pics_present,
            num_long_term_ref_pics_sps,
            temporal_mvp,
            sao,
        },
    )
}

/// The fields of a PPS that slice-header parsing depends on.
#[derive(Debug, Clone, Copy, PartialEq, Eq, Structural)]
pub struct PpsInfo {
    /// `dependent_slice_segments_enabled_flag`.
    pub dependent_slice_segments: bool,
    /// `output_flag_present_flag`.
    pub output_flag_present: bool,
    /// `num_extra_slice_header_bits`.
    pub num_extra_slice_header_bits: u32,
    /// `cabac_init_present_flag`.
    pub cabac_init_present: bool,
    /// `num_ref_idx_l0_default_active_minus1`.
    pub num_ref_idx_l0_default_minus1: u32,
    /// `lists_modification_present_flag`.
    pub lists_modification_present: bool,
    /// `weighted_pred_flag`.
    pub weighted_pred: bool,
    /// `tiles_enabled_flag`.
    pub tiles: bool,
    /// `entropy_coding_sync_enabled_flag` (wavefront parallel processing).
    pub entropy_coding_sync: bool,
    /// `pps_loop_filter_across_slices_enabled_flag`.
    pub loop_filter_across_slices: bool,
    /// `deblocking_filter_override_enabled_flag`.
    pub deblocking_filter_override_enabled: bool,
    /// `pps_deblocking_filter_disabled_flag`.
    pub pps_deblocking_disabled: bool,
    /// `pps_slice_chroma_qp_offsets_present_flag`.
    pub chroma_qp_offsets_present: bool,
    /// `slice_segment_header_extension_present_flag`.
    pub slice_header_extension: bool,
}

impl Default for PpsInfo {
    fn default() -> (res: Self)
        ensures
            res == (PpsInfo {
                dependent_slice_segments: false,
                output_flag_present: false,
                num_extra_slice_header_bits: 0,
                cabac_init_present: false,
                num_ref_idx_l0_default_minus1: 0,
                lists_modification_present: false,
                weighted_pred: false,
                tiles: false,
                entropy_coding_sync: false,
                loop_filter_across_slices: false,
                deblocking_filter_override_enabled: false,
                pps_deblocking_disabled: false,
                chroma_qp_offsets_present: false,
                slice_header_extension: false,
            }),
    {
        PpsInfo {
            dependent_slice_segments: false,
            output_flag_present: false,
            num_extra_slice_header_bits: 0,
            cabac_init_present: false,
            num_ref_idx_l0_default_minus1: 0,
            lists_modification_present: false,
            weighted_pred: false,
            tiles: false,
            entropy_coding_sync: false,
            loop_filter_across_slices: false,
            deblocking_filter_override_enabled: false,
            pps_deblocking_disabled: false,
            chroma_qp_offsets_present: false,
            slice_header_extension: false,
        }
    }
}

/// Reads a PPS from its start to the transquant bypass flag.
pub open spec fn pps_head(c: Cursor) -> (PpsInfo, Cursor) {
    let c = c.skip_ue().skip_ue();
    let (dependent_slice_segments, c) = c.flag();
    let (output_flag_present, c) = c.flag();
    let (num_extra_slice_header_bits, c) = c.u(3);
    let c = c.skip_u(1);
    let (cabac_init_present, c) = c.flag();
    let (num_ref_idx_l0_default_minus1, c) = c.ue();
    let c = c.skip_ue().skip_ue().skip_u(1).skip_u(1);
    let (cu_qp_delta_enabled, c) = c.flag();
    let c = if cu_qp_delta_enabled {
        c.skip_ue()
    } else {
        c
    };
    let c = c.skip_ue().skip_ue();
    let (chroma_qp_offsets_present, c) = c.flag();
    let (weighted_pred, c) = c.flag();
    let c = c.skip_u(1).skip_u(1);
    (
        PpsInfo {
            dependent_slice_segments,
            output_flag_present,
            num_extra_slice_header_bits,
            cabac_init_present,
            num_ref_idx_l0_default_minus1,
            lists_modification_present: false,
            weighted_pred,
            tiles: false,
            entropy_coding_sync: false,
            loop_filter_across_slices: false,
            deblocking_filter_override_enabled: false,
            pps_deblocking_disabled: false,
            chroma_qp_offsets_present,
            slice_header_extension: false,
        },
        c,
    )
}

/// Reads the deblocking filter control of a PPS: whether slices may override
/// it, and whether the filter is disabled.
pub open spec fn deblocking_control(c: Cursor) -> ((bool, bool), Cursor) {
    let (present, c) = c.flag();
    if present {
        let (override_enabled, c) = c.flag();
        let (disabled, c) = c.flag();
        let c = if disabled {
            c
        } else {
            c.skip_ue().skip_ue()
        };
        ((override_enabled, disabled), c)
    } else {
        ((false, false), c)
    }
}

/// Reads a PPS from the tiles flag to the slice header extension flag, adding
/// what it says to `head`.
pub open spec fn pps_tail(c: Cursor, head: PpsInfo) -> (PpsInfo, Cursor) {
    let (tiles, c) = c.flag();
    let c = c.ensure(!tiles, HevcError::TiledPps);
    let (entropy_coding_sync, c) = c.flag();
    let (loop_filter_across_slices, c) = c.flag();
    let ((deblocking_filter_override_enabled, pps_deblocking_disabled), c) = deblocking_control(c);
    let (scaling_list_data, c) = c.flag();
    let c = c.ensure(!scaling_list_data, HevcError::PpsScalingList);
    let (lists_modification_present, c) = c.flag();
    let c = c.skip_ue();
    let (slice_header_extension, c) = c.flag();
    (
        PpsInfo {
            lists_modification_present,
            tiles,
            entropy_coding_sync,
            loop_filter_across_slices,
            deblocking_filter_override_enabled,
            pps_deblocking_disabled,
            slice_header_extension,
            ..head
        },
        c,
    )
}

/// What the PPS NAL unit `nal` says, or what is wrong with it.
pub open spec fn pps_of(nal: Seq<u8>) -> Result<PpsInfo, HevcError> {
    if nal.len() <= 2 {
        Err(HevcError::PpsTooShort)
    } else {
        let (head, c) = pps_head(Cursor::start(payload_bits(nal)));
        let (pps, c) = pps_tail(c, head);
        c.finish(pps)
    }
}

/// Parse a PPS from its start to the transquant bypass flag.
#[verifier::rlimit(40)]
fn parse_pps_head(r: &mut BitReader<'_>) -> (res: Result<PpsInfo, HevcError>)
    ensures
        final(r).bytes() == old(r).bytes(),
        match res {
            Ok(head) => pps_head(old(r).cursor()) == (head, final(r).cursor()),
            Err(e) => pps_head(old(r).cursor()).1.err == Some(e),
        },
{
    r.ue()?;  // pps_pic_parameter_set_id
    r.ue()?;  // pps_seq_parameter_set_id
    let dependent_slice_segments: bool = r.flag()?;
    let output_flag_present: bool = r.flag()?;
    let num_extra_slice_header_bits: u32 = r.u(3)?;
    r.u(1)?;  // sign_data_hiding
    let cabac_init_present: bool = r.flag()?;
    let num_ref_idx_l0_default_minus1: u32 = r.ue()?;
    r.ue()?;  // num_ref_idx_l1_default_active_minus1
    r.se()?;  // init_qp_minus26
    r.u(1)?;  // constrained_intra_pred
    r.u(1)?;  // transform_skip_enabled
    if r.flag()? {
        // cu_qp_delta_enabled
        r.ue()?;  // diff_cu_qp_delta_depth
    }
    r.se()?;  // pps_cb_qp_offset
    r.se()?;  // pps_cr_qp_offset
    let chroma_qp_offsets_present: bool = r.flag()?;
    let weighted_pred: bool = r.flag()?;
    r.u(1)?;  // weighted_bipred_flag
    r.u(1)?;  // transquant_bypass
    let mut head = PpsInfo::default();
    head.dependent_slice_segments = dependent_slice_segments;
    head.output_flag_present = output_flag_present;
    head.num_extra_slice_header_bits = num_extra_slice_header_bits;
    head.cabac_init_present = cabac_init_present;
    head.num_ref_idx_l0_default_minus1 = num_ref_idx_l0_default_minus1;
    head.chroma_qp_offsets_present = chroma_qp_offsets_present;
    head.weighted_pred = weighted_pred;
    Ok(head)
}

/// Parse the deblocking filter control of a PPS.
fn parse_deblocking_control(r: &mut BitReader<'_>) -> (res: Result<(bool, bool), HevcError>)
    ensures
        final(r).bytes() == old(r).bytes(),
        match res {
            Ok(control) => deblocking_control(old(r).cursor()) == (control, final(r).cursor()),
            Err(e) => deblocking_control(old(r).cursor()).1.err == Some(e),
        },
{
    let mut override_enabled = false;
    let mut disabled = false;
    if r.flag()? {
        // deblocking_filter_control_present
        override_enabled = r.flag()?;
        disabled = r.flag()?;
        if !disabled {
            r.se()?;  // beta_offset_div2
            r.se()?;  // tc_offset_div2
        }
    }
    Ok((override_enabled, disabled))
}

/// Parse a PPS from the tiles flag to the slice header extension flag.
#[verifier::rlimit(40)]
fn parse_pps_tail(r: &mut BitReader<'_>, head: PpsInfo) -> (res: Result<PpsInfo, HevcError>)
    ensures
        final(r).bytes() == old(r).bytes(),
        match res {
            Ok(pps) => pps_tail(old(r).cursor(), head) == (pps, final(r).cursor()),
            Err(e) => pps_tail(old(r).cursor(), head).1.err == Some(e),
        },
{
    let tiles: bool = r.flag()?;
    if tiles {
        return Err(HevcError::TiledPps);
    }
    let entropy_coding_sync: bool = r.flag()?;
    let loop_filter_across_slices: bool = r.flag()?;
    let (deblocking_filter_override_enabled, pps_deblocking_disabled) =
        parse_deblocking_control(r)?;
    if r.flag()? {
        return Err(HevcError::PpsScalingList);
    }
    let lists_modification_present: bool = r.flag()?;
    r.ue()?;  // log2_parallel_merge_level_minus2
    let slice_header_extension: bool = r.flag()?;
    let mut pps = head;
    pps.lists_modification_present = lists_modification_present;
    pps.tiles = tiles;
    pps.entropy_coding_sync = entropy_coding_sync;
    pps.loop_filter_across_slices = loop_filter_across_slices;
    pps.deblocking_filter_override_enabled = deblocking_filter_override_enabled;
    pps.pps_deblocking_disabled = pps_deblocking_disabled;
    pps.slice_header_extension = slice_header_extension;
    Ok(pps)
}

/// Parse the PPS fields needed for slice-header parsing.
pub fn parse_pps(pps_nal: &[u8]) -> (res: Result<PpsInfo, HevcError>)
    ensures
        res == pps_of(pps_nal@),
{
    if pps_nal.len() <= 2 {
        return Err(HevcError::PpsTooShort);
    }
    let rbsp = unescape_rbsp(slice_subrange(pps_nal, 2, pps_nal.len()));
    let mut r = BitReader::new(rbsp.as_slice());
    proof {
        assert(pps_nal@.subrange(2, pps_nal@.len() as int) =~= pps_nal@.skip(2));
        assert(r.cursor() == Cursor::start(payload_bits(pps_nal@)));
    }
    let head = parse_pps_head(&mut r)?;
    parse_pps_tail(&mut r, head)
}

/// Every SPS that parses is longer than a NAL unit header, and has a POC length of 4
/// to 16 bits, at most 64 short-term sets of at most 32 entries each, and long-term
/// candidates only if it allows for long-term references.
pub proof fn law_parsed_sps_is_in_range(nal: Seq<u8>)
    requires
        sps_of(nal) is Ok,
    ensures
        nal.len() > 2,
        ({
            let sps = sps_of(nal)->Ok_0;
            &&& 4 <= sps.poc_lsb_bits <= 16
            &&& sps.short_term_rps.len() <= 64
            &&& forall|i: int|
                0 <= i < sps.short_term_rps.len() ==> (#[trigger] sps.short_term_rps[i]).len() <= 32
            &&& !sps.long_term_ref_pics_present ==> sps.num_long_term_ref_pics_sps == 0
        }),
{
    let c = Cursor::start(payload_bits(nal));
    let (head, c1) = sps_head(c);
    let (coding, c2) = sps_coding(c1, head.max_sub_layers_minus1);
    lemma_sps_references_failed(c2, coding.poc_lsb_bits);
    lemma_sps_coding_range(c1, head.max_sub_layers_minus1);
    lemma_sps_references_range(c2, coding.poc_lsb_bits);
}

/// A POC length that is read without an error is in range.
proof fn lemma_sps_coding_range(c: Cursor, n: u32)
    requires
        sps_coding(c, n).1.ok(),
    ensures
        4 <= sps_coding(c, n).0.poc_lsb_bits <= 16,
{
}

/// What is read of the references without an error is in range.
proof fn lemma_sps_references_range(c: Cursor, poc_lsb_bits: u32)
    requires
        sps_references(c, poc_lsb_bits).1.ok(),
    ensures
        ({
            let refs = sps_references(c, poc_lsb_bits).0;
            &&& refs.short_term_rps.len() <= 64
            &&& forall|i: int|
                0 <= i < refs.short_term_rps.len() ==> (#[trigger] refs.short_term_rps[i]).len()
                    <= 32
            &&& !refs.long_term_ref_pics_present ==> refs.num_long_term_ref_pics_sps == 0
        }),
{
    broadcast use {lemma_sps_sets_failed, lemma_skip_long_term_failed};

    let (n, c1) = c.ue();
    let c2 = c1.ensure(n <= 64, HevcError::ImplausibleRpsCount);
    lemma_sps_sets_len(c2, 0, n as nat);
    lemma_sps_sets_entries(c2, 0, n as nat);
}

/// Each set that is read without an error has at most 32 entries.
proof fn lemma_sps_sets_entries(c: Cursor, i: nat, n: nat)
    requires
        sps_sets(c, i, n).1.ok(),
    ensures
        forall|k: int|
            0 <= k < sps_sets(c, i, n).0.len() ==> (#[trigger] sps_sets(c, i, n).0[k]).len() <= 32,
    decreases n - i,
{
    broadcast use {lemma_sps_sets_failed, rps::lemma_direct_st_rps_failed};

    if i < n {
        let c1 = if i > 0 {
            let (predicted, c) = c.flag();
            c.ensure(!predicted, HevcError::PredictedSpsRps)
        } else {
            c
        };
        rps::lemma_direct_st_rps_len(c1);
        lemma_sps_sets_entries(rps::direct_st_rps(c1).1, i + 1, n);
    }
}

} // verus!
