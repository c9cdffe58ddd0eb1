//! The syntax of an SPS as an encoder writes it, field by field, and that parsing gives
//! the values back.

use super::bits::{self, Cursor};
use super::emulation;
use super::error::HevcError;
use super::headers::{self, SpsFields};
use super::pps_syntax;
use super::rps::{self, RpsEntry};
use super::set_syntax::{self, StRefPicSet};
use super::written::{self, Written};
use vstd::arithmetic::power2;
use vstd::prelude::*;

verus! {

broadcast use super::bits::group_failed;

/// What there is of a sub-layer.
pub struct SubLayer {
    /// The 88 bits of its profile.
    pub profile: Option<Seq<bool>>,
    /// The 8 bits of its level.
    pub level: Option<Seq<bool>>,
}

/// What PCM coding takes.
pub struct Pcm {
    pub sample_bit_depth_luma_minus1: nat,
    pub sample_bit_depth_chroma_minus1: nat,
    pub log2_min_luma_coding_block_size_minus3: nat,
    pub log2_diff_max_min_luma_coding_block_size: nat,
    pub loop_filter_disabled: bool,
}

/// The values of the fields of an SPS, up to the temporal MVP flag.
pub struct SpsSyntax {
    pub video_parameter_set_id: nat,
    pub temporal_id_nesting: bool,
    /// The 88 bits of the general profile.
    pub general_profile: Seq<bool>,
    /// The 8 bits of the general level.
    pub general_level: Seq<bool>,
    /// One less than there are sub-layers in all.
    pub sub_layers: Seq<SubLayer>,
    /// Two reserved bits for each sub-layer that there might be, if there is more than one.
    pub reserved_bits: Seq<bool>,
    pub seq_parameter_set_id: nat,
    pub chroma_format_idc: nat,
    /// There is such a flag only if the chroma format is 3.
    pub separate_colour_plane: bool,
    pub pic_width_in_luma_samples: nat,
    pub pic_height_in_luma_samples: nat,
    /// The left, right, top and bottom offsets.
    pub conformance_window: Option<(nat, nat, nat, nat)>,
    pub bit_depth_luma_minus8: nat,
    pub bit_depth_chroma_minus8: nat,
    pub log2_max_pic_order_cnt_lsb_minus4: nat,
    pub sub_layer_ordering_info_present: bool,
    /// The buffering, reordering and latency of each sub-layer that has its own.
    pub ordering: Seq<(nat, nat, nat)>,
    pub log2_min_luma_coding_block_size_minus3: nat,
    pub log2_diff_max_min_luma_coding_block_size: nat,
    pub log2_min_luma_transform_block_size_minus2: nat,
    pub log2_diff_max_min_luma_transform_block_size: nat,
    pub max_transform_hierarchy_depth_inter: nat,
    pub max_transform_hierarchy_depth_intra: nat,
    pub scaling_list_enabled: bool,
    /// There is such a flag only if scaling lists are enabled.
    pub scaling_list_data_present: bool,
    pub amp_enabled: bool,
    pub sample_adaptive_offset_enabled: bool,
    pub pcm: Option<Pcm>,
    pub short_term_ref_pic_sets: Seq<StRefPicSet>,
    /// The POC lsb of each long-term candidate, and whether it is used.
    pub long_term_ref_pics: Option<Seq<(nat, bool)>>,
    pub temporal_mvp_enabled: bool,
}

/// Writes which sub-layers, from `i` on, have a profile and a level.
pub open spec fn put_sub_layer_flags(w: Written, layers: Seq<SubLayer>, i: int) -> Written
    decreases layers.len() - i,
{
    if i < 0 || i >= layers.len() {
        w
    } else {
        let w = w.flag(layers[i].profile is Some).flag(layers[i].level is Some);
        put_sub_layer_flags(w, layers, i + 1)
    }
}

/// Writes bits that may be there.
pub open spec fn put_optional(w: Written, b: Option<Seq<bool>>) -> Written {
    match b {
        Some(b) => w.raw(b),
        None => w,
    }
}

/// Writes the profiles and levels of the sub-layers from `i` on.
pub open spec fn put_sub_layers(w: Written, layers: Seq<SubLayer>, i: int) -> Written
    decreases layers.len() - i,
{
    if i < 0 || i >= layers.len() {
        w
    } else {
        let w = put_optional(put_optional(w, layers[i].profile), layers[i].level);
        put_sub_layers(w, layers, i + 1)
    }
}

/// Writes the ordering of the sub-layers from `i` on.
pub open spec fn put_ordering(w: Written, ordering: Seq<(nat, nat, nat)>, i: int) -> Written
    decreases ordering.len() - i,
{
    if i < 0 || i >= ordering.len() {
        w
    } else {
        let w = w.ue(ordering[i].0).ue(ordering[i].1).ue(ordering[i].2);
        put_ordering(w, ordering, i + 1)
    }
}

/// Writes the sets from `i` on.
pub open spec fn put_sets(w: Written, sets: Seq<StRefPicSet>, i: int) -> Written
    decreases sets.len() - i,
{
    if i < 0 || i >= sets.len() {
        w
    } else {
        put_sets(sets[i].put(w, i as nat), sets, i + 1)
    }
}

/// Writes the long-term candidates from `i` on.
pub open spec fn put_long_term(
    w: Written,
    poc_lsb_bits: u32,
    candidates: Seq<(nat, bool)>,
    i: int,
) -> Written
    decreases candidates.len() - i,
{
    if i < 0 || i >= candidates.len() {
        w
    } else {
        let w = w.u(poc_lsb_bits, candidates[i].0).flag(candidates[i].1);
        put_long_term(w, poc_lsb_bits, candidates, i + 1)
    }
}

impl SpsSyntax {
    /// Number of bits in a POC lsb.
    pub open spec fn poc_lsb_bits(self) -> u32 {
        (self.log2_max_pic_order_cnt_lsb_minus4 + 4) as u32
    }

    /// Whether the fields can hold the values, and POC deltas the distances.
    pub open spec fn in_range(self) -> bool {
        &&& self.others_coded()
        &&& forall|i: int|
            0 <= i < self.short_term_ref_pic_sets.len() ==> (
            #[trigger] self.short_term_ref_pic_sets[i]).in_range()
    }

    /// Whether the fields can hold the values.
    pub open spec fn coded(self) -> bool {
        &&& self.others_coded()
        &&& forall|i: int|
            0 <= i < self.short_term_ref_pic_sets.len() ==> (
            #[trigger] self.short_term_ref_pic_sets[i]).coded()
    }

    /// Whether the fields other than those of the short-term sets can hold the values.
    pub open spec fn others_coded(self) -> bool {
        &&& self.video_parameter_set_id < 16
        &&& self.general_profile.len() == 88
        &&& self.general_level.len() == 8
        &&& self.sub_layers.len() < 8
        &&& self.sub_layers.len() > 0 ==> self.reserved_bits.len() == 2 * (8
            - self.sub_layers.len())
        &&& forall|i: int|
            0 <= i < self.sub_layers.len() ==> {
                &&& (#[trigger] self.sub_layers[i]).profile matches Some(b) ==> b.len() == 88
                &&& self.sub_layers[i].level matches Some(b) ==> b.len() == 8
            }
        &&& pps_syntax::fits_ue(self.seq_parameter_set_id)
        &&& pps_syntax::fits_ue(self.chroma_format_idc)
        &&& self.chroma_format_idc != 3 ==> !self.separate_colour_plane
        &&& pps_syntax::fits_ue(self.pic_width_in_luma_samples)
        &&& pps_syntax::fits_ue(self.pic_height_in_luma_samples)
        &&& self.conformance_window matches Some((left, right, top, bottom)) ==> {
            &&& pps_syntax::fits_ue(left) && pps_syntax::fits_ue(right)
            &&& pps_syntax::fits_ue(top) && pps_syntax::fits_ue(bottom)
        }
        &&& pps_syntax::fits_ue(self.bit_depth_luma_minus8)
        &&& pps_syntax::fits_ue(self.bit_depth_chroma_minus8)
        &&& self.log2_max_pic_order_cnt_lsb_minus4 <= 12
        &&& self.coding_in_range()
        &&& self.short_term_ref_pic_sets.len() <= 64
        &&& self.long_term_ref_pics matches Some(candidates) ==> candidates.len() < u32::MAX
    }

    /// The same, of the fields between the POC length and the short-term sets.
    pub open spec fn coding_in_range(self) -> bool {
        &&& self.ordering.len() == if self.sub_layer_ordering_info_present {
            self.sub_layers.len() + 1
        } else {
            1
        }
        &&& forall|i: int|
            0 <= i < self.ordering.len() ==> {
                &&& pps_syntax::fits_ue((#[trigger] self.ordering[i]).0)
                &&& pps_syntax::fits_ue(self.ordering[i].1)
                &&& pps_syntax::fits_ue(self.ordering[i].2)
            }
        &&& pps_syntax::fits_ue(self.log2_min_luma_coding_block_size_minus3)
        &&& pps_syntax::fits_ue(self.log2_diff_max_min_luma_coding_block_size)
        &&& pps_syntax::fits_ue(self.log2_min_luma_transform_block_size_minus2)
        &&& pps_syntax::fits_ue(self.log2_diff_max_min_luma_transform_block_size)
        &&& pps_syntax::fits_ue(self.max_transform_hierarchy_depth_inter)
        &&& pps_syntax::fits_ue(self.max_transform_hierarchy_depth_intra)
        &&& self.pcm matches Some(pcm) ==> {
            &&& pcm.sample_bit_depth_luma_minus1 < 16
            &&& pcm.sample_bit_depth_chroma_minus1 < 16
            &&& pps_syntax::fits_ue(pcm.log2_min_luma_coding_block_size_minus3)
            &&& pps_syntax::fits_ue(pcm.log2_diff_max_min_luma_coding_block_size)
        }
    }

    /// Writes the profile, tier and level.
    pub open spec fn put_profile(self, w: Written) -> Written {
        let w = w.raw(self.general_profile).raw(self.general_level);
        let w = put_sub_layer_flags(w, self.sub_layers, 0);
        let w = if self.sub_layers.len() > 0 {
            w.raw(self.reserved_bits)
        } else {
            w
        };
        put_sub_layers(w, self.sub_layers, 0)
    }

    /// Writes the picture format.
    pub open spec fn put_format(self, w: Written) -> Written {
        let w = w.ue(self.seq_parameter_set_id);
        let w = w.ue(self.chroma_format_idc);
        let w = if self.chroma_format_idc == 3 {
            w.flag(self.separate_colour_plane)
        } else {
            w
        };
        let w = w.ue(self.pic_width_in_luma_samples).ue(self.pic_height_in_luma_samples);
        let w = w.flag(self.conformance_window is Some);
        let w = match self.conformance_window {
            Some((left, right, top, bottom)) => w.ue(left).ue(right).ue(top).ue(bottom),
            None => w,
        };
        w.ue(self.bit_depth_luma_minus8).ue(self.bit_depth_chroma_minus8)
    }

    /// Writes the fields up to the bit depths.
    pub open spec fn put_head(self, w: Written) -> Written {
        let w = w.u(4, self.video_parameter_set_id);
        let w = w.u(3, self.sub_layers.len());
        let w = w.flag(self.temporal_id_nesting);
        self.put_format(self.put_profile(w))
    }

    /// Writes the sizes of blocks.
    pub open spec fn put_blocks(self, w: Written) -> Written {
        let w = w.ue(self.log2_min_luma_coding_block_size_minus3);
        let w = w.ue(self.log2_diff_max_min_luma_coding_block_size);
        let w = w.ue(self.log2_min_luma_transform_block_size_minus2);
        let w = w.ue(self.log2_diff_max_min_luma_transform_block_size);
        let w = w.ue(self.max_transform_hierarchy_depth_inter);
        w.ue(self.max_transform_hierarchy_depth_intra)
    }

    /// Writes the coding tools. (The data of scaling lists are not written.)
    pub open spec fn put_tools(self, w: Written) -> Written {
        let w = w.flag(self.scaling_list_enabled);
        let w = if self.scaling_list_enabled {
            w.flag(self.scaling_list_data_present)
        } else {
            w
        };
        let w = w.flag(self.amp_enabled);
        let w = w.flag(self.sample_adaptive_offset_enabled);
        let w = w.flag(self.pcm is Some);
        match self.pcm {
            Some(pcm) => {
                let w = w.u(4, pcm.sample_bit_depth_luma_minus1);
                let w = w.u(4, pcm.sample_bit_depth_chroma_minus1);
                let w = w.ue(pcm.log2_min_luma_coding_block_size_minus3);
                let w = w.ue(pcm.log2_diff_max_min_luma_coding_block_size);
                w.flag(pcm.loop_filter_disabled)
            },
            None => w,
        }
    }

    /// Writes the fields from the POC length to the PCM parameters.
    pub open spec fn put_coding(self, w: Written) -> Written {
        let w = w.ue(self.log2_max_pic_order_cnt_lsb_minus4);
        let w = w.flag(self.sub_layer_ordering_info_present);
        let w = put_ordering(w, self.ordering, 0);
        self.put_tools(self.put_blocks(w))
    }

    /// Writes the fields from the number of short-term sets to the temporal MVP flag.
    pub open spec fn put_references(self, w: Written) -> Written {
        let w = w.ue(self.short_term_ref_pic_sets.len());
        let w = put_sets(w, self.short_term_ref_pic_sets, 0);
        let w = w.flag(self.long_term_ref_pics is Some);
        let w = match self.long_term_ref_pics {
            Some(candidates) => put_long_term(
                w.ue(candidates.len()),
                self.poc_lsb_bits(),
                candidates,
                0,
            ),
            None => w,
        };
        w.flag(self.temporal_mvp_enabled)
    }

    /// The SPS as it is written.
    pub open spec fn written(self) -> Written {
        self.put_references(self.put_coding(self.put_head(Written::nothing())))
    }

    /// What is reported of these values.
    pub open spec fn reported(self) -> SpsFields {
        SpsFields {
            poc_lsb_bits: self.poc_lsb_bits(),
            separate_colour_plane: self.separate_colour_plane,
            short_term_rps: self.short_term_ref_pic_sets.map_values(
                |set: StRefPicSet| set.entries(),
            ),
            long_term_ref_pics_present: self.long_term_ref_pics is Some,
            num_long_term_ref_pics_sps: match self.long_term_ref_pics {
                Some(candidates) => candidates.len() as u32,
                None => 0,
            },
            temporal_mvp: self.temporal_mvp_enabled,
            sao: self.sample_adaptive_offset_enabled,
        }
    }
}

/// Which sub-layers, from `i` on, have a profile and a level.
pub open spec fn layer_flags(layers: Seq<SubLayer>, i: int) -> Seq<(bool, bool)> {
    Seq::new(
        (layers.len() - i) as nat,
        |k: int| (layers[i + k].profile is Some, layers[i + k].level is Some),
    )
}

/// The sub-layer flags read back.
proof fn lemma_sub_layer_flags_read(src: Seq<bool>, w: Written, layers: Seq<SubLayer>, i: int)
    requires
        0 <= i <= layers.len(),
        written::begins(src, put_sub_layer_flags(w, layers, i)),
    ensures
        written::begins(src, w),
        headers::sub_layer_flags(written::behind(src, w), (layers.len() - i) as nat) == (
            layer_flags(layers, i),
            written::behind(src, put_sub_layer_flags(w, layers, i)),
        ),
    decreases layers.len() - i,
{
    broadcast use written::group_reads_back;

    if i < layers.len() {
        let first = (layers[i].profile is Some, layers[i].level is Some);
        lemma_sub_layer_flags_read(src, w.flag(first.0).flag(first.1), layers, i + 1);
        assert(seq![first] + layer_flags(layers, i + 1) =~= layer_flags(layers, i));
    } else {
        assert(layer_flags(layers, i) =~= Seq::empty());
    }
}

/// Reserved bits are skipped.
proof fn lemma_reserved_read(src: Seq<bool>, w: Written, b: Seq<bool>, n: nat)
    requires
        written::begins(src, w.raw(b)),
        b.len() == 2 * n,
    ensures
        written::begins(src, w),
        written::behind(src, w).skip_u_times(2, n) == written::behind(src, w.raw(b)),
{
    written::lemma_raw_back(src, w, b);
    reveal(written::behind);
    written::lemma_skip_pairs(src, written::behind(src, w).pos, n);
}

/// A profile is skipped.
proof fn lemma_profile_read(src: Seq<bool>, w: Written, b: Seq<bool>)
    requires
        written::begins(src, w.raw(b)),
        b.len() == 88,
    ensures
        written::begins(src, w),
        written::behind(src, w).skip_u(32).skip_u(32).skip_u(24) == written::behind(src, w.raw(b)),
{
    written::lemma_raw_back(src, w, b);
    reveal(written::behind);
    let pos = written::behind(src, w).pos;
    written::lemma_skip_over(src, pos, 32);
    written::lemma_skip_over(src, pos + 32, 32);
    written::lemma_skip_over(src, pos + 64, 24);
}

/// A level is skipped.
proof fn lemma_level_read(src: Seq<bool>, w: Written, b: Seq<bool>)
    requires
        written::begins(src, w.raw(b)),
        b.len() == 8,
    ensures
        written::begins(src, w),
        written::behind(src, w).skip_u(8) == written::behind(src, w.raw(b)),
{
    written::lemma_raw_back(src, w, b);
    reveal(written::behind);
    written::lemma_skip_over(src, written::behind(src, w).pos, 8);
}

/// The general profile and level are skipped.
proof fn lemma_general_profile_read(
    src: Seq<bool>,
    w: Written,
    profile: Seq<bool>,
    level: Seq<bool>,
)
    requires
        written::begins(src, w.raw(profile).raw(level)),
        profile.len() == 88,
        level.len() == 8,
    ensures
        written::begins(src, w),
        ({
            let c = written::behind(src, w).skip_u(2).skip_u(1).skip_u(5);
            c.skip_u(32).skip_u(4).skip_u(32).skip_u(12).skip_u(8)
        }) == written::behind(src, w.raw(profile).raw(level)),
{
    written::lemma_raw_back(src, w.raw(profile), level);
    written::lemma_raw_back(src, w, profile);
    reveal(written::behind);
    let pos = written::behind(src, w).pos;
    written::lemma_skip_over(src, pos, 2);
    written::lemma_skip_over(src, pos + 2, 1);
    written::lemma_skip_over(src, pos + 3, 5);
    written::lemma_skip_over(src, pos + 8, 32);
    written::lemma_skip_over(src, pos + 40, 4);
    written::lemma_skip_over(src, pos + 44, 32);
    written::lemma_skip_over(src, pos + 76, 12);
    written::lemma_skip_over(src, pos + 88, 8);
}

/// The sub-layers are skipped.
proof fn lemma_sub_layers_read(src: Seq<bool>, w: Written, layers: Seq<SubLayer>, i: int)
    requires
        0 <= i <= layers.len(),
        forall|i: int|
            0 <= i < layers.len() ==> {
                &&& (#[trigger] layers[i]).profile matches Some(b) ==> b.len() == 88
                &&& layers[i].level matches Some(b) ==> b.len() == 8
            },
        written::begins(src, put_sub_layers(w, layers, i)),
    ensures
        written::begins(src, w),
        headers::skip_sub_layers(written::behind(src, w), layer_flags(layers, i))
            == written::behind(src, put_sub_layers(w, layers, i)),
    decreases layers.len() - i,
{
    if i < layers.len() {
        let w1 = put_optional(w, layers[i].profile);
        let w2 = put_optional(w1, layers[i].level);
        lemma_sub_layers_read(src, w2, layers, i + 1);
        assert(layer_flags(layers, i).drop_first() =~= layer_flags(layers, i + 1));
        if let Some(b) = layers[i].level {
            lemma_level_read(src, w1, b);
        }
        if let Some(b) = layers[i].profile {
            lemma_profile_read(src, w, b);
        }
    }
}

/// The profile, tier and level are skipped.
proof fn lemma_profile_tier_level_read(src: Seq<bool>, w: Written, s: SpsSyntax)
    requires
        s.in_range(),
        written::begins(src, s.put_profile(w)),
    ensures
        written::begins(src, w),
        headers::profile_tier_level(written::behind(src, w), s.sub_layers.len() as u32)
            == written::behind(src, s.put_profile(w)),
{
    let n = s.sub_layers.len();
    let w1 = w.raw(s.general_profile).raw(s.general_level);
    let w2 = put_sub_layer_flags(w1, s.sub_layers, 0);
    let w3 = if n > 0 {
        w2.raw(s.reserved_bits)
    } else {
        w2
    };
    lemma_sub_layers_read(src, w3, s.sub_layers, 0);
    if n > 0 {
        lemma_reserved_read(src, w2, s.reserved_bits, (8 - n) as nat);
    }
    lemma_sub_layer_flags_read(src, w1, s.sub_layers, 0);
    lemma_general_profile_read(src, w, s.general_profile, s.general_level);
}

/// The first part of an SPS reads back.
#[verifier::rlimit(40)]
proof fn lemma_head_reads(src: Seq<bool>, w: Written, s: SpsSyntax)
    requires
        s.in_range(),
        written::begins(src, s.put_head(w)),
    ensures
        written::begins(src, w),
        headers::sps_head(written::behind(src, w)) == (
            headers::SpsHead {
                max_sub_layers_minus1: s.sub_layers.len() as u32,
                separate_colour_plane: s.separate_colour_plane,
            },
            written::behind(src, s.put_head(w)),
        ),
{
    broadcast use written::group_reads_back;

    power2::lemma2_to64();
    reveal_with_fuel(Cursor::skip_ue_times, 5);
    let w1 = w.u(4, s.video_parameter_set_id).u(3, s.sub_layers.len()).flag(s.temporal_id_nesting);
    assert(written::begins(src, s.put_profile(w1)));
    lemma_profile_tier_level_read(src, w1, s);
}

/// The ordering of the sub-layers is skipped.
proof fn lemma_ordering_read(src: Seq<bool>, w: Written, ordering: Seq<(nat, nat, nat)>, i: int)
    requires
        0 <= i <= ordering.len(),
        forall|i: int|
            0 <= i < ordering.len() ==> {
                &&& pps_syntax::fits_ue((#[trigger] ordering[i]).0)
                &&& pps_syntax::fits_ue(ordering[i].1)
                &&& pps_syntax::fits_ue(ordering[i].2)
            },
        written::begins(src, put_ordering(w, ordering, i)),
    ensures
        written::begins(src, w),
        written::behind(src, w).skip_ue_times((3 * (ordering.len() - i)) as nat)
            == written::behind(src, put_ordering(w, ordering, i)),
    decreases ordering.len() - i,
{
    broadcast use written::group_reads_back;

    if i < ordering.len() {
        let w1 = w.ue(ordering[i].0).ue(ordering[i].1).ue(ordering[i].2);
        lemma_ordering_read(src, w1, ordering, i + 1);
        let n = (3 * (ordering.len() - i)) as nat;
        reveal_with_fuel(Cursor::skip_ue_times, 4);
        assert(written::behind(src, w).skip_ue_times(n) == written::behind(
            src,
            w1,
        ).skip_ue_times((n - 3) as nat));
    }
}

/// The sample depths of PCM coding are skipped.
proof fn lemma_pcm_read(src: Seq<bool>, w: Written, a: nat, b: nat)
    requires
        written::begins(src, w.u(4, a).u(4, b)),
    ensures
        written::begins(src, w),
        written::behind(src, w).skip_u(8) == written::behind(src, w.u(4, a).u(4, b)),
{
    broadcast use written::group_reads_back;

    reveal(Written::u);
    bits::lemma_be_bits_value(a, 4);
    bits::lemma_be_bits_value(b, 4);
    reveal(written::behind);
    reveal(written::begins);
    written::lemma_skip_over(src, w.bits.len() as int, 8);
}

/// The middle part of an SPS reads back; scaling list data are refused.
#[verifier::rlimit(40)]
pub proof fn lemma_coding_reads(src: Seq<bool>, w: Written, s: SpsSyntax)
    requires
        s.sub_layers.len() < 8,
        s.log2_max_pic_order_cnt_lsb_minus4 <= 12,
        s.coding_in_range(),
        written::begins(src, s.put_coding(w)),
    ensures
        written::begins(src, w),
        ({
            let (coding, c) = headers::sps_coding(
                written::behind(src, w),
                s.sub_layers.len() as u32,
            );
            if s.scaling_list_enabled && s.scaling_list_data_present {
                c.err == Some(HevcError::SpsScalingList)
            } else {
                &&& coding == headers::SpsCoding {
                    poc_lsb_bits: s.poc_lsb_bits(),
                    sao: s.sample_adaptive_offset_enabled,
                }
                &&& c == written::behind(src, s.put_coding(w))
            }
        }),
{
    broadcast use written::group_reads_back;

    reveal_with_fuel(Cursor::skip_ue_times, 7);
    let w1 = w.ue(s.log2_max_pic_order_cnt_lsb_minus4).flag(s.sub_layer_ordering_info_present);
    let w2 = put_ordering(w1, s.ordering, 0);
    let w3 = s.put_blocks(w2);
    let w4 = w3.flag(s.scaling_list_enabled);
    let w5 = if s.scaling_list_enabled {
        w4.flag(s.scaling_list_data_present)
    } else {
        w4
    };
    let w6 = w5.flag(s.amp_enabled).flag(s.sample_adaptive_offset_enabled).flag(s.pcm is Some);
    if let Some(pcm) = s.pcm {
        let a = pcm.sample_bit_depth_luma_minus1;
        let b = pcm.sample_bit_depth_chroma_minus1;
        assert(written::begins(src, w6.u(4, a).u(4, b)));
        lemma_pcm_read(src, w6, a, b);
    }
    assert(written::begins(src, w3));
    assert(written::begins(src, w2));
    assert(written::behind(src, w2).skip_ue_times(6) == written::behind(src, w3));
    lemma_ordering_read(src, w1, s.ordering, 0);
}

/// The sets read back.
proof fn lemma_sets_read(src: Seq<bool>, w: Written, sets: Seq<StRefPicSet>, i: int)
    requires
        0 <= i <= sets.len(),
        forall|i: int| 0 <= i < sets.len() ==> (#[trigger] sets[i]).in_range(),
        written::begins(src, put_sets(w, sets, i)),
    ensures
        written::begins(src, w),
        headers::sps_sets(written::behind(src, w), i as nat, sets.len()) == (
            Seq::new((sets.len() - i) as nat, |k: int| sets[i + k].entries()),
            written::behind(src, put_sets(w, sets, i)),
        ),
    decreases sets.len() - i,
{
    broadcast use written::group_reads_back;

    if i < sets.len() {
        let w1 = if i > 0 {
            w.flag(false)
        } else {
            w
        };
        let w2 = sets[i].put_direct(w1);
        lemma_sets_read(src, w2, sets, i + 1);
        set_syntax::lemma_set_reads(src, w1, sets[i]);
        let n = (sets.len() - i) as nat;
        let rest = Seq::new((n - 1) as nat, |k: int| sets[i + 1 + k].entries());
        assert(seq![sets[i].entries()] + rest =~= Seq::new(n, |k: int| sets[i + k].entries()));
    } else {
        assert(Seq::new(0, |k: int| sets[i + k].entries()) =~= Seq::<Seq<RpsEntry>>::empty());
    }
}

/// The long-term candidates are skipped.
proof fn lemma_long_term_read(
    src: Seq<bool>,
    w: Written,
    poc_lsb_bits: u32,
    candidates: Seq<(nat, bool)>,
    i: int,
)
    requires
        poc_lsb_bits <= 32,
        0 <= i <= candidates.len(),
        written::begins(src, put_long_term(w, poc_lsb_bits, candidates, i)),
    ensures
        written::begins(src, w),
        headers::skip_long_term(
            written::behind(src, w),
            poc_lsb_bits,
            (candidates.len() - i) as nat,
        ) == written::behind(src, put_long_term(w, poc_lsb_bits, candidates, i)),
    decreases candidates.len() - i,
{
    broadcast use written::group_reads_back;

    if i < candidates.len() {
        let w1 = w.u(poc_lsb_bits, candidates[i].0).flag(candidates[i].1);
        lemma_long_term_read(src, w1, poc_lsb_bits, candidates, i + 1);
    }
}

/// The last part of an SPS reads back.
#[verifier::rlimit(40)]
proof fn lemma_references_read(src: Seq<bool>, w: Written, s: SpsSyntax)
    requires
        s.in_range(),
        written::begins(src, s.put_references(w)),
    ensures
        written::begins(src, w),
        headers::sps_references(written::behind(src, w), s.poc_lsb_bits()) == (
            headers::SpsReferences {
                short_term_rps: s.reported().short_term_rps,
                long_term_ref_pics_present: s.reported().long_term_ref_pics_present,
                num_long_term_ref_pics_sps: s.reported().num_long_term_ref_pics_sps,
                temporal_mvp: s.temporal_mvp_enabled,
            },
            written::behind(src, s.put_references(w)),
        ),
{
    broadcast use written::group_reads_back;

    let sets = s.short_term_ref_pic_sets;
    let w1 = w.ue(sets.len());
    let w2 = put_sets(w1, sets, 0);
    let w3 = w2.flag(s.long_term_ref_pics is Some);
    if let Some(candidates) = s.long_term_ref_pics {
        lemma_long_term_read(src, w3.ue(candidates.len()), s.poc_lsb_bits(), candidates, 0);
    }
    assert(written::begins(src, w2));
    lemma_sets_read(src, w1, sets, 0);
    assert(Seq::new(sets.len(), |k: int| sets[0 + k].entries()) =~= s.reported().short_term_rps);
}

/// The fields of an SPS read back.
pub proof fn lemma_fields_read(src: Seq<bool>, s: SpsSyntax)
    requires
        s.in_range(),
        !(s.scaling_list_enabled && s.scaling_list_data_present),
        written::begins(src, s.written()),
    ensures
        headers::sps_fields(Cursor::start(src)) == (
            s.reported(),
            written::behind(src, s.written()),
        ),
{
    let w1 = s.put_head(Written::nothing());
    let w2 = s.put_coding(w1);
    written::lemma_nothing(src);
    lemma_references_read(src, w2, s);
    lemma_coding_reads(src, w1, s);
    lemma_head_reads(src, Written::nothing(), s);
}

/// Whatever values an SPS is written from, field by field, and whatever follows them:
/// parsing gives back each reported field's own value. Scaling list data are refused.
pub proof fn law_written_sps_reads_back(s: SpsSyntax, header: Seq<u8>, rbsp: Seq<u8>)
    requires
        s.in_range(),
        header.len() == 2,
        written::begins(bits::bits_of(rbsp), s.written()),
    ensures
        headers::sps_of(header + emulation::escaped(rbsp)) == if s.scaling_list_enabled
            && s.scaling_list_data_present {
            Err(HevcError::SpsScalingList)
        } else {
            Ok(s.reported())
        },
{
    broadcast use written::group_reads_back;

    let src = bits::bits_of(rbsp);
    let w1 = s.put_head(Written::nothing());
    let w2 = s.put_coding(w1);
    written::lemma_nothing(src);
    lemma_references_read(src, w2, s);
    lemma_coding_reads(src, w1, s);
    lemma_head_reads(src, Written::nothing(), s);
    written::lemma_unit(header, rbsp, s.written());
    let c = headers::sps_coding(written::behind(src, w1), s.sub_layers.len() as u32).1;
    headers::lemma_sps_references_failed(
        c,
        headers::sps_coding(written::behind(src, w1), s.sub_layers.len() as u32).0.poc_lsb_bits,
    );
}

/// A set with more than 16 pictures on a side is refused.
proof fn lemma_oversized_set(src: Seq<bool>, w: Written, negatives: nat, positives: nat)
    requires
        negatives > 16 || positives > 16,
        pps_syntax::fits_ue(negatives),
        pps_syntax::fits_ue(positives),
        written::begins(src, w.ue(negatives).ue(positives)),
    ensures
        written::begins(src, w),
        rps::direct_st_rps(written::behind(src, w)).1.err == Some(
            HevcError::ImplausibleRpsSize,
        ),
{
    broadcast use written::group_reads_back;

    let c = written::behind(src, w).ue().1.ue().1;
    let failed = c.fail(HevcError::ImplausibleRpsSize);
    rps::lemma_rps_side_failed(failed, negatives, 0, true);
    rps::lemma_rps_side_failed(failed, positives, 0, false);
}

/// The set behind those of an SPS that is written in full, if there are to be more: how
/// many pictures it has, unless it is predicted from another one.
pub open spec fn put_next_set(w: Written, i: nat, predicted: bool, counts: (nat, nat)) -> Written {
    let w = if i > 0 {
        w.flag(predicted)
    } else {
        w
    };
    if i > 0 && predicted {
        w
    } else {
        w.ue(counts.0).ue(counts.1)
    }
}

/// Reading stops at a set that is refused.
proof fn lemma_sets_refused(
    src: Seq<bool>,
    w: Written,
    sets: Seq<StRefPicSet>,
    i: int,
    n: nat,
    predicted: bool,
    counts: (nat, nat),
)
    requires
        0 <= i <= sets.len() < n,
        forall|i: int| 0 <= i < sets.len() ==> (#[trigger] sets[i]).in_range(),
        pps_syntax::fits_ue(counts.0),
        pps_syntax::fits_ue(counts.1),
        sets.len() > 0 && predicted || counts.0 > 16 || counts.1 > 16,
        written::begins(src, put_next_set(put_sets(w, sets, i), sets.len(), predicted, counts)),
    ensures
        written::begins(src, w),
        headers::sps_sets(written::behind(src, w), i as nat, n).1.err == Some(
            if sets.len() > 0 && predicted {
                HevcError::PredictedSpsRps
            } else {
                HevcError::ImplausibleRpsSize
            },
        ),
    decreases sets.len() - i,
{
    broadcast use written::group_reads_back;
    broadcast use rps::lemma_direct_st_rps_failed;
    broadcast use headers::lemma_sps_sets_failed;

    let w1 = if i > 0 {
        w.flag(i == sets.len() && predicted)
    } else {
        w
    };
    let c = written::behind(src, w);
    let c1 = if i > 0 {
        c.flag().1.ensure(!c.flag().0, HevcError::PredictedSpsRps)
    } else {
        c
    };
    let c2 = rps::direct_st_rps(c1).1;
    if i < sets.len() {
        let w2 = sets[i].put_direct(w1);
        lemma_sets_refused(src, w2, sets, i + 1, n, predicted, counts);
        set_syntax::lemma_set_reads(src, w1, sets[i]);
        assert(c1 == written::behind(src, w1));
        assert(c2 == written::behind(src, w2));
    } else if i > 0 && predicted {
        assert(written::begins(src, w1));
        assert(c1.err == Some(HevcError::PredictedSpsRps));
        assert(c2 == c1);
    } else {
        lemma_oversized_set(src, w1, counts.0, counts.1);
        assert(c1 == written::behind(src, w1));
    }
    assert(headers::sps_sets(c, i as nat, n).1 == headers::sps_sets(c2, (i + 1) as nat, n).1);
}

/// An SPS is refused if one of its short-term sets is predicted from another one, or has
/// more than 16 pictures on a side, or if there are more than 64 sets; and if its POC
/// length is out of range.
#[verifier::rlimit(40)]
pub proof fn law_unsupported_sps_is_refused(
    s: SpsSyntax,
    header: Seq<u8>,
    rbsp: Seq<u8>,
    num_sets: nat,
    predicted: bool,
    counts: (nat, nat),
)
    requires
        s.in_range(),
        !(s.scaling_list_enabled && s.scaling_list_data_present),
        header.len() == 2,
        pps_syntax::fits_ue(num_sets),
        pps_syntax::fits_ue(counts.0),
        pps_syntax::fits_ue(counts.1),
    ensures
        ({
            let w = s.put_coding(s.put_head(Written::nothing())).ue(num_sets);
            let sets = s.short_term_ref_pic_sets;
            &&& num_sets > 64 && written::begins(bits::bits_of(rbsp), w) ==> headers::sps_of(
                header + emulation::escaped(rbsp),
            ) == Err::<SpsFields, HevcError>(HevcError::ImplausibleRpsCount)
            &&& sets.len() < num_sets <= 64 && written::begins(
                bits::bits_of(rbsp),
                put_next_set(put_sets(w, sets, 0), sets.len(), predicted, counts),
            ) ==> {
                &&& sets.len() > 0 && predicted ==> headers::sps_of(
                    header + emulation::escaped(rbsp),
                ) == Err::<SpsFields, HevcError>(HevcError::PredictedSpsRps)
                &&& !(sets.len() > 0 && predicted) && (counts.0 > 16 || counts.1 > 16)
                    ==> headers::sps_of(header + emulation::escaped(rbsp)) == Err::<
                    SpsFields,
                    HevcError,
                >(HevcError::ImplausibleRpsSize)
            }
        }),
        forall|v: nat| #[trigger]
            written::begins(bits::bits_of(rbsp), s.put_head(Written::nothing()).ue(v)) && 12 < v
                < u32::MAX ==> headers::sps_of(header + emulation::escaped(rbsp)) == Err::<
                SpsFields,
                HevcError,
            >(HevcError::BadPocLsbBits),
{
    broadcast use written::group_reads_back;

    let src = bits::bits_of(rbsp);
    let w1 = s.put_head(Written::nothing());
    let w2 = s.put_coding(w1);
    let w = w2.ue(num_sets);
    let sets = s.short_term_ref_pic_sets;
    written::lemma_nothing(src);
    if num_sets > 64 && written::begins(src, w) {
        lemma_coding_reads(src, w1, s);
        lemma_head_reads(src, Written::nothing(), s);
        lemma_references_refused(src, w2, s, num_sets, predicted, counts);
        lemma_coding_not_empty(src, w1, s);
        written::lemma_unit(header, rbsp, w2);
    }
    if sets.len() < num_sets <= 64 && (sets.len() > 0 && predicted || counts.0 > 16 || counts.1
        > 16) && written::begins(
        src,
        put_next_set(put_sets(w, sets, 0), sets.len(), predicted, counts),
    ) {
        lemma_sets_refused(src, w, sets, 0, num_sets, predicted, counts);
        lemma_coding_reads(src, w1, s);
        lemma_head_reads(src, Written::nothing(), s);
        lemma_references_refused(src, w2, s, num_sets, predicted, counts);
        lemma_coding_not_empty(src, w1, s);
        written::lemma_unit(header, rbsp, w2);
    }
    assert forall|v: nat| #[trigger]
        written::begins(src, w1.ue(v)) && 12 < v < u32::MAX implies headers::sps_of(
        header + emulation::escaped(rbsp),
    ) == Err::<SpsFields, HevcError>(HevcError::BadPocLsbBits) by {
        lemma_head_reads(src, Written::nothing(), s);
        let c = written::behind(src, w1);
        let n = s.sub_layers.len() as u32;
        let (coding, c1) = headers::sps_coding(c, n);
        assert(c1.err == Some(HevcError::BadPocLsbBits));
        headers::lemma_sps_references_failed(c1, coding.poc_lsb_bits);
        assert(w1.ue(v).bits.len() > 0) by {
            reveal(Written::ue);
            bits::lemma_bit_width(v + 1);
            bits::lemma_be_bits_value(v + 1, bits::bit_width(v + 1));
        }
        written::lemma_unit(header, rbsp, w1.ue(v));
    }
}

/// The middle part of an SPS is not empty.
proof fn lemma_coding_not_empty(src: Seq<bool>, w: Written, s: SpsSyntax)
    requires
        s.in_range(),
        !(s.scaling_list_enabled && s.scaling_list_data_present),
        written::begins(src, s.put_coding(w)),
    ensures
        s.put_coding(w).bits.len() > 0,
{
    broadcast use bits::group_moves;

    lemma_coding_reads(src, w, s);
    let c = written::behind(src, w);
    let (coding, c1) = headers::sps_coding(c, s.sub_layers.len() as u32);
    reveal(written::behind);
    assert(c1.pos > c.pos);
}

/// References that are refused.
#[verifier::rlimit(40)]
proof fn lemma_references_refused(
    src: Seq<bool>,
    w: Written,
    s: SpsSyntax,
    num_sets: nat,
    predicted: bool,
    counts: (nat, nat),
)
    requires
        s.in_range(),
        pps_syntax::fits_ue(num_sets),
        written::begins(src, w.ue(num_sets)),
        num_sets <= 64 ==> headers::sps_sets(
            written::behind(src, w.ue(num_sets)),
            0,
            num_sets,
        ).1.err is Some,
    ensures
        headers::sps_references(written::behind(src, w), s.poc_lsb_bits()).1.err == if num_sets
            > 64 {
            Some(HevcError::ImplausibleRpsCount)
        } else {
            headers::sps_sets(written::behind(src, w.ue(num_sets)), 0, num_sets).1.err
        },
{
    broadcast use written::group_reads_back;
    broadcast use {headers::lemma_sps_sets_failed, headers::lemma_skip_long_term_failed};

}

} // verus!
