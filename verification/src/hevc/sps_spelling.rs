//! That only what an encoder can write parses as an SPS: every SPS that is read was
//! written from some values.

use super::bits::{self, Cursor};
use super::error::HevcError;
use super::headers::{self, SpsFields};
use super::pps_syntax;
use super::rps;
use super::set_syntax::{self, StRefPicSet};
use super::sps_syntax::{self, Pcm, SpsSyntax, SubLayer};
use super::written::{self, Written};
use vstd::arithmetic::power2;
use vstd::prelude::*;

verus! {

broadcast use super::bits::group_failed;

/// Sub-layers that have what the flags say, left empty.
spec fn blank_layers(flags: Seq<(bool, bool)>) -> Seq<SubLayer> {
    flags.map_values(
        |f: (bool, bool)|
            SubLayer {
                profile: if f.0 {
                    Some(Seq::empty())
                } else {
                    None
                },
                level: if f.1 {
                    Some(Seq::empty())
                } else {
                    None
                },
            },
    )
}

/// How many flags are read.
proof fn lemma_sub_layer_flags_len(c: Cursor, n: nat)
    ensures
        headers::sub_layer_flags(c, n).0.len() == n,
    decreases n,
{
    if n > 0 {
        lemma_sub_layer_flags_len(c.flag().1.flag().1, (n - 1) as nat);
    }
}

/// Sub-layer flags that were read were written.
proof fn lemma_sub_layer_flags_spelled(src: Seq<bool>, w: Written, layers: Seq<SubLayer>, i: int)
    requires
        0 <= i <= layers.len(),
        written::begins(src, w),
        ({
            let (flags, c) = headers::sub_layer_flags(
                written::behind(src, w),
                (layers.len() - i) as nat,
            );
            c.ok() && flags == sps_syntax::layer_flags(layers, i)
        }),
    ensures
        written::begins(src, sps_syntax::put_sub_layer_flags(w, layers, i)),
        written::behind(src, sps_syntax::put_sub_layer_flags(w, layers, i))
            == headers::sub_layer_flags(written::behind(src, w), (layers.len() - i) as nat).1,
    decreases layers.len() - i,
{
    broadcast use written::group_spelled;
    broadcast use headers::lemma_sub_layer_flags_failed;

    if i < layers.len() {
        let c = written::behind(src, w);
        let n = (layers.len() - i) as nat;
        let (profile, c1) = c.flag();
        let (level, c2) = c1.flag();
        let flags = headers::sub_layer_flags(c, n).0;
        let rest = headers::sub_layer_flags(c2, (n - 1) as nat).0;
        assert(flags[0] == (profile, level));
        assert(c2.ok() && c1.ok());
        assert(flags.drop_first() =~= rest);
        assert(flags.drop_first() =~= sps_syntax::layer_flags(layers, i + 1)) by {
            let all = sps_syntax::layer_flags(layers, i);
            assert(all.drop_first() =~= sps_syntax::layer_flags(layers, i + 1));
        }
        assert(sps_syntax::layer_flags(layers, i)[0] == (
            layers[i].profile is Some,
            layers[i].level is Some,
        ));
        let w1 = w.flag(profile).flag(level);
        assert(written::begins(src, w1) && written::behind(src, w1) == c2);
        lemma_sub_layer_flags_spelled(src, w1, layers, i + 1);
    }
}

/// The flags are the same for sub-layers that have the same parts.
proof fn lemma_same_flags(w: Written, a: Seq<SubLayer>, b: Seq<SubLayer>, i: int)
    requires
        0 <= i <= a.len(),
        a.len() == b.len(),
        sps_syntax::layer_flags(a, 0) == sps_syntax::layer_flags(b, 0),
    ensures
        sps_syntax::put_sub_layer_flags(w, a, i) == sps_syntax::put_sub_layer_flags(w, b, i),
    decreases a.len() - i,
{
    if i < a.len() {
        assert(sps_syntax::layer_flags(a, 0)[i] == sps_syntax::layer_flags(b, 0)[i]);
        lemma_same_flags(
            w.flag(a[i].profile is Some).flag(a[i].level is Some),
            a,
            b,
            i + 1,
        );
    }
}

/// Bits that may be there, if they were skipped, were written.
proof fn lemma_optional_spelled(src: Seq<bool>, w: Written, present: bool, n: nat) -> (b: Option<
    Seq<bool>,
>)
    requires
        written::begins(src, w),
        present ==> written::behind(src, w).pos + n <= src.len(),
    ensures
        b is Some <==> present,
        b matches Some(bits) ==> bits.len() == n,
        written::begins(src, sps_syntax::put_optional(w, b)),
        written::behind(src, sps_syntax::put_optional(w, b)) == if present {
            written::behind(src, w).at(written::behind(src, w).pos + n)
        } else {
            written::behind(src, w)
        },
{
    if present {
        written::lemma_raw_spelled(src, w, n);
        let pos = written::behind(src, w).pos;
        Some(src.subrange(pos, pos + n))
    } else {
        None
    }
}

/// Sub-layers that were skipped were written; `before` stand before them.
#[verifier::rlimit(40)]
proof fn lemma_sub_layers_spelled(
    src: Seq<bool>,
    w: Written,
    flags: Seq<(bool, bool)>,
    before: Seq<SubLayer>,
) -> (layers: Seq<SubLayer>)
    requires
        written::begins(src, w),
        headers::skip_sub_layers(written::behind(src, w), flags).ok(),
    ensures
        layers.len() == before.len() + flags.len(),
        layers.take(before.len() as int) == before,
        sps_syntax::layer_flags(layers, before.len() as int) == flags,
        forall|i: int|
            before.len() <= i < layers.len() ==> {
                &&& (#[trigger] layers[i]).profile matches Some(b) ==> b.len() == 88
                &&& layers[i].level matches Some(b) ==> b.len() == 8
            },
        written::begins(src, sps_syntax::put_sub_layers(w, layers, before.len() as int)),
        written::behind(src, sps_syntax::put_sub_layers(w, layers, before.len() as int))
            == headers::skip_sub_layers(written::behind(src, w), flags),
    decreases flags.len(),
{
    broadcast use bits::group_moves;
    broadcast use headers::lemma_skip_sub_layers_failed;

    let n = before.len() as int;
    if flags.len() == 0 {
        assert(before.take(n) =~= before);
        assert(sps_syntax::layer_flags(before, n) =~= flags);
        before
    } else {
        let c = written::behind(src, w);
        let c1 = if flags[0].0 {
            c.skip_u(32).skip_u(32).skip_u(24)
        } else {
            c
        };
        let c2 = if flags[0].1 {
            c1.skip_u(8)
        } else {
            c1
        };
        headers::lemma_skip_sub_layers_failed(c2, flags.drop_first());
        assert(headers::skip_sub_layers(c, flags) == headers::skip_sub_layers(
            c2,
            flags.drop_first(),
        ));
        assert(c2.ok());
        assert(c1.ok());
        assert(0 <= c.pos <= src.len() && c.bits == src && c.ok()) by {
            reveal(written::behind);
            reveal(written::begins);
        }
        if flags[0].0 {
            assert(c.skip_u(32).ok() && c.skip_u(32).skip_u(32).ok());
            assert(c1 == c.at(c.pos + 88));
        }
        let profile = lemma_optional_spelled(src, w, flags[0].0, 88);
        let w1 = sps_syntax::put_optional(w, profile);
        assert(written::behind(src, w1) == c1);
        if flags[0].1 {
            assert(c2 == c1.at(c1.pos + 8));
        }
        let level = lemma_optional_spelled(src, w1, flags[0].1, 8);
        let w2 = sps_syntax::put_optional(w1, level);
        let first = SubLayer { profile, level };
        let layers = lemma_sub_layers_spelled(src, w2, flags.drop_first(), before.push(first));
        assert(layers.take(n) =~= layers.take(n + 1).take(n));
        assert(before.push(first).take(n) =~= before);
        assert(layers[n] == layers.take(n + 1)[n]);
        assert(layers[n] == first);
        assert(sps_syntax::layer_flags(layers, n) =~= flags) by {
            let rest = sps_syntax::layer_flags(layers, n + 1);
            assert forall|k: int| 0 <= k < flags.len() implies sps_syntax::layer_flags(layers, n)[k]
                == #[trigger] flags[k] by {
                if k > 0 {
                    assert(rest[k - 1] == flags.drop_first()[k - 1]);
                }
            }
        }
        layers
    }
}

/// The cursor behind the general profile and level.
spec fn behind_general(c: Cursor) -> Cursor {
    let c = c.skip_u(2).skip_u(1).skip_u(5);
    c.skip_u(32).skip_u(4).skip_u(32).skip_u(12).skip_u(8)
}

/// A general profile and level that were skipped were written.
proof fn lemma_general_spelled(src: Seq<bool>, w: Written) -> (parts: (Seq<bool>, Seq<bool>))
    requires
        written::begins(src, w),
        behind_general(written::behind(src, w)).ok(),
    ensures
        parts.0.len() == 88,
        parts.1.len() == 8,
        written::begins(src, w.raw(parts.0).raw(parts.1)),
        written::behind(src, w.raw(parts.0).raw(parts.1)) == behind_general(
            written::behind(src, w),
        ),
{
    broadcast use bits::group_moves;

    let c = written::behind(src, w);
    assert(0 <= c.pos <= src.len() && c.bits == src && c.ok()) by {
        reveal(written::behind);
        reveal(written::begins);
    }
    let c1 = c.skip_u(2);
    let c2 = c1.skip_u(1);
    let c3 = c2.skip_u(5);
    let c4 = c3.skip_u(32);
    let c5 = c4.skip_u(4);
    let c6 = c5.skip_u(32);
    let c7 = c6.skip_u(12);
    let c8 = c7.skip_u(8);
    assert(c8.ok() && c7.ok() && c6.ok() && c5.ok() && c4.ok() && c3.ok() && c2.ok() && c1.ok());
    assert(c8 == c.at(c.pos + 96));
    written::lemma_raw_spelled(src, w, 88);
    let profile = src.subrange(c.pos, c.pos + 88);
    let w1 = w.raw(profile);
    written::lemma_raw_spelled(src, w1, 8);
    (profile, src.subrange(c.pos + 88, c.pos + 96))
}

/// A profile, tier and level that were skipped were written.
#[verifier::rlimit(40)]
proof fn lemma_profile_spelled(src: Seq<bool>, w: Written, n: u32) -> (t: SpsSyntax)
    requires
        n < 8,
        written::begins(src, w),
        headers::profile_tier_level(written::behind(src, w), n).ok(),
    ensures
        t.general_profile.len() == 88,
        t.general_level.len() == 8,
        t.sub_layers.len() == n,
        n > 0 ==> t.reserved_bits.len() == 2 * (8 - n),
        forall|i: int|
            0 <= i < t.sub_layers.len() ==> {
                &&& (#[trigger] t.sub_layers[i]).profile matches Some(b) ==> b.len() == 88
                &&& t.sub_layers[i].level matches Some(b) ==> b.len() == 8
            },
        written::begins(src, t.put_profile(w)),
        written::behind(src, t.put_profile(w)) == headers::profile_tier_level(
            written::behind(src, w),
            n,
        ),
{
    broadcast use bits::group_moves;
    broadcast use headers::lemma_skip_sub_layers_failed;
    broadcast use headers::lemma_sub_layer_flags_failed;

    let c = written::behind(src, w);
    let c1 = behind_general(c);
    let (flags, c2) = headers::sub_layer_flags(c1, n as nat);
    let pairs = (8 - n) as nat;
    let c3 = if n > 0 {
        c2.skip_u_times(2, pairs)
    } else {
        c2
    };
    let c4 = headers::skip_sub_layers(c3, flags);
    assert(c4.ok() && c3.ok() && c2.ok() && c1.ok());
    let (profile, level) = lemma_general_spelled(src, w);
    let w1 = w.raw(profile).raw(level);
    lemma_sub_layer_flags_len(c1, n as nat);
    let blank = blank_layers(flags);
    assert(sps_syntax::layer_flags(blank, 0) =~= flags);
    lemma_sub_layer_flags_spelled(src, w1, blank, 0);
    let w2 = sps_syntax::put_sub_layer_flags(w1, blank, 0);
    let pos = c2.pos;
    assert(0 <= pos <= src.len() && c2.bits == src) by {
        assert(written::begins(src, w2) && written::behind(src, w2) == c2);
        reveal(written::behind);
        reveal(written::begins);
    }
    let reserved = src.subrange(pos, pos + 2 * pairs);
    if n > 0 {
        lemma_pairs_skipped(c2, pairs);
        written::lemma_raw_spelled(src, w2, 2 * pairs);
    }
    let w3 = if n > 0 {
        w2.raw(reserved)
    } else {
        w2
    };
    assert(written::begins(src, w3) && written::behind(src, w3) == c3);
    let layers = lemma_sub_layers_spelled(src, w3, flags, Seq::empty());
    lemma_same_flags(w1, blank, layers, 0);
    SpsSyntax {
        general_profile: profile,
        general_level: level,
        sub_layers: layers,
        reserved_bits: reserved,
        ..arbitrary()
    }
}

/// Pairs of bits that were skipped were there.
proof fn lemma_pairs_skipped(c: Cursor, n: nat)
    requires
        c.skip_u_times(2, n).ok(),
    ensures
        c.ok(),
        c.skip_u_times(2, n) == c.at(c.pos + 2 * n),
        c.pos <= c.bits.len() ==> c.pos + 2 * n <= c.bits.len(),
    decreases n,
{
    broadcast use bits::group_moves;

    if n > 0 {
        bits::lemma_skip_u_times_failed(c.skip_u(2), 2, (n - 1) as nat);
        lemma_pairs_skipped(c.skip_u(2), (n - 1) as nat);
    }
}

/// The cursor behind the picture format.
spec fn behind_format(c: Cursor) -> Cursor {
    let c = c.skip_ue();
    let (idc, c) = c.ue();
    let c = if idc == 3 {
        c.skip_u(1)
    } else {
        c
    };
    let c = c.skip_ue().skip_ue();
    let (window, c) = c.flag();
    let c = if window {
        c.skip_ue_times(4)
    } else {
        c
    };
    c.skip_ue().skip_ue()
}

/// A picture format that was read was written.
#[verifier::rlimit(40)]
proof fn lemma_format_spelled(src: Seq<bool>, w: Written) -> (t: SpsSyntax)
    requires
        written::begins(src, w),
        behind_format(written::behind(src, w)).ok(),
    ensures
        pps_syntax::fits_ue(t.seq_parameter_set_id),
        pps_syntax::fits_ue(t.chroma_format_idc),
        t.chroma_format_idc != 3 ==> !t.separate_colour_plane,
        pps_syntax::fits_ue(t.pic_width_in_luma_samples),
        pps_syntax::fits_ue(t.pic_height_in_luma_samples),
        t.conformance_window matches Some((left, right, top, bottom)) ==> {
            &&& pps_syntax::fits_ue(left) && pps_syntax::fits_ue(right)
            &&& pps_syntax::fits_ue(top) && pps_syntax::fits_ue(bottom)
        },
        pps_syntax::fits_ue(t.bit_depth_luma_minus8),
        pps_syntax::fits_ue(t.bit_depth_chroma_minus8),
        written::begins(src, t.put_format(w)),
        written::behind(src, t.put_format(w)) == behind_format(written::behind(src, w)),
        ({
            let (idc, c) = written::behind(src, w).skip_ue().ue();
            t.separate_colour_plane == (idc == 3 && c.flag().0)
        }),
{
    broadcast use written::group_spelled;

    reveal_with_fuel(Cursor::skip_ue_times, 5);
    let c = written::behind(src, w);
    let (id, c1) = c.ue();
    let (idc, c2) = c1.ue();
    let (separate, c3) = if idc == 3 {
        c2.flag()
    } else {
        (false, c2)
    };
    let (width, c4) = c3.ue();
    let (height, c5) = c4.ue();
    let (window, c6) = c5.flag();
    let (left, c7) = if window {
        c6.ue()
    } else {
        (0u32, c6)
    };
    let (right, c8) = if window {
        c7.ue()
    } else {
        (0u32, c7)
    };
    let (top, c9) = if window {
        c8.ue()
    } else {
        (0u32, c8)
    };
    let (bottom, c10) = if window {
        c9.ue()
    } else {
        (0u32, c9)
    };
    let (luma, c11) = c10.ue();
    let (chroma, c12) = c11.ue();
    assert(c12 == behind_format(c));
    assert(c10.ok() && c6.ok() && c3.ok());
    let w2 = w.ue(id as nat).ue(idc as nat);
    let w3 = if idc == 3 {
        w2.flag(separate)
    } else {
        w2
    };
    assert(written::begins(src, w3) && written::behind(src, w3) == c3);
    let w6 = w3.ue(width as nat).ue(height as nat).flag(window);
    assert(written::begins(src, w6) && written::behind(src, w6) == c6);
    let w10 = if window {
        w6.ue(left as nat).ue(right as nat).ue(top as nat).ue(bottom as nat)
    } else {
        w6
    };
    assert(written::begins(src, w10) && written::behind(src, w10) == c10);
    SpsSyntax {
        seq_parameter_set_id: id as nat,
        chroma_format_idc: idc as nat,
        separate_colour_plane: separate,
        pic_width_in_luma_samples: width as nat,
        pic_height_in_luma_samples: height as nat,
        conformance_window: if window {
            Some((left as nat, right as nat, top as nat, bottom as nat))
        } else {
            None
        },
        bit_depth_luma_minus8: luma as nat,
        bit_depth_chroma_minus8: chroma as nat,
        ..arbitrary()
    }
}

/// The first part of an SPS that was read was written.
#[verifier::rlimit(40)]
proof fn lemma_head_spelled(src: Seq<bool>, w: Written) -> (t: SpsSyntax)
    requires
        written::begins(src, w),
        headers::sps_head(written::behind(src, w)).1.ok(),
    ensures
        t.video_parameter_set_id < 16,
        t.general_profile.len() == 88,
        t.general_level.len() == 8,
        t.sub_layers.len() < 8,
        t.sub_layers.len() > 0 ==> t.reserved_bits.len() == 2 * (8 - t.sub_layers.len()),
        forall|i: int|
            0 <= i < t.sub_layers.len() ==> {
                &&& (#[trigger] t.sub_layers[i]).profile matches Some(b) ==> b.len() == 88
                &&& t.sub_layers[i].level matches Some(b) ==> b.len() == 8
            },
        pps_syntax::fits_ue(t.seq_parameter_set_id),
        pps_syntax::fits_ue(t.chroma_format_idc),
        t.chroma_format_idc != 3 ==> !t.separate_colour_plane,
        pps_syntax::fits_ue(t.pic_width_in_luma_samples),
        pps_syntax::fits_ue(t.pic_height_in_luma_samples),
        t.conformance_window matches Some((left, right, top, bottom)) ==> {
            &&& pps_syntax::fits_ue(left) && pps_syntax::fits_ue(right)
            &&& pps_syntax::fits_ue(top) && pps_syntax::fits_ue(bottom)
        },
        pps_syntax::fits_ue(t.bit_depth_luma_minus8),
        pps_syntax::fits_ue(t.bit_depth_chroma_minus8),
        written::begins(src, t.put_head(w)),
        headers::sps_head(written::behind(src, w)) == (
            headers::SpsHead {
                max_sub_layers_minus1: t.sub_layers.len() as u32,
                separate_colour_plane: t.separate_colour_plane,
            },
            written::behind(src, t.put_head(w)),
        ),
{
    broadcast use written::group_spelled;
    broadcast use headers::lemma_profile_tier_level_failed;

    power2::lemma2_to64();
    let c = written::behind(src, w);
    let (id, c1) = c.u(4);
    let (n, c2) = c1.u(3);
    let (nesting, c3) = c2.flag();
    let c4 = headers::profile_tier_level(c3, n);
    let c5 = behind_format(c4);
    let (head, end) = headers::sps_head(c);
    assert(c5 == end);
    assert(c4.ok() && c3.ok() && c2.ok() && c1.ok());
    written::lemma_u_spelled(src, w, 4);
    let w1 = w.u(4, id as nat);
    written::lemma_u_spelled(src, w1, 3);
    let w2 = w1.u(3, n as nat);
    let w3 = w2.flag(nesting);
    assert(written::begins(src, w3) && written::behind(src, w3) == c3);
    let a = lemma_profile_spelled(src, w3, n);
    let w4 = a.put_profile(w3);
    let b = lemma_format_spelled(src, w4);
    let t = SpsSyntax {
        video_parameter_set_id: id as nat,
        temporal_id_nesting: nesting,
        general_profile: a.general_profile,
        general_level: a.general_level,
        sub_layers: a.sub_layers,
        reserved_bits: a.reserved_bits,
        seq_parameter_set_id: b.seq_parameter_set_id,
        chroma_format_idc: b.chroma_format_idc,
        separate_colour_plane: b.separate_colour_plane,
        pic_width_in_luma_samples: b.pic_width_in_luma_samples,
        pic_height_in_luma_samples: b.pic_height_in_luma_samples,
        conformance_window: b.conformance_window,
        bit_depth_luma_minus8: b.bit_depth_luma_minus8,
        bit_depth_chroma_minus8: b.bit_depth_chroma_minus8,
        ..arbitrary()
    };
    assert(t.put_profile(w3) == w4);
    assert(t.put_format(w4) == b.put_format(w4));
    assert(head.separate_colour_plane == b.separate_colour_plane);
    t
}

/// The ordering of sub-layers that was skipped was written; `before` stand before it.
proof fn lemma_ordering_spelled(
    src: Seq<bool>,
    w: Written,
    n: nat,
    before: Seq<(nat, nat, nat)>,
) -> (ordering: Seq<(nat, nat, nat)>)
    requires
        written::begins(src, w),
        written::behind(src, w).skip_ue_times((3 * n) as nat).ok(),
    ensures
        ordering.len() == before.len() + n,
        ordering.take(before.len() as int) == before,
        forall|i: int|
            before.len() <= i < ordering.len() ==> {
                &&& pps_syntax::fits_ue((#[trigger] ordering[i]).0)
                &&& pps_syntax::fits_ue(ordering[i].1)
                &&& pps_syntax::fits_ue(ordering[i].2)
            },
        written::begins(src, sps_syntax::put_ordering(w, ordering, before.len() as int)),
        written::behind(src, sps_syntax::put_ordering(w, ordering, before.len() as int))
            == written::behind(src, w).skip_ue_times((3 * n) as nat),
    decreases n,
{
    broadcast use written::group_spelled;

    let k = before.len() as int;
    if n == 0 {
        assert(before.take(k) =~= before);
        before
    } else {
        reveal_with_fuel(Cursor::skip_ue_times, 4);
        let c = written::behind(src, w);
        let (x, c1) = c.ue();
        let (y, c2) = c1.ue();
        let (z, c3) = c2.ue();
        let m = (3 * (n - 1)) as nat;
        assert(c.skip_ue_times((3 * n) as nat) == c3.skip_ue_times(m));
        bits::lemma_skip_ue_times_failed(c3, m);
        assert(c3.ok() && c2.ok() && c1.ok());
        let w1 = w.ue(x as nat).ue(y as nat).ue(z as nat);
        assert(written::begins(src, w1) && written::behind(src, w1) == c3);
        let first = (x as nat, y as nat, z as nat);
        let ordering = lemma_ordering_spelled(src, w1, (n - 1) as nat, before.push(first));
        assert(ordering.take(k) =~= ordering.take(k + 1).take(k));
        assert(before.push(first).take(k) =~= before);
        assert(ordering[k] == ordering.take(k + 1)[k]);
        ordering
    }
}

/// The cursor behind the coding tools.
spec fn behind_tools(c: Cursor) -> Cursor {
    let (enabled, c) = c.flag();
    let c = if enabled {
        let (data, c) = c.flag();
        c.ensure(!data, HevcError::SpsScalingList)
    } else {
        c
    };
    let c = c.skip_u(1).skip_u(1);
    let (pcm, c) = c.flag();
    if pcm {
        c.skip_u(8).skip_ue().skip_ue().skip_u(1)
    } else {
        c
    }
}

/// Eight bits that were skipped were written as two fields of four.
proof fn lemma_depths_spelled(src: Seq<bool>, w: Written) -> (depths: (nat, nat))
    requires
        written::begins(src, w),
        written::behind(src, w).skip_u(8).ok(),
    ensures
        depths.0 < 16,
        depths.1 < 16,
        written::begins(src, w.u(4, depths.0).u(4, depths.1)),
        written::behind(src, w.u(4, depths.0).u(4, depths.1)) == written::behind(
            src,
            w,
        ).skip_u(8),
{
    broadcast use bits::group_moves;

    power2::lemma2_to64();
    reveal(Cursor::u);
    let c = written::behind(src, w);
    let (a, c1) = c.u(4);
    assert(c1.ok());
    written::lemma_u_spelled(src, w, 4);
    let (b, c2) = c1.u(4);
    assert(c2.ok());
    written::lemma_u_spelled(src, w.u(4, a as nat), 4);
    (a as nat, b as nat)
}

/// Coding tools that were read were written.
#[verifier::rlimit(40)]
proof fn lemma_tools_spelled(src: Seq<bool>, w: Written) -> (t: SpsSyntax)
    requires
        written::begins(src, w),
        behind_tools(written::behind(src, w)).ok(),
    ensures
        !(t.scaling_list_enabled && t.scaling_list_data_present),
        t.pcm matches Some(pcm) ==> {
            &&& pcm.sample_bit_depth_luma_minus1 < 16
            &&& pcm.sample_bit_depth_chroma_minus1 < 16
            &&& pps_syntax::fits_ue(pcm.log2_min_luma_coding_block_size_minus3)
            &&& pps_syntax::fits_ue(pcm.log2_diff_max_min_luma_coding_block_size)
        },
        written::begins(src, t.put_tools(w)),
        written::behind(src, t.put_tools(w)) == behind_tools(written::behind(src, w)),
{
    broadcast use written::group_spelled;

    let c = written::behind(src, w);
    let (enabled, c1) = c.flag();
    let (data, c2) = if enabled {
        c1.flag()
    } else {
        (false, c1)
    };
    let c2b = c2.ensure(!data, HevcError::SpsScalingList);
    let (amp, c3) = c2b.flag();
    let (sao, c4) = c3.flag();
    let (coded, c5) = c4.flag();
    assert(c5.ok() && c2b.ok() && c2.ok() && c1.ok() && !data);
    let w1 = w.flag(enabled);
    let w2 = if enabled {
        w1.flag(false)
    } else {
        w1
    };
    assert(written::begins(src, w2) && written::behind(src, w2) == c2b);
    let w5 = w2.flag(amp).flag(sao).flag(coded);
    assert(written::begins(src, w5) && written::behind(src, w5) == c5);
    let pcm = if coded {
        let c6 = c5.skip_u(8);
        assert(c6.ok());
        let depths = lemma_depths_spelled(src, w5);
        let (min, c7) = c6.ue();
        let (diff, c8) = c7.ue();
        let (disabled, c9) = c8.flag();
        Some(
            Pcm {
                sample_bit_depth_luma_minus1: depths.0,
                sample_bit_depth_chroma_minus1: depths.1,
                log2_min_luma_coding_block_size_minus3: min as nat,
                log2_diff_max_min_luma_coding_block_size: diff as nat,
                loop_filter_disabled: disabled,
            },
        )
    } else {
        None
    };
    SpsSyntax {
        scaling_list_enabled: enabled,
        scaling_list_data_present: data,
        amp_enabled: amp,
        sample_adaptive_offset_enabled: sao,
        pcm,
        ..arbitrary()
    }
}

/// Block sizes that were skipped were written.
proof fn lemma_blocks_spelled(src: Seq<bool>, w: Written) -> (t: SpsSyntax)
    requires
        written::begins(src, w),
        written::behind(src, w).skip_ue_times(6).ok(),
    ensures
        pps_syntax::fits_ue(t.log2_min_luma_coding_block_size_minus3),
        pps_syntax::fits_ue(t.log2_diff_max_min_luma_coding_block_size),
        pps_syntax::fits_ue(t.log2_min_luma_transform_block_size_minus2),
        pps_syntax::fits_ue(t.log2_diff_max_min_luma_transform_block_size),
        pps_syntax::fits_ue(t.max_transform_hierarchy_depth_inter),
        pps_syntax::fits_ue(t.max_transform_hierarchy_depth_intra),
        written::begins(src, t.put_blocks(w)),
        written::behind(src, t.put_blocks(w)) == written::behind(src, w).skip_ue_times(6),
{
    broadcast use written::group_spelled;

    reveal_with_fuel(Cursor::skip_ue_times, 7);
    let c = written::behind(src, w);
    let (a, c1) = c.ue();
    let (b, c2) = c1.ue();
    let (d, c3) = c2.ue();
    let (e, c4) = c3.ue();
    let (f, c5) = c4.ue();
    let (g, c6) = c5.ue();
    SpsSyntax {
        log2_min_luma_coding_block_size_minus3: a as nat,
        log2_diff_max_min_luma_coding_block_size: b as nat,
        log2_min_luma_transform_block_size_minus2: d as nat,
        log2_diff_max_min_luma_transform_block_size: e as nat,
        max_transform_hierarchy_depth_inter: f as nat,
        max_transform_hierarchy_depth_intra: g as nat,
        ..arbitrary()
    }
}

/// The middle part of an SPS that was read was written.
#[verifier::rlimit(40)]
proof fn lemma_coding_spelled(src: Seq<bool>, w: Written, layers: Seq<SubLayer>) -> (t: SpsSyntax)
    requires
        layers.len() < 8,
        written::begins(src, w),
        headers::sps_coding(written::behind(src, w), layers.len() as u32).1.ok(),
    ensures
        t.sub_layers == layers,
        t.log2_max_pic_order_cnt_lsb_minus4 <= 12,
        t.coding_in_range(),
        !(t.scaling_list_enabled && t.scaling_list_data_present),
        written::begins(src, t.put_coding(w)),
        written::behind(src, t.put_coding(w)) == headers::sps_coding(
            written::behind(src, w),
            layers.len() as u32,
        ).1,
{
    broadcast use written::group_spelled;

    let c = written::behind(src, w);
    let (minus4, c1) = c.ue();
    let (present, c2) = c1.flag();
    let n: nat = if present {
        layers.len() + 1
    } else {
        1
    };
    let c3 = c2.skip_ue_times((3 * n) as nat);
    let c4 = c3.skip_ue_times(6);
    let c5 = behind_tools(c4);
    assert(c5 == headers::sps_coding(c, layers.len() as u32).1);
    assert(c4.ok());
    assert(c3.ok());
    assert(c2.ok() && c1.ok() && minus4 <= 12);
    let w2 = w.ue(minus4 as nat).flag(present);
    assert(written::begins(src, w2) && written::behind(src, w2) == c2);
    let ordering = lemma_ordering_spelled(src, w2, n, Seq::empty());
    let w3 = sps_syntax::put_ordering(w2, ordering, 0);
    let a = lemma_blocks_spelled(src, w3);
    let w4 = a.put_blocks(w3);
    let b = lemma_tools_spelled(src, w4);
    let t = SpsSyntax {
        sub_layers: layers,
        log2_max_pic_order_cnt_lsb_minus4: minus4 as nat,
        sub_layer_ordering_info_present: present,
        ordering,
        log2_min_luma_coding_block_size_minus3: a.log2_min_luma_coding_block_size_minus3,
        log2_diff_max_min_luma_coding_block_size: a.log2_diff_max_min_luma_coding_block_size,
        log2_min_luma_transform_block_size_minus2: a.log2_min_luma_transform_block_size_minus2,
        log2_diff_max_min_luma_transform_block_size:
            a.log2_diff_max_min_luma_transform_block_size,
        max_transform_hierarchy_depth_inter: a.max_transform_hierarchy_depth_inter,
        max_transform_hierarchy_depth_intra: a.max_transform_hierarchy_depth_intra,
        scaling_list_enabled: b.scaling_list_enabled,
        scaling_list_data_present: b.scaling_list_data_present,
        amp_enabled: b.amp_enabled,
        sample_adaptive_offset_enabled: b.sample_adaptive_offset_enabled,
        pcm: b.pcm,
        ..arbitrary()
    };
    assert(t.put_blocks(w3) == w4);
    assert(t.put_tools(w4) == b.put_tools(w4));
    t
}

/// Sets that were read were written; `before` stand before them.
proof fn lemma_sets_spelled(
    src: Seq<bool>,
    w: Written,
    n: nat,
    before: Seq<StRefPicSet>,
) -> (sets: Seq<StRefPicSet>)
    requires
        before.len() <= n,
        written::begins(src, w),
        headers::sps_sets(written::behind(src, w), before.len(), n).1.ok(),
        forall|i: int| 0 <= i < before.len() ==> (#[trigger] before[i]).coded(),
    ensures
        sets.len() == n,
        sets.take(before.len() as int) == before,
        forall|i: int| 0 <= i < sets.len() ==> (#[trigger] sets[i]).coded(),
        written::begins(src, sps_syntax::put_sets(w, sets, before.len() as int)),
        written::behind(src, sps_syntax::put_sets(w, sets, before.len() as int))
            == headers::sps_sets(written::behind(src, w), before.len(), n).1,
    decreases n - before.len(),
{
    broadcast use written::group_spelled;
    broadcast use rps::lemma_direct_st_rps_failed;
    broadcast use headers::lemma_sps_sets_failed;

    let i = before.len() as int;
    if i == n {
        assert(before.take(i) =~= before);
        before
    } else {
        let c = written::behind(src, w);
        let (predicted, c1) = if i > 0 {
            c.flag()
        } else {
            (false, c)
        };
        let c1b = c1.ensure(!predicted, HevcError::PredictedSpsRps);
        let c2 = rps::direct_st_rps(c1b).1;
        assert(headers::sps_sets(c, i as nat, n).1 == headers::sps_sets(c2, (i + 1) as nat, n).1);
        assert(c2.ok() && c1b.ok() && c1.ok() && !predicted);
        let w1 = if i > 0 {
            w.flag(false)
        } else {
            w
        };
        assert(written::begins(src, w1) && written::behind(src, w1) == c1b);
        let set = set_syntax::lemma_set_spelled(src, w1);
        let w2 = set.put_direct(w1);
        let sets = lemma_sets_spelled(src, w2, n, before.push(set));
        assert(sets.take(i) =~= sets.take(i + 1).take(i));
        assert(before.push(set).take(i) =~= before);
        assert(sets[i] == sets.take(i + 1)[i]);
        sets
    }
}

/// Long-term candidates that were skipped were written; `before` stand before them.
proof fn lemma_long_term_spelled(
    src: Seq<bool>,
    w: Written,
    poc_lsb_bits: u32,
    n: nat,
    before: Seq<(nat, bool)>,
) -> (candidates: Seq<(nat, bool)>)
    requires
        written::begins(src, w),
        headers::skip_long_term(written::behind(src, w), poc_lsb_bits, n).ok(),
    ensures
        candidates.len() == before.len() + n,
        candidates.take(before.len() as int) == before,
        written::begins(
            src,
            sps_syntax::put_long_term(w, poc_lsb_bits, candidates, before.len() as int),
        ),
        written::behind(
            src,
            sps_syntax::put_long_term(w, poc_lsb_bits, candidates, before.len() as int),
        ) == headers::skip_long_term(written::behind(src, w), poc_lsb_bits, n),
    decreases n,
{
    broadcast use written::group_spelled;

    let k = before.len() as int;
    if n == 0 {
        assert(before.take(k) =~= before);
        before
    } else {
        let c = written::behind(src, w);
        let (lsb, c1) = c.u(poc_lsb_bits);
        let (used, c2) = c1.flag();
        headers::lemma_skip_long_term_failed(c2, poc_lsb_bits, (n - 1) as nat);
        assert(c2.ok() && c1.ok());
        written::lemma_u_spelled(src, w, poc_lsb_bits);
        let w1 = w.u(poc_lsb_bits, lsb as nat);
        let w2 = w1.flag(used);
        assert(written::begins(src, w2) && written::behind(src, w2) == c2);
        let first = (lsb as nat, used);
        let candidates = lemma_long_term_spelled(
            src,
            w2,
            poc_lsb_bits,
            (n - 1) as nat,
            before.push(first),
        );
        assert(candidates.take(k) =~= candidates.take(k + 1).take(k));
        assert(before.push(first).take(k) =~= before);
        assert(candidates[k] == candidates.take(k + 1)[k]);
        candidates
    }
}

/// The last part of an SPS that was read was written.
#[verifier::rlimit(40)]
proof fn lemma_references_spelled(src: Seq<bool>, w: Written, minus4: nat) -> (t: SpsSyntax)
    requires
        minus4 <= 12,
        written::begins(src, w),
        headers::sps_references(written::behind(src, w), (minus4 + 4) as u32).1.ok(),
    ensures
        t.log2_max_pic_order_cnt_lsb_minus4 == minus4,
        t.short_term_ref_pic_sets.len() <= 64,
        forall|i: int|
            0 <= i < t.short_term_ref_pic_sets.len() ==> (
            #[trigger] t.short_term_ref_pic_sets[i]).coded(),
        t.long_term_ref_pics matches Some(candidates) ==> candidates.len() < u32::MAX,
        written::begins(src, t.put_references(w)),
{
    broadcast use written::group_spelled;
    broadcast use {headers::lemma_sps_sets_failed, headers::lemma_skip_long_term_failed};

    let bits = (minus4 + 4) as u32;
    let c = written::behind(src, w);
    let (n, c1) = c.ue();
    let c1b = c1.ensure(n <= 64, HevcError::ImplausibleRpsCount);
    let c2 = headers::sps_sets(c1b, 0, n as nat).1;
    let (present, c3) = c2.flag();
    let (num, c4) = if present {
        c3.ue()
    } else {
        (0u32, c3)
    };
    let c5 = if present {
        headers::skip_long_term(c4, bits, num as nat)
    } else {
        c4
    };
    let (mvp, c6) = c5.flag();
    assert(c6 == headers::sps_references(c, bits).1);
    assert(c5.ok() && c4.ok() && c3.ok() && c2.ok() && c1b.ok() && c1.ok());
    let w1 = w.ue(n as nat);
    assert(written::begins(src, w1) && written::behind(src, w1) == c1b);
    let sets = lemma_sets_spelled(src, w1, n as nat, Seq::empty());
    let w2 = sps_syntax::put_sets(w1, sets, 0);
    let w3 = w2.flag(present);
    assert(written::begins(src, w3) && written::behind(src, w3) == c3);
    let long_term = if present {
        let w4 = w3.ue(num as nat);
        assert(written::begins(src, w4) && written::behind(src, w4) == c4);
        Some(lemma_long_term_spelled(src, w4, bits, num as nat, Seq::empty()))
    } else {
        None
    };
    SpsSyntax {
        log2_max_pic_order_cnt_lsb_minus4: minus4,
        short_term_ref_pic_sets: sets,
        long_term_ref_pics: long_term,
        temporal_mvp_enabled: mvp,
        ..arbitrary()
    }
}

/// Nothing else parses: every SPS that does begins with what is written from some values,
/// without scaling list data. If POC deltas can hold the distances in its sets, these
/// values are what is reported.
#[verifier::rlimit(40)]
pub proof fn law_parsed_sps_was_written(nal: Seq<u8>) -> (s: SpsSyntax)
    requires
        headers::sps_of(nal) is Ok,
    ensures
        s.coded(),
        !(s.scaling_list_enabled && s.scaling_list_data_present),
        written::begins(headers::payload_bits(nal), s.written()),
        s.in_range() ==> headers::sps_of(nal) == Ok::<SpsFields, HevcError>(s.reported()),
{
    let src = headers::payload_bits(nal);
    let nothing = Written::nothing();
    written::lemma_nothing(src);
    let c = Cursor::start(src);
    let (head, c1) = headers::sps_head(c);
    let n = head.max_sub_layers_minus1;
    let (coding, c2) = headers::sps_coding(c1, n);
    headers::lemma_sps_coding_failed(c1, n);
    headers::lemma_sps_references_failed(c2, coding.poc_lsb_bits);
    assert(c2.ok());
    assert(c1.ok());
    let a = lemma_head_spelled(src, nothing);
    let w1 = a.put_head(nothing);
    let b = lemma_coding_spelled(src, w1, a.sub_layers);
    let w2 = b.put_coding(w1);
    assert(coding.poc_lsb_bits == (b.log2_max_pic_order_cnt_lsb_minus4 + 4) as u32) by {
        sps_syntax::lemma_coding_reads(src, w1, b);
    }
    let r = lemma_references_spelled(src, w2, b.log2_max_pic_order_cnt_lsb_minus4);
    let s = SpsSyntax {
        video_parameter_set_id: a.video_parameter_set_id,
        temporal_id_nesting: a.temporal_id_nesting,
        general_profile: a.general_profile,
        general_level: a.general_level,
        sub_layers: a.sub_layers,
        reserved_bits: a.reserved_bits,
        seq_parameter_set_id: a.seq_parameter_set_id,
        chroma_format_idc: a.chroma_format_idc,
        separate_colour_plane: a.separate_colour_plane,
        pic_width_in_luma_samples: a.pic_width_in_luma_samples,
        pic_height_in_luma_samples: a.pic_height_in_luma_samples,
        conformance_window: a.conformance_window,
        bit_depth_luma_minus8: a.bit_depth_luma_minus8,
        bit_depth_chroma_minus8: a.bit_depth_chroma_minus8,
        short_term_ref_pic_sets: r.short_term_ref_pic_sets,
        long_term_ref_pics: r.long_term_ref_pics,
        temporal_mvp_enabled: r.temporal_mvp_enabled,
        ..b
    };
    assert(s.put_profile(nothing.u(4, s.video_parameter_set_id).u(3, s.sub_layers.len()).flag(
        s.temporal_id_nesting,
    )) == a.put_profile(nothing.u(4, a.video_parameter_set_id).u(3, a.sub_layers.len()).flag(
        a.temporal_id_nesting,
    )));
    assert(s.put_head(nothing) == w1);
    assert(s.put_coding(w1) == w2);
    assert(s.put_references(w2) == r.put_references(w2));
    if s.in_range() {
        sps_syntax::lemma_fields_read(src, s);
    }
    s
}

} // verus!
