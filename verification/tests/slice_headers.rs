use macos_media_toolkit::hevc::bits::BitWriter;
use macos_media_toolkit::hevc::emulation::{escape_rbsp, unescape_rbsp};
use macos_media_toolkit::hevc::{
    parse_slice, rewrite_rps, HevcError, PpsInfo, RpsEntry, SliceInfo, SpsInfo,
};

/// SPS/PPS matching the profile of NVENC's ultra-low-latency HEVC streams
/// as seen in production (9-bit POC lsb, no SPS-level RPS, no
/// SAO/TMVP/WPP; PPS defaults).
fn nvenc_like_sps() -> SpsInfo {
    SpsInfo {
        poc_lsb_bits: 9,
        ..SpsInfo::default()
    }
}

/// Shorthand for an [`RpsEntry`] in the tests below.
fn e(delta_poc: i32, used: bool) -> RpsEntry {
    RpsEntry { delta_poc, used }
}

/// Build a TRAIL_R P-slice NAL with the structure NVENC emits: inline RPS
/// entries `(delta_poc_minus1, used_by_curr_pic)`, one active reference,
/// then an opaque payload standing in for the CABAC slice data. Under a PPS
/// with `lists_modification_present`, a slice whose RPS has more than one
/// used reference carries `ref_pic_list_modification_flag_l0` (emitted as
/// 0, "no modification"), matching HEVC syntax order.
fn build_nvenc_like_p_slice(
    poc: u32,
    entries: &[(u32, bool)],
    payload: &[u8],
    pps: &PpsInfo,
) -> Vec<u8> {
    let mut w = BitWriter::default();
    w.put(1, 1); // first_slice_segment_in_pic_flag
    w.put_ue(0); // slice_pic_parameter_set_id
    w.put_ue(1); // slice_type = P
    w.put(9, poc); // slice_pic_order_cnt_lsb
    w.put_flag(false); // short_term_ref_pic_set_sps_flag (inline RPS follows)
    w.put_ue(entries.len() as u32); // num_negative_pics
    w.put_ue(0); // num_positive_pics
    for &(delta_minus1, used) in entries {
        w.put_ue(delta_minus1);
        w.put_flag(used);
    }
    w.put_flag(true); // num_ref_idx_active_override_flag
    w.put_ue(0); // num_ref_idx_l0_active_minus1
    // ref_pic_list_modification() is present when NumPicTotalCurr > 1.
    if pps.lists_modification_present && entries.iter().filter(|(_, used)| *used).count() > 1 {
        w.put_flag(false); // ref_pic_list_modification_flag_l0
    }
    w.put_ue(3); // five_minus_max_num_merge_cand
    w.put_ue(3); // slice_qp_delta (se code point)
    w.put(1, 1); // byte_alignment: alignment_bit_equal_to_one
    while !w.byte_aligned() {
        w.put(1, 0);
    }
    let mut rbsp = w.into_bytes();
    rbsp.extend_from_slice(payload);
    let mut nal = vec![0x02, 0x01]; // TRAIL_R
    nal.extend_from_slice(&escape_rbsp(&rbsp));
    nal
}

/// The RPS shape of every captured failing NVENC P-frame: the picture it
/// predicts from plus unused DPB keep-alive entries.
const NVENC_RPS: [(u32, bool); 4] = [(0, true), (0, false), (0, false), (0, false)];

#[test]
fn rewriting_with_unchanged_rps_is_byte_identical() {
    let (sps, pps) = (nvenc_like_sps(), PpsInfo::default());
    // Payload includes start-code-like bytes to exercise emulation prevention.
    let payload = [
        0x9E, 0x00, 0x00, 0x01, 0x00, 0x00, 0x02, 0x7F, 0x00, 0x00, 0x00,
    ];
    let nal = build_nvenc_like_p_slice(44, &NVENC_RPS, &payload, &pps);
    let info = parse_slice(&nal, &sps, &pps).unwrap();
    let rewritten = rewrite_rps(&nal, &sps, &pps, &info.rps).unwrap();
    assert_eq!(rewritten, nal);
}

#[test]
fn rewrites_rps_preserving_the_slice_payload() {
    let (sps, pps) = (nvenc_like_sps(), PpsInfo::default());
    let payload = [0x9E, 0x00, 0x00, 0x01, 0x42, 0x00, 0x00, 0x00, 0x55];
    let nal = build_nvenc_like_p_slice(44, &NVENC_RPS, &payload, &pps);

    // Emulate the decoder's concealment after a recovery keyframe: the
    // DPB holds only POC 41, so the used reference (POC 43) is remapped
    // to it and the never-decoded keep-alives are dropped.
    let repaired = rewrite_rps(&nal, &sps, &pps, &[e(-3, true)]).expect("rewrite succeeds");
    let info = parse_slice(&repaired, &sps, &pps).expect("repaired slice parses");
    assert_eq!(info.poc_lsb, Some(44));
    assert_eq!(info.rps, vec![e(-3, true)]);
    // The slice payload survives byte-for-byte (it is byte-aligned both
    // before and after the header rewrite).
    let tail = unescape_rbsp(&repaired[2..]);
    assert!(
        tail.ends_with(&payload),
        "payload was disturbed: {tail:02x?}"
    );

    // Entries passed in any order come out in canonical HEVC order.
    let reordered =
        rewrite_rps(&nal, &sps, &pps, &[e(-4, false), e(-1, true), e(-2, false)]).unwrap();
    let info = parse_slice(&reordered, &sps, &pps).unwrap();
    assert_eq!(info.rps, vec![e(-1, true), e(-2, false), e(-4, false)]);
}

/// Regression: under `lists_modification_present`, whether
/// `ref_pic_list_modification_flag_l0` is present depends on NumPicTotalCurr.
/// A repair that drops a missing used reference can cross the 2->1 boundary,
/// so the SOURCE header carries the flag but the OUTPUT must omit it. The
/// gate must consume the source bit regardless, or every later field parses
/// one bit off and the payload is corrupted.
#[test]
fn rewrites_across_the_list_modification_flag_boundary() {
    let sps = nvenc_like_sps();
    let pps = PpsInfo {
        lists_modification_present: true,
        ..PpsInfo::default()
    };
    let payload = [0x9E, 0x00, 0x00, 0x01, 0x42, 0x00, 0x00, 0x00, 0x55];
    // Source RPS: two used references => NumPicTotalCurr = 2 => the source
    // header carries ref_pic_list_modification_flag_l0 (value 0).
    let nal = build_nvenc_like_p_slice(44, &[(0, true), (0, true)], &payload, &pps);
    let info = parse_slice(&nal, &sps, &pps).expect("source slice parses");
    assert_eq!(info.rps, vec![e(-1, true), e(-2, true)]);

    // Repair down to a single used reference: NumPicTotalCurr crosses 2 -> 1,
    // so the output header must omit the flag while the source bit is still
    // consumed. A desync here would corrupt the payload below.
    let repaired = rewrite_rps(&nal, &sps, &pps, &[e(-1, true)]).expect("rewrite succeeds");
    let info = parse_slice(&repaired, &sps, &pps).expect("repaired slice parses");
    assert_eq!(info.poc_lsb, Some(44));
    assert_eq!(info.rps, vec![e(-1, true)]);
    let tail = unescape_rbsp(&repaired[2..]);
    assert!(
        tail.ends_with(&payload),
        "payload was disturbed: {tail:02x?}"
    );

    // Identity: rewriting with the unchanged 2-used-entry RPS keeps the flag
    // and stays byte-identical.
    let identity =
        rewrite_rps(&nal, &sps, &pps, &[e(-1, true), e(-2, true)]).expect("rewrite succeeds");
    assert_eq!(
        identity, nal,
        "identity rewrite under lists_modification_present must be byte-exact"
    );
}

/// Bits of a slice header, as text of `0` and `1`, behind a NAL header of type `ty`.
fn slice_from_bits(ty: u8, header: &str, payload: &[u8]) -> Vec<u8> {
    let mut w = BitWriter::default();
    for c in header.chars() {
        if c != ' ' {
            w.put_flag(c == '1');
        }
    }
    while !w.byte_aligned() {
        w.put_flag(false);
    }
    let mut rbsp = w.into_bytes();
    rbsp.extend_from_slice(payload);
    let mut nal = vec![ty << 1, 0x01];
    nal.extend_from_slice(&escape_rbsp(&rbsp));
    nal
}

fn sps_with(bits: u32) -> SpsInfo {
    SpsInfo {
        poc_lsb_bits: bits,
        ..SpsInfo::default()
    }
}

// first slice, PPS 0, P slice, POC lsb 5 of 4 bits
const LEAD: &str = "1 1 010 0101";
// inline RPS: one preceding picture at distance 1, used
const ONE_REF: &str = "0 010 1 1 1";
// one active reference by default, one merge candidate code, QP delta
const REST: &str = "0 1 1";

#[test]
fn parses_a_p_slice_bit_by_bit() {
    let nal = slice_from_bits(1, &format!("{LEAD}{ONE_REF}{REST}1"), &[0xAB]);
    let info = parse_slice(&nal, &sps_with(4), &PpsInfo::default()).unwrap();
    assert_eq!(
        info,
        SliceInfo {
            poc_lsb: Some(5),
            rps: vec![e(-1, true)],
        }
    );
}

#[test]
fn parses_following_pictures_after_preceding_ones() {
    // num_negative 1, num_positive 2; deltas 2, then 1 and 3 beyond it
    let nal = slice_from_bits(
        1,
        &format!("{LEAD} 0 010 011 010 0 1 1 011 0 {REST}1"),
        &[],
    );
    let info = parse_slice(&nal, &sps_with(4), &PpsInfo::default()).unwrap();
    assert_eq!(info.rps, vec![e(-2, false), e(1, true), e(4, false)]);
}

#[test]
fn idr_slices_have_no_poc_and_no_rps() {
    // no_output_of_prior_pics, then an I slice and its QP delta
    let nal = slice_from_bits(19, "1 0 1 011 1 1", &[0x77, 0x00, 0x00, 0x01]);
    let (sps, pps) = (sps_with(4), PpsInfo::default());
    let info = parse_slice(&nal, &sps, &pps).unwrap();
    assert_eq!(info.poc_lsb, None);
    assert!(info.rps.is_empty());
    // There is no RPS to replace, so the bytes stay.
    assert_eq!(rewrite_rps(&nal, &sps, &pps, &[e(-1, true)]).unwrap(), nal);
}

#[test]
fn selects_a_set_of_the_sps() {
    let sps = SpsInfo {
        short_term_rps: vec![
            vec![e(-1, true)],
            vec![e(-2, true), e(-3, false)],
            vec![e(-4, true)],
        ],
        ..sps_with(4)
    };
    let pps = PpsInfo::default();
    // Three sets take a 2-bit index.
    let nal = slice_from_bits(1, &format!("{LEAD} 1 01 {REST}1"), &[0x42]);
    let info = parse_slice(&nal, &sps, &pps).unwrap();
    assert_eq!(info.rps, vec![e(-2, true), e(-3, false)]);
    // Index 3 is one too many.
    let nal3 = slice_from_bits(1, &format!("{LEAD} 1 11 {REST}1"), &[0x42]);
    assert_eq!(
        parse_slice(&nal3, &sps, &pps),
        Err(HevcError::MissingSpsRps(3))
    );
    // Rewriting spells the set out.
    let inline = rewrite_rps(&nal, &sps, &pps, &info.rps).unwrap();
    assert_ne!(inline, nal);
    assert_eq!(parse_slice(&inline, &sps, &pps).unwrap(), info);
    assert!(unescape_rbsp(&inline[2..]).ends_with(&[0x42]));
}

#[test]
fn a_single_sps_set_needs_no_index() {
    let sps = SpsInfo {
        short_term_rps: vec![vec![e(-7, true)]],
        ..sps_with(4)
    };
    let nal = slice_from_bits(1, &format!("{LEAD} 1 {REST}1"), &[]);
    let info = parse_slice(&nal, &sps, &PpsInfo::default()).unwrap();
    assert_eq!(info.rps, vec![e(-7, true)]);
    // With no sets at all there is none to point to.
    assert_eq!(
        parse_slice(&nal, &sps_with(4), &PpsInfo::default()),
        Err(HevcError::MissingSpsRps(0))
    );
}

#[test]
fn rewriting_twice_goes_back() {
    let (sps, pps) = (nvenc_like_sps(), PpsInfo::default());
    let payload = [0x00, 0x00, 0x03, 0x00, 0x00, 0x01, 0x80];
    let nal = build_nvenc_like_p_slice(300, &NVENC_RPS, &payload, &pps);
    let info = parse_slice(&nal, &sps, &pps).unwrap();
    let other = rewrite_rps(&nal, &sps, &pps, &[e(-9, true), e(2, false)]).unwrap();
    assert_eq!(
        parse_slice(&other, &sps, &pps).unwrap().rps,
        vec![e(-9, true), e(2, false)]
    );
    assert_eq!(rewrite_rps(&other, &sps, &pps, &info.rps).unwrap(), nal);
}

#[test]
fn the_last_rewrite_wins() {
    let sps = nvenc_like_sps();
    let pps = PpsInfo {
        lists_modification_present: true,
        ..PpsInfo::default()
    };
    let payload = [0x9E, 0x00, 0x00, 0x01, 0x42];
    let nal = build_nvenc_like_p_slice(44, &[(0, true), (0, true)], &payload, &pps);
    // The first rewrite leaves the list modification flag out, the second one
    // need not put it back.
    let first = [e(-3, true)];
    let last = [e(-7, false), e(-2, true)];
    let once = rewrite_rps(&nal, &sps, &pps, &first).unwrap();
    assert_ne!(once, nal);
    assert_eq!(
        rewrite_rps(&once, &sps, &pps, &last).unwrap(),
        rewrite_rps(&nal, &sps, &pps, &last).unwrap()
    );
    assert_eq!(rewrite_rps(&once, &sps, &pps, &first).unwrap(), once);
    // What only the source slice has room for is refused.
    let two = [e(-1, true), e(-2, true)];
    assert!(rewrite_rps(&nal, &sps, &pps, &two).is_ok());
    assert_eq!(
        rewrite_rps(&once, &sps, &pps, &two),
        Err(HevcError::AddedUsedReference)
    );
}

#[test]
fn appended_bytes_change_nothing_a_slice_says() {
    let (sps, pps) = (nvenc_like_sps(), PpsInfo::default());
    let nal = build_nvenc_like_p_slice(44, &NVENC_RPS, &[], &pps);
    let info = parse_slice(&nal, &sps, &pps).unwrap();
    for tail in [&[0x00][..], &[0x00, 0x00, 0x03], &[0x80, 0xFF, 0x01]] {
        let longer = [&nal[..], tail].concat();
        assert_eq!(parse_slice(&longer, &sps, &pps).unwrap(), info);
    }
}

#[test]
fn an_entry_for_the_current_picture_is_left_out() {
    let (sps, pps) = (nvenc_like_sps(), PpsInfo::default());
    let nal = build_nvenc_like_p_slice(7, &NVENC_RPS, &[0x11], &pps);
    let out = rewrite_rps(&nal, &sps, &pps, &[e(0, true), e(-1, true)]).unwrap();
    assert_eq!(
        parse_slice(&out, &sps, &pps).unwrap().rps,
        vec![e(-1, true)]
    );
}

#[test]
fn optional_fields_are_read_and_kept() {
    let sps = SpsInfo {
        separate_colour_plane: true,
        long_term_ref_pics_present: true,
        num_long_term_ref_pics_sps: 2,
        temporal_mvp: true,
        sao: true,
        ..sps_with(4)
    };
    let pps = PpsInfo {
        output_flag_present: true,
        num_extra_slice_header_bits: 2,
        cabac_init_present: true,
        chroma_qp_offsets_present: true,
        deblocking_filter_override_enabled: true,
        loop_filter_across_slices: true,
        entropy_coding_sync: true,
        ..PpsInfo::default()
    };
    let header = "1 1 10 010 1 01 0101 0 010 1 1 1 1 1 0 1 0 \
                  0 1 1 010 1 1 1 0 1 1 0 011 00101 \
                  10101 00110 1";
    let nal = slice_from_bits(1, header, &[0xC3, 0x3C]);
    let info = parse_slice(&nal, &sps, &pps).unwrap();
    assert_eq!(info.poc_lsb, Some(5));
    assert_eq!(info.rps, vec![e(-1, true)]);
    assert_eq!(rewrite_rps(&nal, &sps, &pps, &info.rps).unwrap(), nal);
    let moved = rewrite_rps(&nal, &sps, &pps, &[e(-2, true)]).unwrap();
    let again = parse_slice(&moved, &sps, &pps).unwrap();
    assert_eq!(again.poc_lsb, Some(5));
    assert_eq!(again.rps, vec![e(-2, true)]);
    assert!(unescape_rbsp(&moved[2..]).ends_with(&[0xC3, 0x3C]));
}

fn error_of(nal: &[u8], sps: &SpsInfo, pps: &PpsInfo) -> HevcError {
    parse_slice(nal, sps, pps).unwrap_err()
}

#[test]
fn rejects_what_is_no_slice() {
    let (sps, pps) = (sps_with(4), PpsInfo::default());
    assert_eq!(error_of(&[0x02, 0x01], &sps, &pps), HevcError::SliceTooShort);
    assert_eq!(error_of(&[], &sps, &pps), HevcError::SliceTooShort);
    assert_eq!(
        error_of(&[0x40, 0x01, 0x80], &sps, &pps),
        HevcError::NotASlice
    );
    let cut = slice_from_bits(1, "1 1 010", &[]);
    assert_eq!(error_of(&cut, &sps_with(16), &pps), HevcError::BitstreamExhausted);
}

#[test]
fn rejects_unsupported_slice_layouts() {
    let (sps, pps) = (sps_with(4), PpsInfo::default());
    let not_first = slice_from_bits(1, "0 1 010", &[0, 0, 0]);
    assert_eq!(error_of(&not_first, &sps, &pps), HevcError::NonFirstSlice);
    let dependent = PpsInfo {
        dependent_slice_segments: true,
        ..pps
    };
    let plain = slice_from_bits(1, &format!("{LEAD}{ONE_REF}{REST}1"), &[0xAB]);
    assert_eq!(error_of(&plain, &sps, &dependent), HevcError::DependentSlices);
    let b_slice = slice_from_bits(1, "1 1 1", &[0xFF, 0xFF]);
    assert_eq!(error_of(&b_slice, &sps, &pps), HevcError::UnsupportedSliceType);
    let weighted = PpsInfo {
        weighted_pred: true,
        ..pps
    };
    assert_eq!(error_of(&plain, &sps, &weighted), HevcError::WeightedPrediction);
    let extension = PpsInfo {
        slice_header_extension: true,
        ..pps
    };
    assert_eq!(error_of(&plain, &sps, &extension), HevcError::HeaderExtension);
    let two_refs = PpsInfo {
        num_ref_idx_l0_default_minus1: 1,
        ..pps
    };
    assert_eq!(error_of(&plain, &sps, &two_refs), HevcError::MultipleReferences);
    let overridden = slice_from_bits(1, &format!("{LEAD}{ONE_REF} 1 010 1 1 1"), &[]);
    assert_eq!(error_of(&overridden, &sps, &pps), HevcError::MultipleReferences);
}

#[test]
fn rejects_unsupported_references() {
    let (sps, pps) = (sps_with(4), PpsInfo::default());
    let with_set = SpsInfo {
        short_term_rps: vec![vec![]],
        ..sps_with(4)
    };
    let predicted = slice_from_bits(1, &format!("{LEAD} 0 1 {REST}1"), &[]);
    assert_eq!(
        error_of(&predicted, &with_set, &pps),
        HevcError::PredictedSliceRps
    );
    // num_negative_pics = 17
    let many = slice_from_bits(1, &format!("{LEAD} 0 000010010 1"), &[0xFF]);
    assert_eq!(error_of(&many, &sps, &pps), HevcError::ImplausibleRpsSize);
    let long_term = SpsInfo {
        long_term_ref_pics_present: true,
        ..sps_with(4)
    };
    let in_slice = slice_from_bits(1, &format!("{LEAD}{ONE_REF} 010 {REST}1"), &[]);
    assert_eq!(
        error_of(&in_slice, &long_term, &pps),
        HevcError::LongTermSliceReference
    );
    let long_term_sps = SpsInfo {
        num_long_term_ref_pics_sps: 1,
        ..long_term
    };
    assert_eq!(
        error_of(&in_slice, &long_term_sps, &pps),
        HevcError::LongTermSpsReference
    );
}

#[test]
fn rejects_list_modification() {
    let sps = sps_with(4);
    let pps = PpsInfo {
        lists_modification_present: true,
        ..PpsInfo::default()
    };
    // two used references, then the flag set
    let modified = slice_from_bits(1, &format!("{LEAD} 0 011 1 1 1 1 1 0 1 1 1 1"), &[]);
    assert_eq!(error_of(&modified, &sps, &pps), HevcError::ListModification);
    // A rewrite cannot add a used reference to a slice without the flag.
    let one = slice_from_bits(1, &format!("{LEAD}{ONE_REF}{REST}1"), &[0xAB]);
    assert!(parse_slice(&one, &sps, &pps).is_ok());
    assert_eq!(
        rewrite_rps(&one, &sps, &pps, &[e(-1, true), e(-2, true)]),
        Err(HevcError::AddedUsedReference)
    );
}

#[test]
fn rejects_long_entry_point_offsets() {
    let pps = PpsInfo {
        entropy_coding_sync: true,
        ..PpsInfo::default()
    };
    // one entry point, offset_len_minus1 = 32
    let nal = slice_from_bits(
        1,
        &format!("{LEAD}{ONE_REF}{REST} 010 00000100001"),
        &[0xFF; 8],
    );
    assert_eq!(
        error_of(&nal, &sps_with(4), &pps),
        HevcError::BadEntryPointOffset
    );
}

#[test]
fn rejects_bad_alignment_only_when_rewriting() {
    let (sps, pps) = (sps_with(4), PpsInfo::default());
    let missing = slice_from_bits(1, &format!("{LEAD}{ONE_REF}{REST}0"), &[0xAB]);
    assert!(parse_slice(&missing, &sps, &pps).is_ok());
    assert_eq!(
        rewrite_rps(&missing, &sps, &pps, &[e(-1, true)]),
        Err(HevcError::MissingAlignmentBit)
    );
    let nonzero = slice_from_bits(1, &format!("{LEAD}{ONE_REF}{REST}11"), &[0xAB]);
    assert!(parse_slice(&nonzero, &sps, &pps).is_ok());
    assert_eq!(
        rewrite_rps(&nonzero, &sps, &pps, &[e(-1, true)]),
        Err(HevcError::NonzeroAlignmentBit)
    );
}
