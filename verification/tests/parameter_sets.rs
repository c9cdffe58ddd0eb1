use macos_media_toolkit::hevc::bits::BitWriter;
use macos_media_toolkit::hevc::emulation::escape_rbsp;
use macos_media_toolkit::hevc::{parse_pps, parse_sps, HevcError, PpsInfo, RpsEntry, SpsInfo};

fn e(delta_poc: i32, used: bool) -> RpsEntry {
    RpsEntry { delta_poc, used }
}

fn put_text(w: &mut BitWriter, text: &str) {
    for c in text.chars() {
        if c != ' ' {
            w.put_flag(c == '1');
        }
    }
}

fn nal_of(ty: u8, mut w: BitWriter) -> Vec<u8> {
    w.put_flag(true);
    while !w.byte_aligned() {
        w.put_flag(false);
    }
    let mut nal = vec![ty << 1, 0x01];
    nal.extend_from_slice(&escape_rbsp(&w.into_bytes()));
    nal
}

/// Profile, tier and level without sub-layers.
fn put_profile(w: &mut BitWriter) {
    w.put(8, 0x01);
    w.put(32, 0x6000_0000);
    w.put(4, 0x9);
    w.put(32, 0);
    w.put(12, 0);
    w.put(8, 93);
}

/// Everything up to the bit depths, with 4:2:0 chroma and no conformance window.
fn sps_start() -> BitWriter {
    let mut w = BitWriter::default();
    w.put(4, 0);
    w.put(3, 0);
    w.put(1, 1);
    put_profile(&mut w);
    w.put_ue(0);
    w.put_ue(1);
    w.put_ue(1280);
    w.put_ue(720);
    w.put_flag(false);
    w.put_ue(0);
    w.put_ue(0);
    w
}

/// Goes on to the PCM flag: 9-bit POC lsb, one sub-layer, no scaling lists, SAO.
fn sps_to_sets() -> BitWriter {
    let mut w = sps_start();
    w.put_ue(5);
    w.put_flag(true);
    for _ in 0..9 {
        w.put_ue(1);
    }
    w.put_flag(false);
    w.put_flag(true);
    w.put_flag(true);
    w.put_flag(false);
    w
}

#[test]
fn parses_the_sps_of_a_low_latency_stream() {
    let mut w = sps_to_sets();
    w.put_ue(0);
    w.put_flag(false);
    w.put_flag(true);
    let sps = parse_sps(&nal_of(33, w)).unwrap();
    assert_eq!(
        sps,
        SpsInfo {
            poc_lsb_bits: 9,
            separate_colour_plane: false,
            short_term_rps: vec![],
            long_term_ref_pics_present: false,
            num_long_term_ref_pics_sps: 0,
            temporal_mvp: true,
            sao: true,
        }
    );
}

#[test]
fn parses_sets_and_long_term_references() {
    let mut w = sps_to_sets();
    w.put_ue(2);
    // one preceding picture, one following picture
    put_text(&mut w, "010 010 1 1 010 0");
    // not predicted; two preceding pictures
    put_text(&mut w, "0 011 1 00100 1 1 0");
    w.put_flag(true);
    w.put_ue(2);
    w.put(9, 17);
    w.put_flag(true);
    w.put(9, 300);
    w.put_flag(false);
    w.put_flag(false);
    let sps = parse_sps(&nal_of(33, w)).unwrap();
    assert_eq!(
        sps.short_term_rps,
        vec![
            vec![e(-1, true), e(2, false)],
            vec![e(-4, true), e(-5, false)],
        ]
    );
    assert!(sps.long_term_ref_pics_present);
    assert_eq!(sps.num_long_term_ref_pics_sps, 2);
    assert!(!sps.temporal_mvp);
}

#[test]
fn parses_sub_layers_windows_and_colour_planes() {
    let mut w = BitWriter::default();
    w.put(4, 0);
    w.put(3, 2); // two sub-layers below the highest
    w.put(1, 1);
    put_profile(&mut w);
    put_text(&mut w, "11 01"); // profile and level, level only
    w.put(12, 0); // reserved, two bits for each of the other six
    w.put(32, 1);
    w.put(32, 2);
    w.put(24, 3);
    w.put(8, 60);
    w.put(8, 61);
    w.put_ue(0);
    w.put_ue(3); // 4:4:4
    w.put_flag(true); // separate colour planes
    w.put_ue(64);
    w.put_ue(64);
    w.put_flag(true); // conformance window
    for _ in 0..4 {
        w.put_ue(2);
    }
    w.put_ue(0);
    w.put_ue(0);
    w.put_ue(12); // 16-bit POC lsb
    w.put_flag(true); // ordering information for all three sub-layers
    for _ in 0..9 {
        w.put_ue(1);
    }
    for _ in 0..6 {
        w.put_ue(0);
    }
    put_text(&mut w, "10"); // scaling lists enabled, no data
    w.put_flag(false);
    w.put_flag(false); // no SAO
    w.put_flag(true); // PCM
    w.put(8, 0x77);
    w.put_ue(0);
    w.put_ue(2);
    w.put_flag(false);
    w.put_ue(0);
    w.put_flag(false);
    w.put_flag(true);
    let sps = parse_sps(&nal_of(33, w)).unwrap();
    assert_eq!(sps.poc_lsb_bits, 16);
    assert!(sps.separate_colour_plane);
    assert!(!sps.sao);
    assert!(sps.temporal_mvp);
}

#[test]
fn rejects_sps_outside_the_profile() {
    assert_eq!(parse_sps(&[0x42, 0x01]), Err(HevcError::SpsTooShort));
    assert_eq!(
        parse_sps(&[0x42, 0x01, 0x01]),
        Err(HevcError::BitstreamExhausted)
    );
    let mut w = sps_start();
    w.put_ue(13);
    assert_eq!(parse_sps(&nal_of(33, w)), Err(HevcError::BadPocLsbBits));
    let mut w = sps_start();
    w.put_ue(5);
    w.put_flag(true);
    for _ in 0..9 {
        w.put_ue(1);
    }
    put_text(&mut w, "11");
    assert_eq!(parse_sps(&nal_of(33, w)), Err(HevcError::SpsScalingList));
    let mut w = sps_to_sets();
    w.put_ue(65);
    assert_eq!(parse_sps(&nal_of(33, w)), Err(HevcError::ImplausibleRpsCount));
    let mut w = sps_to_sets();
    w.put_ue(2);
    put_text(&mut w, "1 1 1");
    assert_eq!(parse_sps(&nal_of(33, w)), Err(HevcError::PredictedSpsRps));
    let mut w = sps_to_sets();
    w.put_ue(1);
    w.put_ue(17);
    w.put_ue(0);
    assert_eq!(parse_sps(&nal_of(33, w)), Err(HevcError::ImplausibleRpsSize));
}

/// Everything up to the tiles flag.
fn pps_start(extra_bits: u32, cu_qp_delta: bool) -> BitWriter {
    let mut w = BitWriter::default();
    w.put_ue(0);
    w.put_ue(0);
    w.put_flag(false); // dependent slices
    w.put_flag(true); // output flag
    w.put(3, extra_bits);
    w.put_flag(false);
    w.put_flag(true); // CABAC init
    w.put_ue(0);
    w.put_ue(0);
    w.put_ue(5);
    w.put_flag(false);
    w.put_flag(false);
    w.put_flag(cu_qp_delta);
    if cu_qp_delta {
        w.put_ue(1);
    }
    w.put_ue(3);
    w.put_ue(4);
    w.put_flag(true); // chroma QP offsets
    w.put_flag(false); // weighted prediction
    w.put_flag(false);
    w.put_flag(false);
    w
}

#[test]
fn parses_a_pps() {
    let mut w = pps_start(5, true);
    w.put_flag(false); // tiles
    w.put_flag(true); // wavefronts
    w.put_flag(true); // loop filter across slices
    w.put_flag(true); // deblocking control
    w.put_flag(true); // override enabled
    w.put_flag(false); // not disabled
    w.put_ue(1);
    w.put_ue(2);
    w.put_flag(false); // scaling lists
    w.put_flag(true); // list modification
    w.put_ue(0);
    w.put_flag(true); // header extension
    assert_eq!(
        parse_pps(&nal_of(34, w)).unwrap(),
        PpsInfo {
            dependent_slice_segments: false,
            output_flag_present: true,
            num_extra_slice_header_bits: 5,
            cabac_init_present: true,
            num_ref_idx_l0_default_minus1: 0,
            lists_modification_present: true,
            weighted_pred: false,
            tiles: false,
            entropy_coding_sync: true,
            loop_filter_across_slices: true,
            deblocking_filter_override_enabled: true,
            pps_deblocking_disabled: false,
            chroma_qp_offsets_present: true,
            slice_header_extension: true,
        }
    );
}

#[test]
fn parses_a_pps_with_deblocking_disabled() {
    let mut w = pps_start(0, false);
    put_text(&mut w, "0 0 0 1 0 1 0 0 1 0");
    let pps = parse_pps(&nal_of(34, w)).unwrap();
    assert!(pps.pps_deblocking_disabled);
    assert!(!pps.deblocking_filter_override_enabled);
    assert!(!pps.lists_modification_present);
    assert!(!pps.slice_header_extension);
}

#[test]
fn rejects_pps_outside_the_profile() {
    assert_eq!(parse_pps(&[0x44, 0x01]), Err(HevcError::PpsTooShort));
    let mut w = pps_start(0, false);
    w.put_flag(true);
    assert_eq!(parse_pps(&nal_of(34, w)), Err(HevcError::TiledPps));
    let mut w = pps_start(0, false);
    put_text(&mut w, "0 0 0 0 1");
    assert_eq!(parse_pps(&nal_of(34, w)), Err(HevcError::PpsScalingList));
    let mut cut = BitWriter::default();
    cut.put(5, 0);
    assert_eq!(parse_pps(&nal_of(34, cut)), Err(HevcError::BitstreamExhausted));
}

#[test]
fn defaults_are_all_off() {
    let sps = SpsInfo::default();
    assert_eq!(sps.poc_lsb_bits, 0);
    assert!(sps.short_term_rps.is_empty());
    let pps = PpsInfo::default();
    assert_eq!(pps.num_extra_slice_header_bits, 0);
    assert!(!pps.tiles && !pps.weighted_pred && !pps.slice_header_extension);
}

#[test]
fn appended_bytes_change_nothing_a_parameter_set_says() {
    let mut w = sps_to_sets();
    w.put_ue(1);
    put_text(&mut w, "010 1 1 1");
    w.put_flag(false);
    w.put_flag(true);
    let sps_nal = nal_of(33, w);
    let sps = parse_sps(&sps_nal).unwrap();
    assert_eq!(sps.short_term_rps, vec![vec![e(-1, true)]]);
    assert_eq!(sps.num_long_term_ref_pics_sps, 0);
    let mut w = pps_start(0, false);
    put_text(&mut w, "0 0 1 0 0 1 1 0");
    let pps_nal = nal_of(34, w);
    let pps = parse_pps(&pps_nal).unwrap();
    for tail in [&[0x00][..], &[0x00, 0x00, 0x03], &[0x80, 0xFF, 0x01]] {
        assert_eq!(parse_sps(&[&sps_nal[..], tail].concat()).unwrap(), sps);
        assert_eq!(parse_pps(&[&pps_nal[..], tail].concat()).unwrap(), pps);
    }
}
