use macos_media_toolkit::hevc::bits::BitWriter;
use macos_media_toolkit::hevc::emulation::escape_rbsp;
use macos_media_toolkit::hevc::{
    annex_b_nal_units, parameter_sets_from_nals, parse_pps, parse_slice, parse_sps, HevcError,
    ParameterSets, PpsInfo, RpsEntry, SpsInfo,
};
use macos_media_toolkit::videotoolbox::conceal::{conceal_rps, ref_poc_lsb};
use macos_media_toolkit::videotoolbox::decoder::decode_output;
use macos_media_toolkit::videotoolbox::encoder::build_encoded_frame;
use macos_media_toolkit::videotoolbox::{
    DecodeError, DecoderConfig, EncodeError, FramePlan, HevcDecoder, HevcEncoder, Repair,
    RepairLog,
};
use macos_media_toolkit::BgraFrame;

fn e(delta_poc: i32, used: bool) -> RpsEntry {
    RpsEntry { delta_poc, used }
}

fn picture() -> BgraFrame {
    BgraFrame {
        bgra: vec![0; 4],
        width: 1,
        height: 1,
    }
}

#[test]
fn reference_lsbs_wrap() {
    assert_eq!(ref_poc_lsb(5, -3, 16), 2);
    assert_eq!(ref_poc_lsb(2, -3, 16), 15);
    assert_eq!(ref_poc_lsb(15, 2, 16), 1);
    assert_eq!(ref_poc_lsb(0, -160, 16), 0);
}

#[test]
fn complete_reference_sets_are_kept() {
    let rps = [e(-1, true), e(-2, false)];
    let (entries, missing) = conceal_rps(&rps, 10, 16, &[8, 9]);
    assert_eq!(entries, rps.to_vec());
    assert!(!missing);
}

#[test]
fn absent_unused_references_are_dropped() {
    let rps = [e(-1, true), e(-2, false), e(-3, false)];
    let (entries, missing) = conceal_rps(&rps, 10, 16, &[9, 7]);
    assert_eq!(entries, vec![e(-1, true), e(-3, false)]);
    assert!(!missing);
}

#[test]
fn an_absent_used_reference_maps_to_the_newest_picture() {
    // POC 9 is missing; 7 is the newest of 7, 3 and (wrapping) 14.
    let (entries, missing) = conceal_rps(&[e(-1, true)], 10, 16, &[3, 7, 14]);
    assert_eq!(entries, vec![e(-3, true)]);
    assert!(missing);
    // A kept unused entry for it is promoted.
    let (entries, missing) = conceal_rps(&[e(-1, true), e(-3, false)], 10, 16, &[3, 7]);
    assert_eq!(entries, vec![e(-3, true)]);
    assert!(missing);
    // The current picture itself does not count, and an empty DPB has nothing.
    let (entries, missing) = conceal_rps(&[e(-1, true)], 10, 16, &[10]);
    assert!(entries.is_empty());
    assert!(missing);
    let (entries, missing) = conceal_rps(&[e(-1, true)], 10, 16, &[]);
    assert!(entries.is_empty());
    assert!(missing);
}

/// A 4-bit POC lsb stream's SPS, with nothing optional.
fn sps_nal() -> Vec<u8> {
    let mut w = BitWriter::default();
    w.put(4, 0);
    w.put(3, 0);
    w.put(1, 1);
    w.put(8, 1);
    w.put(32, 0x6000_0000);
    w.put(4, 9);
    w.put(32, 0);
    w.put(12, 0);
    w.put(8, 93);
    w.put_ue(0);
    w.put_ue(1);
    w.put_ue(64);
    w.put_ue(64);
    w.put_flag(false);
    w.put_ue(0);
    w.put_ue(0);
    w.put_ue(0); // 4-bit POC lsb
    w.put_flag(true);
    for _ in 0..9 {
        w.put_ue(1);
    }
    for _ in 0..4 {
        w.put_flag(false);
    }
    w.put_ue(0);
    w.put_flag(false);
    w.put_flag(false);
    finish(33, w, &[])
}

fn pps_nal(tiles: bool) -> Vec<u8> {
    let mut w = BitWriter::default();
    w.put_ue(0);
    w.put_ue(0);
    w.put(7, 0);
    w.put_ue(0);
    w.put_ue(0);
    w.put_ue(0);
    w.put(3, 0);
    w.put_ue(0);
    w.put_ue(0);
    w.put(4, 0);
    w.put_flag(tiles);
    w.put(5, 0);
    w.put_ue(0);
    w.put_flag(false);
    finish(34, w, &[])
}

fn finish(ty: u8, mut w: BitWriter, payload: &[u8]) -> Vec<u8> {
    w.put_flag(true);
    while !w.byte_aligned() {
        w.put_flag(false);
    }
    let mut rbsp = w.into_bytes();
    rbsp.extend_from_slice(payload);
    let mut nal = vec![ty << 1, 0x01];
    nal.extend_from_slice(&escape_rbsp(&rbsp));
    nal
}

fn idr_nal() -> Vec<u8> {
    let mut w = BitWriter::default();
    w.put_flag(true);
    w.put_flag(false);
    w.put_ue(0);
    w.put_ue(2);
    w.put_ue(0);
    finish(19, w, &[0x5A])
}

fn p_nal(poc: u32, entries: &[(u32, bool)], payload: &[u8]) -> Vec<u8> {
    let mut w = BitWriter::default();
    w.put_flag(true);
    w.put_ue(0);
    w.put_ue(1);
    w.put(4, poc);
    w.put_flag(false);
    w.put_ue(entries.len() as u32);
    w.put_ue(0);
    for &(minus1, used) in entries {
        w.put_ue(minus1);
        w.put_flag(used);
    }
    w.put_flag(false);
    w.put_ue(0);
    w.put_ue(0);
    finish(1, w, payload)
}

fn annex_b(nals: &[&[u8]]) -> Vec<u8> {
    let mut out = Vec::new();
    for nal in nals {
        out.extend_from_slice(&[0, 0, 0, 1]);
        out.extend_from_slice(nal);
    }
    out
}

fn prefixed(nals: &[&[u8]]) -> Vec<u8> {
    let mut out = Vec::new();
    for nal in nals {
        out.extend_from_slice(&(nal.len() as u32).to_be_bytes());
        out.extend_from_slice(nal);
    }
    out
}

const VPS: [u8; 3] = [0x40, 0x01, 0x0C];

fn keyframe() -> Vec<u8> {
    annex_b(&[&VPS, &sps_nal(), &pps_nal(false), &idr_nal()])
}

fn decoder_after_keyframe(conceal_missing_references: bool) -> HevcDecoder {
    let mut decoder = HevcDecoder::new(&DecoderConfig {
        conceal_missing_references,
    });
    let sets = decoder.session_request(&keyframe()).unwrap();
    assert_eq!(decoder.session_created(sets), None);
    let submission = decoder.prepare(&keyframe()).unwrap();
    assert!(decoder.finish(submission, Ok(picture())).is_ok());
    decoder
}

#[test]
fn concealment_is_on_by_default() {
    assert!(DecoderConfig::default().conceal_missing_references);
}

#[test]
fn inter_frames_wait_for_a_keyframe() {
    let mut decoder = HevcDecoder::new(&DecoderConfig::default());
    let inter = annex_b(&[&p_nal(1, &[(0, true)], &[0x11])]);
    assert!(decoder.session_request(&inter).is_none());
    assert!(matches!(
        decoder.prepare(&inter),
        Err(DecodeError::MissingKeyframe)
    ));
    let sets = decoder.session_request(&keyframe()).unwrap();
    assert_eq!(
        sets,
        ParameterSets {
            vps: VPS.to_vec(),
            sps: sps_nal(),
            pps: pps_nal(false),
        }
    );
    assert_eq!(decoder.session_created(sets), None);
    // A session alone does not end the wait.
    assert!(decoder.prepare(&inter).is_err());
    let submission = decoder.prepare(&keyframe()).unwrap();
    assert!(submission.is_keyframe);
    assert_eq!(submission.data, prefixed(&[&idr_nal()]));
    assert_eq!(submission.dpb_after_decode, Some(vec![0]));
    let decoded = decoder.finish(submission, Ok(picture())).unwrap();
    assert!(decoded.is_keyframe);
    assert!(!decoder.is_waiting_for_keyframe());
    // The same parameter sets need no new session.
    assert!(decoder.session_request(&keyframe()).is_none());
    assert!(decoder.prepare(&inter).is_ok());
}

#[test]
fn a_slice_with_all_references_is_submitted_as_it_is() {
    let mut decoder = decoder_after_keyframe(true);
    let slice = p_nal(1, &[(0, true)], &[0x11, 0x00, 0x00, 0x02]);
    let submission = decoder.prepare(&annex_b(&[&slice])).unwrap();
    assert_eq!(submission.data, prefixed(&[&slice]));
    assert!(submission.repairs.is_empty());
    assert_eq!(submission.dpb_after_decode, Some(vec![0, 1]));
    let decoded = decoder.finish(submission, Ok(picture())).unwrap();
    assert!(!decoded.is_keyframe);
    assert_eq!(decoder.decoded_poc_lsbs(), [0, 1]);
}

#[test]
fn a_missing_reference_is_repaired() {
    let mut decoder = decoder_after_keyframe(true);
    // Predicts from POC 2, which was lost, and keeps POC 1 alive.
    let slice = p_nal(3, &[(0, true), (0, false)], &[0x33, 0x44]);
    let sei: [u8; 3] = [39 << 1, 0x01, 0x99];
    let submission = decoder.prepare(&annex_b(&[&sei, &slice])).unwrap();
    assert_eq!(
        submission.repairs,
        vec![Repair {
            poc: 3,
            kept: 1,
            total: 2,
            concealed: true,
        }]
    );
    let repaired = p_nal(3, &[(2, true)], &[0x33, 0x44]);
    assert_eq!(submission.data, prefixed(&[&sei, &repaired]));
    assert_eq!(submission.dpb_after_decode, Some(vec![0, 3]));
    assert!(decoder.finish(submission, Ok(picture())).is_ok());
    assert_eq!(decoder.decoded_poc_lsbs(), [0, 3]);
}

#[test]
fn without_concealment_slices_are_untouched() {
    let mut decoder = decoder_after_keyframe(false);
    assert!(!decoder.repairs_slices());
    let slice = p_nal(3, &[(0, true), (0, false)], &[0x33, 0x44]);
    let submission = decoder.prepare(&annex_b(&[&slice])).unwrap();
    assert_eq!(submission.data, prefixed(&[&slice]));
    assert!(submission.repairs.is_empty());
    assert_eq!(submission.dpb_after_decode, None);
    assert!(decoder.finish(submission, Ok(picture())).is_ok());
    assert!(decoder.decoded_poc_lsbs().is_empty());
}

#[test]
fn pictures_of_several_slices_are_not_repaired() {
    let decoder = decoder_after_keyframe(true);
    let slice = p_nal(3, &[(0, true)], &[0x33]);
    let submission = decoder.prepare(&annex_b(&[&slice, &slice])).unwrap();
    assert_eq!(submission.data, prefixed(&[&slice, &slice]));
    assert!(submission.repairs.is_empty());
    assert_eq!(submission.dpb_after_decode, Some(vec![2, 3]));
}

#[test]
fn a_slice_with_nothing_to_stand_in_is_submitted_as_it_is() {
    let mut decoder = decoder_after_keyframe(true);
    // An access unit without a slice leaves no picture behind.
    let sei: [u8; 3] = [39 << 1, 0x01, 0x99];
    let submission = decoder.prepare(&annex_b(&[&sei])).unwrap();
    assert!(decoder.finish(submission, Ok(picture())).is_ok());
    assert!(decoder.decoded_poc_lsbs().is_empty());
    let slice = p_nal(3, &[(0, true)], &[0x33]);
    let submission = decoder.prepare(&annex_b(&[&slice])).unwrap();
    assert_eq!(submission.data, prefixed(&[&slice]));
    assert!(submission.repairs.is_empty());
}

#[test]
fn a_failed_frame_waits_for_a_keyframe() {
    let mut decoder = decoder_after_keyframe(true);
    let inter = annex_b(&[&p_nal(1, &[(0, true)], &[0x11])]);
    let submission = decoder.prepare(&inter).unwrap();
    let failed = decoder.finish(submission, Err("bad data".to_string()));
    assert!(matches!(failed, Err(DecodeError::Frame(msg)) if msg == "bad data"));
    assert!(matches!(
        decoder.prepare(&inter),
        Err(DecodeError::MissingKeyframe)
    ));
    // The session stays, and a keyframe ends the wait.
    assert!(decoder.session_request(&keyframe()).is_none());
    let submission = decoder.prepare(&keyframe()).unwrap();
    assert!(decoder.finish(submission, Ok(picture())).is_ok());
    assert!(decoder.prepare(&inter).is_ok());
}

#[test]
fn a_reset_decoder_starts_over() {
    let mut decoder = decoder_after_keyframe(true);
    decoder.reset();
    assert!(decoder.is_waiting_for_keyframe());
    assert!(decoder.decoded_poc_lsbs().is_empty());
    assert!(decoder.session_request(&keyframe()).is_some());
    assert!(decoder.prepare(&keyframe()).is_err());
}

#[test]
fn unsupported_parameter_sets_disable_the_repair_only() {
    let mut decoder = HevcDecoder::new(&DecoderConfig::default());
    let sets = ParameterSets {
        vps: VPS.to_vec(),
        sps: sps_nal(),
        pps: pps_nal(true),
    };
    assert_eq!(
        decoder.session_created(sets.clone()),
        Some(HevcError::TiledPps)
    );
    assert!(!decoder.repairs_slices());
    let short = ParameterSets {
        sps: vec![0x42],
        ..sets.clone()
    };
    assert_eq!(decoder.session_created(short), Some(HevcError::SpsTooShort));
    // New parameter sets ask for a new session.
    assert!(decoder.session_request(&keyframe()).is_some());
    let mut plain = HevcDecoder::new(&DecoderConfig {
        conceal_missing_references: false,
    });
    assert_eq!(plain.session_created(sets), None);
}

#[test]
fn decode_outputs_are_resolved() {
    let ok = decode_output(Ok(()), Some(Ok(picture())));
    assert_eq!(ok, Ok(picture()));
    let refused = decode_output(Err("submit failed".to_string()), Some(Ok(picture())));
    assert_eq!(refused, Err("submit failed".to_string()));
    let failed = decode_output(Ok(()), Some(Err("status".to_string())));
    assert_eq!(failed, Err("status".to_string()));
    assert_eq!(
        decode_output(Ok(()), None),
        Err("decode callback produced no result".to_string())
    );
}

#[test]
fn repair_warnings_are_emitted_once_a_second() {
    let second: u64 = 1_000_000_000;
    let mut log = RepairLog::new();
    assert_eq!(log.note(5 * second), Some(0));
    assert_eq!(log.note(5 * second + 1), None);
    assert_eq!(log.note(6 * second - 1), None);
    assert_eq!(log.note(6 * second), Some(2));
    assert_eq!(log.note(5 * second), None);
    assert_eq!(log.note(8 * second), Some(1));
    assert!(log.is_recent(8 * second));
    assert!(!log.is_recent(9 * second));
    assert!(!RepairLog::new().is_recent(0));
    // A full counter is reset by the next warning.
    let mut full = RepairLog {
        last: Some(0),
        suppressed: u32::MAX,
    };
    assert_eq!(full.note(second), Some(u32::MAX));
    assert_eq!(full.suppressed, 0);
}

#[test]
fn repaired_slices_name_only_decoded_pictures() {
    let decoder = decoder_after_keyframe(true);
    assert!(decoder.repairs_slices());
    let sps: SpsInfo = parse_sps(&sps_nal()).unwrap();
    let pps: PpsInfo = parse_pps(&pps_nal(false)).unwrap();
    let slice = p_nal(9, &[(1, true), (3, true), (0, false)], &[0x77]);
    let submission = decoder.prepare(&annex_b(&[&slice])).unwrap();
    let info = parse_slice(&submission.data[4..], &sps, &pps).unwrap();
    assert_eq!(info.poc_lsb, Some(9));
    // The keyframe is the newest picture, and the slice predicts from it.
    assert_eq!(info.rps, vec![e(-9, true)]);
}

#[test]
fn keyframes_carry_parameter_sets_in_band() {
    let sps = sps_nal();
    let pps = pps_nal(false);
    let sets: [&[u8]; 3] = [&VPS, &sps, &pps];
    let data = prefixed(&[&idr_nal()]);
    let frame = build_encoded_frame(true, &sets, &data).unwrap();
    assert!(frame.is_keyframe);
    assert_eq!(frame.annex_b, keyframe());
    let nals = annex_b_nal_units(&frame.annex_b);
    let found = parameter_sets_from_nals(&nals).unwrap();
    assert_eq!(found.vps, VPS.to_vec());
    assert_eq!(found.sps, sps);
    assert_eq!(found.pps, pps);
    let inter = build_encoded_frame(false, &sets, &data).unwrap();
    assert_eq!(inter.annex_b, annex_b(&[&idr_nal()]));
    assert!(!inter.is_keyframe);
    assert_eq!(
        build_encoded_frame(true, &sets, &[0, 0, 0]),
        Err(HevcError::TruncatedLengthPrefix { trailing: 3 })
    );
}

/// Plan a frame that has enough bytes, and let the session take it.
fn take_frame(encoder: &mut HevcEncoder, force_keyframe: bool) -> FramePlan {
    let plan = encoder.plan_frame(1000, force_keyframe).unwrap();
    encoder.submitted(plan);
    plan
}

#[test]
fn keyframes_come_at_the_interval() {
    let mut encoder = HevcEncoder::new(2, 1, 1_000_000, 3);
    let mut forced = Vec::new();
    for i in 0..10 {
        let plan = take_frame(&mut encoder, false);
        assert_eq!(plan.pts, i);
        forced.push(plan.force_keyframe);
    }
    assert_eq!(
        forced,
        vec![false, false, false, true, false, false, true, false, false, true]
    );
    // Asking for one restarts the count.
    assert!(take_frame(&mut encoder, true).force_keyframe);
    assert!(!take_frame(&mut encoder, false).force_keyframe);
    encoder.set_keyframe_interval(2);
    assert!(take_frame(&mut encoder, false).force_keyframe);
    encoder.set_keyframe_interval(0);
    assert!(take_frame(&mut encoder, false).force_keyframe);
}

#[test]
fn a_new_resolution_starts_with_a_keyframe() {
    let mut encoder = HevcEncoder::new(2, 1, 1_000_000, 30);
    assert!(!encoder.needs_session(2, 1));
    assert!(encoder.needs_session(2, 2));
    assert!(encoder.needs_session(1, 1));
    assert_eq!(take_frame(&mut encoder, false).pts, 0);
    encoder.session_created(2, 2);
    assert!(!encoder.needs_session(2, 2));
    assert_eq!(
        take_frame(&mut encoder, false),
        FramePlan {
            force_keyframe: true,
            pts: 0,
        }
    );
    assert_eq!(
        take_frame(&mut encoder, false),
        FramePlan {
            force_keyframe: false,
            pts: 1,
        }
    );
    encoder.set_bitrate(2_000_000);
    assert_eq!(encoder.average_bitrate_bps, 2_000_000);
}

#[test]
fn too_little_input_is_refused() {
    let encoder = HevcEncoder::new(2, 2, 1, 1);
    assert_eq!(
        encoder.plan_frame(15, false),
        Err(EncodeError::InputTooSmall {
            given: 15,
            needed: 16,
        })
    );
    assert_eq!(
        encoder.plan_frame(16, false),
        Ok(FramePlan {
            force_keyframe: false,
            pts: 0,
        })
    );
}

#[test]
fn a_refused_frame_leaves_the_keyframe_due() {
    let mut encoder = HevcEncoder::new(2, 1, 1_000_000, 30);
    encoder.session_created(2, 2);
    // Too few bytes, and then a frame that the session does not take.
    assert!(encoder.plan_frame(15, false).is_err());
    assert!(encoder.plan_frame(16, false).unwrap().force_keyframe);
    assert_eq!(
        take_frame(&mut encoder, false),
        FramePlan {
            force_keyframe: true,
            pts: 0,
        }
    );
    // The same for a keyframe that the interval makes due.
    encoder.set_keyframe_interval(1);
    assert!(encoder.plan_frame(15, false).is_err());
    assert!(take_frame(&mut encoder, false).force_keyframe);
}

#[test]
fn retained_lsbs_wrap_around() {
    let mut decoder = decoder_after_keyframe(true);
    for slice in [p_nal(14, &[], &[0x21]), p_nal(15, &[(0, true)], &[0x21])] {
        let submission = decoder.prepare(&annex_b(&[&slice])).unwrap();
        assert!(decoder.finish(submission, Ok(picture())).is_ok());
    }
    assert_eq!(decoder.decoded_poc_lsbs(), [14, 15]);
    let slice = p_nal(0, &[(0, true), (0, false)], &[0x21]);
    let submission = decoder.prepare(&annex_b(&[&slice])).unwrap();
    assert_eq!(submission.data, prefixed(&[&slice]));
    assert_eq!(submission.dpb_after_decode, Some(vec![15, 14, 0]));
}

#[test]
fn a_full_reference_set_stays_expressible() {
    // Sixteen references, of which only the oldest is there, unused.
    let rps: Vec<RpsEntry> = (1..17).map(|i| e(-i, i < 16)).collect();
    let (entries, missing) = conceal_rps(&rps, 20, 64, &[4, 2]);
    assert!(missing);
    assert_eq!(entries, vec![e(-16, true)]);
    // Fifteen are there and the newest used one is not.
    let decoded: Vec<u32> = (4..19).collect();
    let (entries, missing) = conceal_rps(&rps, 20, 64, &decoded);
    assert!(missing);
    assert_eq!(entries.len(), 15);
    assert_eq!(entries[0], e(-2, true));
}
