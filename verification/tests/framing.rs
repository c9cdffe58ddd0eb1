use macos_media_toolkit::hevc::{
    annex_b_nal_units, is_irap, is_parameter_set, length_prefixed_to_annex_b, nal_unit_type,
    nals_contain_keyframe, parameter_sets_from_nals, HevcError, NAL_TYPE_PPS, NAL_TYPE_SPS,
    NAL_TYPE_VPS,
};

#[test]
fn nal_types_come_from_the_first_byte() {
    assert_eq!(nal_unit_type(&[0x40, 0x01]), Some(NAL_TYPE_VPS));
    assert_eq!(nal_unit_type(&[0x42]), Some(NAL_TYPE_SPS));
    assert_eq!(nal_unit_type(&[0x44]), Some(NAL_TYPE_PPS));
    assert_eq!(nal_unit_type(&[0xFF]), Some(63));
    assert_eq!(nal_unit_type(&[]), None);
}

#[test]
fn irap_types_are_16_to_23() {
    assert!(!is_irap(15));
    assert!(is_irap(16));
    assert!(is_irap(23));
    assert!(!is_irap(24));
}

#[test]
fn parameter_sets_are_vps_sps_and_pps() {
    assert!(is_parameter_set(&[32 << 1]));
    assert!(is_parameter_set(&[33 << 1]));
    assert!(is_parameter_set(&[34 << 1]));
    assert!(!is_parameter_set(&[35 << 1]));
    assert!(!is_parameter_set(&[31 << 1]));
    assert!(!is_parameter_set(&[]));
}

#[test]
fn keyframes_are_found_among_nals() {
    let idr: &[u8] = &[19 << 1, 1];
    let trail: &[u8] = &[1 << 1, 1];
    let empty: &[u8] = &[];
    assert!(nals_contain_keyframe(&[trail, idr]));
    assert!(!nals_contain_keyframe(&[trail, trail, empty]));
    assert!(!nals_contain_keyframe(&[]));
}

#[test]
fn splits_both_start_codes() {
    let data = [0, 0, 0, 1, 7, 8, 0, 0, 1, 9, 0, 0, 0, 1, 5];
    let units = annex_b_nal_units(&data);
    assert_eq!(units, vec![&[7u8, 8][..], &[9][..], &[5][..]]);
}

#[test]
fn splitting_drops_empty_units_and_leading_bytes() {
    let data = [9, 9, 0, 0, 1, 0, 0, 1, 4, 0, 0, 1];
    assert_eq!(annex_b_nal_units(&data), vec![&[4u8][..]]);
    assert!(annex_b_nal_units(&[1, 2, 3]).is_empty());
    assert!(annex_b_nal_units(&[]).is_empty());
    assert!(annex_b_nal_units(&[0, 0]).is_empty());
}

#[test]
fn a_zero_before_a_start_code_belongs_to_it() {
    // One trailing zero goes to the start code, a second one stays.
    let data = [0, 0, 1, 7, 0, 0, 0, 0, 1, 8, 0];
    assert_eq!(annex_b_nal_units(&data), vec![&[7u8, 0][..], &[8][..]]);
}

#[test]
fn length_prefixes_become_start_codes() {
    let data = [0, 0, 0, 2, 7, 8, 0, 0, 0, 0, 0, 0, 0, 1, 9];
    let mut out = vec![42];
    assert_eq!(length_prefixed_to_annex_b(&data, &mut out), Ok(()));
    assert_eq!(out, vec![42, 0, 0, 0, 1, 7, 8, 0, 0, 0, 1, 0, 0, 0, 1, 9]);
    let mut none = Vec::new();
    assert_eq!(length_prefixed_to_annex_b(&[], &mut none), Ok(()));
    assert!(none.is_empty());
}

#[test]
fn truncated_length_prefixes_are_reported() {
    let mut out = Vec::new();
    assert_eq!(
        length_prefixed_to_annex_b(&[0, 0, 0, 1, 5, 0, 0], &mut out),
        Err(HevcError::TruncatedLengthPrefix { trailing: 2 })
    );
    // The complete unit before it was converted.
    assert_eq!(out, vec![0, 0, 0, 1, 5]);
    let mut out = Vec::new();
    assert_eq!(
        length_prefixed_to_annex_b(&[0, 0, 1, 2, 5, 6], &mut out),
        Err(HevcError::TruncatedNalUnit {
            available: 2,
            announced: 258,
        })
    );
    assert!(out.is_empty());
}

#[test]
fn repackaged_units_split_again() {
    let units: [&[u8]; 3] = [&[0x40, 1, 0], &[0x26, 0, 0, 3, 1], &[1]];
    let mut prefixed = Vec::new();
    for unit in units {
        prefixed.extend_from_slice(&(unit.len() as u32).to_be_bytes());
        prefixed.extend_from_slice(unit);
    }
    let mut annex_b = Vec::new();
    length_prefixed_to_annex_b(&prefixed, &mut annex_b).unwrap();
    assert_eq!(annex_b_nal_units(&annex_b), units.to_vec());
}

#[test]
fn the_last_parameter_set_of_each_type_counts() {
    let vps: &[u8] = &[0x40, 1, 1];
    let sps: &[u8] = &[0x42, 1, 2];
    let pps: &[u8] = &[0x44, 1, 3];
    let pps2: &[u8] = &[0x44, 1, 4];
    let slice: &[u8] = &[0x26, 1];
    let sets = parameter_sets_from_nals(&[vps, pps, sps, pps2, slice]).unwrap();
    assert_eq!(sets.vps, vps);
    assert_eq!(sets.sps, sps);
    assert_eq!(sets.pps, pps2);
    assert!(parameter_sets_from_nals(&[vps, sps, slice]).is_none());
    assert!(parameter_sets_from_nals(&[]).is_none());
}
