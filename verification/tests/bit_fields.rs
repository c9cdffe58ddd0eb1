use macos_media_toolkit::hevc::bits::{bit_length, BitReader, BitWriter};
use macos_media_toolkit::hevc::emulation::{escape_rbsp, unescape_rbsp};
use macos_media_toolkit::hevc::HevcError;

#[test]
fn fields_read_back_as_written() {
    let mut w = BitWriter::default();
    w.put(3, 5);
    w.put(32, 0xDEAD_BEEF);
    w.put_ue(0);
    w.put_ue(1);
    w.put_ue(4_294_967_294);
    w.put_flag(true);
    w.put(0, 7);
    w.put(9, 300);
    let data = w.into_bytes();
    let mut r = BitReader::new(&data);
    assert_eq!(r.u(3), Ok(5));
    assert_eq!(r.u(32), Ok(0xDEAD_BEEF));
    assert_eq!(r.ue(), Ok(0));
    assert_eq!(r.ue(), Ok(1));
    assert_eq!(r.ue(), Ok(4_294_967_294));
    assert_eq!(r.flag(), Ok(true));
    assert_eq!(r.u(0), Ok(0));
    assert_eq!(r.u(9), Ok(300));
}

#[test]
fn exp_golomb_codes_have_their_exact_bits() {
    let mut w = BitWriter::default();
    w.put_ue(0); // 1
    w.put_ue(1); // 010
    w.put_ue(2); // 011
    assert!(!w.byte_aligned());
    w.put(1, 0);
    assert!(w.byte_aligned());
    w.put_ue(6); // 00111
    w.put(3, 0);
    assert_eq!(w.into_bytes(), vec![0b1010_0110, 0b0011_1000]);
}

#[test]
fn put_keeps_only_the_low_bits() {
    let mut w = BitWriter::default();
    w.put(4, 0xFA);
    w.put(4, 0x05);
    assert_eq!(w.into_bytes(), vec![0xA5]);
}

#[test]
fn signed_codes_alternate() {
    let mut w = BitWriter::default();
    for k in 0..6 {
        w.put_ue(k);
    }
    w.put_ue(4_294_967_293);
    w.put_ue(4_294_967_294);
    let data = w.into_bytes();
    let mut r = BitReader::new(&data);
    assert_eq!(r.se(), Ok(0));
    assert_eq!(r.se(), Ok(1));
    assert_eq!(r.se(), Ok(-1));
    assert_eq!(r.se(), Ok(2));
    assert_eq!(r.se(), Ok(-2));
    assert_eq!(r.se(), Ok(3));
    assert_eq!(r.se(), Ok(2_147_483_647));
    assert_eq!(r.se(), Ok(-2_147_483_647));
}

#[test]
fn reads_fail_past_the_end_or_on_bad_codes() {
    let data = [0xFF];
    let mut r = BitReader::new(&data);
    assert_eq!(r.u(33), Err(HevcError::BitReadTooWide));
    assert!(r.byte_aligned());
    assert_eq!(r.u(5), Ok(31));
    assert!(!r.byte_aligned());
    assert_eq!(r.u(4), Err(HevcError::BitstreamExhausted));
    let zeros = [0u8; 5];
    let mut r = BitReader::new(&zeros);
    assert_eq!(r.ue(), Err(HevcError::UePrefixTooLong));
    let short = [0u8; 3];
    let mut r = BitReader::new(&short);
    assert_eq!(r.ue(), Err(HevcError::BitstreamExhausted));
}

#[test]
fn bit_lengths() {
    assert_eq!(bit_length(0), 0);
    assert_eq!(bit_length(1), 1);
    assert_eq!(bit_length(255), 8);
    assert_eq!(bit_length(256), 9);
    assert_eq!(bit_length(u32::MAX), 32);
}

#[test]
fn copied_bits_are_the_source_bits() {
    let data = [0b1100_1010, 0b0111_0001];
    let start = BitReader::new(&data);
    let mut end = start;
    let mut from = start;
    assert_eq!(from.u(3), Ok(0b110));
    assert_eq!(end.u(13), Ok(0b1_1001_0100_1110));
    let mut w = BitWriter::default();
    w.put_flag(true);
    w.put_copied(from, end);
    w.put(5, 0);
    assert_eq!(w.into_bytes(), vec![0b1010_1001, 0b1100_0000]);
}

#[test]
fn emulation_prevention_bytes_are_inserted() {
    assert_eq!(escape_rbsp(&[0, 0, 1]), vec![0, 0, 3, 1]);
    assert_eq!(escape_rbsp(&[0, 0, 0]), vec![0, 0, 3, 0]);
    assert_eq!(escape_rbsp(&[0, 0, 3]), vec![0, 0, 3, 3]);
    assert_eq!(escape_rbsp(&[0, 0, 4]), vec![0, 0, 4]);
    assert_eq!(escape_rbsp(&[0, 0, 0, 0, 0]), vec![0, 0, 3, 0, 0, 3, 0]);
    assert_eq!(escape_rbsp(&[0, 0]), vec![0, 0]);
    assert_eq!(escape_rbsp(&[]), Vec::<u8>::new());
}

#[test]
fn emulation_prevention_bytes_are_removed() {
    assert_eq!(unescape_rbsp(&[0, 0, 3, 1]), vec![0, 0, 1]);
    assert_eq!(unescape_rbsp(&[0, 0, 3, 3]), vec![0, 0, 3]);
    assert_eq!(unescape_rbsp(&[0, 0, 0, 3, 0]), vec![0, 0, 0, 0]);
    assert_eq!(unescape_rbsp(&[0, 3, 0, 0, 3]), vec![0, 3, 0, 0]);
    assert_eq!(unescape_rbsp(&[1, 2, 3]), vec![1, 2, 3]);
}

#[test]
fn unescaping_undoes_escaping() {
    let data = [0, 0, 0, 3, 0, 0, 1, 0, 0, 2, 9, 0, 0, 0, 0, 0, 0, 0, 3, 3];
    let escaped = escape_rbsp(&data);
    assert_eq!(unescape_rbsp(&escaped), data.to_vec());
    for w in escaped.windows(3) {
        assert!(!(w[0] == 0 && w[1] == 0 && w[2] < 3));
    }
}

#[test]
fn escaping_keeps_the_last_byte() {
    assert_eq!(escape_rbsp(&[5, 0, 0, 0]).last(), Some(&0));
    // Three zeros end in a single one behind the inserted byte.
    assert_eq!(escape_rbsp(&[5, 0, 0, 0]), vec![5, 0, 0, 3, 0]);
    assert_eq!(escape_rbsp(&[0, 0, 0x80]), vec![0, 0, 0x80]);
}

#[test]
fn readers_know_where_they_are() {
    let data = [0xF0, 0x0F];
    let mut r = BitReader::new(&data);
    let start = r;
    assert!(r.byte_aligned() && r.at_position_of(&start));
    assert_eq!((r.bits_to_byte(), r.byte_index()), (0, 0));
    r.u(3).unwrap();
    assert!(!r.byte_aligned() && !r.at_position_of(&start));
    assert_eq!((r.bits_to_byte(), r.byte_index()), (5, 0));
    r.u(13).unwrap();
    assert_eq!((r.bits_to_byte(), r.byte_index()), (0, 2));
}
