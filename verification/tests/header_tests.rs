use lha_header::header::{read_u16, read_u32, read_u64, wrapping_csum};
use lha_header::{Crc16, LhaHeader, ParseError};

fn base_bytes(level: u8, compressed: u32, original: u32, time: u32, attrs: u8) -> Vec<u8> {
    let mut b = Vec::new();
    b.extend_from_slice(b"-lh5-");
    b.extend_from_slice(&compressed.to_le_bytes());
    b.extend_from_slice(&original.to_le_bytes());
    b.extend_from_slice(&time.to_le_bytes());
    b.push(attrs);
    b.push(level);
    b
}

#[test]
fn end_of_archive_marker_yields_none() {
    assert!(LhaHeader::read(&[0x00]).unwrap().is_none());
}

#[test]
fn empty_input_yields_none() {
    assert!(LhaHeader::read(&[]).unwrap().is_none());
}

#[test]
fn crc16_has_the_arc_check_value() {
    let mut crc = Crc16::new();
    crc.digest(b"123456789");
    assert_eq!(0xBB3D, crc.sum16());
}

#[test]
fn wrapping_csum_wraps() {
    assert_eq!(1, wrapping_csum(0, &[0xFF, 0x02]));
    assert_eq!(10, wrapping_csum(4, &[1, 2, 3]));
}

#[test]
fn fixed_width_reads_check_lengths() {
    assert_eq!(Some(0x0201), read_u16(&[1, 2]));
    assert_eq!(None, read_u16(&[1, 2, 3]));
    assert_eq!(Some(0x04030201), read_u32(&[1, 2, 3, 4]));
    assert_eq!(None, read_u32(&[1, 2, 3]));
    assert_eq!(Some(0x0807060504030201), read_u64(&[1, 2, 3, 4, 5, 6, 7, 8]));
    assert_eq!(None, read_u64(&[1, 2, 3, 4, 5, 6, 7]));
}

#[test]
fn level0_header_parses() {
    let mut d = vec![25u8, 0];
    d.extend(base_bytes(0, 11, 22, 0x12345678, 0x20));
    d.push(3);
    d.extend_from_slice(b"foo");
    d.extend_from_slice(&0xABCDu16.to_le_bytes());
    let cs = wrapping_csum(0, &d[2..]);
    d[1] = cs;
    let (h, n) = LhaHeader::read(&d).unwrap().unwrap();
    assert_eq!(27, n);
    assert_eq!(0, h.level);
    assert_eq!(*b"-lh5-", h.compression);
    assert_eq!(11, h.compressed_size);
    assert_eq!(22, h.original_size);
    assert_eq!(0x12345678, h.last_modified);
    assert_eq!(0x20, h.msdos_attrs);
    assert_eq!(b"foo".to_vec(), h.filename);
    assert_eq!(0xABCD, h.file_crc);
    assert_eq!(0, h.os_type);
    assert!(h.extended_area.is_empty());
    assert_eq!(0, h.first_header_len);
    assert!(h.extra_headers.is_empty());
}

#[test]
fn level0_extended_area_holds_os_type() {
    let mut d = vec![27u8, 0];
    d.extend(base_bytes(0, 1, 2, 3, 4));
    d.push(3);
    d.extend_from_slice(b"foo");
    d.extend_from_slice(&0x0102u16.to_le_bytes());
    d.push(0x55); // OS type, first extended byte
    d.push(0xAA); // retained extended area
    let cs = wrapping_csum(0, &d[2..]);
    d[1] = cs;
    let (h, n) = LhaHeader::read(&d).unwrap().unwrap();
    assert_eq!(29, n);
    assert_eq!(0x55, h.os_type);
    assert_eq!(vec![0xAA], h.extended_area);
}

#[test]
fn level1_header_adjusts_skip_size_and_reads_attrs() {
    let mut d = vec![28u8, 0];
    d.extend(base_bytes(1, 11, 22, 1, 0));
    d.push(3);
    d.extend_from_slice(b"foo");
    d.extend_from_slice(&0x1122u16.to_le_bytes());
    d.push(0x4D); // OS type
    d.extend_from_slice(&5u16.to_le_bytes()); // first extra header length
    let cs = wrapping_csum(0, &d[2..]);
    d[1] = cs;
    d.extend_from_slice(&[0x40, 0x34, 0x12, 0x00, 0x00]); // MS-DOS attrs record
    let (h, n) = LhaHeader::read(&d).unwrap().unwrap();
    assert_eq!(35, n);
    assert_eq!(1, h.level);
    assert_eq!(0x4D, h.os_type);
    assert_eq!(0x1234, h.msdos_attrs);
    assert_eq!(6, h.compressed_size); // 11 minus 5 extra-header bytes
    assert_eq!(5, h.first_header_len);
    let mut it = h.iter_extra();
    assert_eq!(Some(&[0x40u8, 0x34, 0x12][..]), it.next());
    assert_eq!(None, it.next());
}

fn level2_with_common_and_size(corrupt_crc: bool) -> Vec<u8> {
    let long: u16 = 50;
    let mut d = long.to_le_bytes().to_vec();
    d.extend(base_bytes(2, 11, 22, 5, 0x10));
    d.extend_from_slice(&0x7777u16.to_le_bytes()); // file CRC
    d.push(0x55); // OS type
    d.extend_from_slice(&5u16.to_le_bytes()); // first extra header length
    d.extend_from_slice(&[0x00, 0, 0]); // Common record, CRC field zeroed
    d.extend_from_slice(&19u16.to_le_bytes()); // next record length
    d.push(0x42); // MS-DOS size record
    d.extend_from_slice(&1_000_000_000_000u64.to_le_bytes());
    d.extend_from_slice(&2_000_000_000_000u64.to_le_bytes());
    d.extend_from_slice(&0u16.to_le_bytes()); // end of chain
    assert_eq!(50, d.len());
    let mut crc = Crc16::new();
    crc.digest(&d);
    let mut v = crc.sum16();
    if corrupt_crc {
        v ^= 1;
    }
    let vb = v.to_le_bytes();
    d[27] = vb[0];
    d[28] = vb[1];
    d
}

#[test]
fn level2_header_with_common_and_msdos_size() {
    let d = level2_with_common_and_size(false);
    let (h, n) = LhaHeader::read(&d).unwrap().unwrap();
    assert_eq!(50, n);
    assert_eq!(2, h.level);
    assert_eq!(1_000_000_000_000, h.compressed_size);
    assert_eq!(2_000_000_000_000, h.original_size);
    assert_eq!(0x10, h.msdos_attrs);
    assert_eq!(0x7777, h.file_crc);
    assert_eq!(0x55, h.os_type);
    assert!(h.filename.is_empty());
    let mut it = h.iter_extra();
    // the Common record's CRC field reads back as zeros
    assert_eq!(Some(&[0x00u8, 0, 0][..]), it.next());
    let size_rec = it.next().unwrap();
    assert_eq!(17, size_rec.len());
    assert_eq!(0x42, size_rec[0]);
    assert_eq!(None, it.next());
}

#[test]
fn level2_header_with_wrong_common_crc_is_rejected() {
    let d = level2_with_common_and_size(true);
    assert_eq!(
        ParseError::WrongHeaderCrc16Checksum,
        LhaHeader::read(&d).unwrap_err()
    );
}

fn level2_plain(long: u16, total: usize) -> Vec<u8> {
    let mut d = long.to_le_bytes().to_vec();
    d.extend(base_bytes(2, 7, 8, 9, 0));
    d.extend_from_slice(&0u16.to_le_bytes()); // file CRC
    d.push(0); // OS type
    d.extend_from_slice(&0u16.to_le_bytes()); // no extra headers
    while d.len() < total {
        d.push(0);
    }
    d
}

#[test]
fn level2_padding_byte_is_consumed() {
    let d = level2_plain(27, 27);
    let (h, n) = LhaHeader::read(&d).unwrap().unwrap();
    assert_eq!(27, n);
    assert_eq!(2, h.level);
    // without an MS-DOS size record the 32-bit base sizes are kept
    assert_eq!(7, h.compressed_size);
    assert_eq!(8, h.original_size);
}

#[test]
fn level2_short_long_count_is_tolerated() {
    let d = level2_plain(28, 26);
    let (_, n) = LhaHeader::read(&d).unwrap().unwrap();
    assert_eq!(26, n);
}

#[test]
fn level2_mismatched_long_length_is_rejected() {
    let d = level2_plain(30, 26);
    assert_eq!(
        ParseError::WrongLengthOfHeaders,
        LhaHeader::read(&d).unwrap_err()
    );
}

#[test]
fn level3_header_parses() {
    let mut d = vec![4u8, 0];
    d.extend(base_bytes(3, 7, 8, 9, 0x01));
    d.extend_from_slice(&0x99AAu16.to_le_bytes()); // file CRC
    d.push(0x4D); // OS type
    d.extend_from_slice(&32u32.to_le_bytes()); // long header length
    d.extend_from_slice(&0u32.to_le_bytes()); // no extra headers
    let (h, n) = LhaHeader::read(&d).unwrap().unwrap();
    assert_eq!(32, n);
    assert_eq!(3, h.level);
    assert_eq!(0x99AA, h.file_crc);
    assert_eq!(0x4D, h.os_type);
    assert_eq!(0x01, h.msdos_attrs);
}

#[test]
fn level3_bad_prolog_is_rejected() {
    let mut d = vec![5u8, 0];
    d.extend(base_bytes(3, 7, 8, 9, 0));
    d.extend_from_slice(&0u16.to_le_bytes());
    d.push(0);
    d.extend_from_slice(&32u32.to_le_bytes());
    d.extend_from_slice(&0u32.to_le_bytes());
    assert_eq!(ParseError::InvalidHeader, LhaHeader::read(&d).unwrap_err());
}

#[test]
fn truncated_input_is_rejected() {
    assert_eq!(ParseError::Truncated, LhaHeader::read(&[5]).unwrap_err());
}

#[test]
fn unknown_level_is_rejected() {
    let mut d = vec![10u8, 0];
    d.extend(base_bytes(9, 1, 2, 3, 4));
    assert_eq!(
        ParseError::UnknownHeaderLevel,
        LhaHeader::read(&d).unwrap_err()
    );
}

#[test]
fn short_announced_length_is_rejected() {
    let mut d = vec![5u8, 0];
    d.extend(base_bytes(0, 1, 2, 3, 4));
    d.push(200); // filename longer than the announced header
    assert_eq!(ParseError::WrongHeaderSize, LhaHeader::read(&d).unwrap_err());
}

#[test]
fn wrong_byte_sum_is_rejected() {
    let mut d = vec![25u8, 0];
    d.extend(base_bytes(0, 11, 22, 0x12345678, 0x20));
    d.push(3);
    d.extend_from_slice(b"foo");
    d.extend_from_slice(&0xABCDu16.to_le_bytes());
    let cs = wrapping_csum(0, &d[2..]);
    d[1] = cs ^ 0xFF;
    assert_eq!(
        ParseError::InvalidHeaderLevelChecksum,
        LhaHeader::read(&d).unwrap_err()
    );
}

#[test]
fn undersized_extra_header_is_rejected() {
    let mut d = level2_plain(29, 26);
    let fl = 1u16.to_le_bytes();
    d[24] = fl[0];
    d[25] = fl[1];
    assert_eq!(
        ParseError::WrongExtraHeaderSize,
        LhaHeader::read(&d).unwrap_err()
    );
}

#[test]
fn double_common_record_is_rejected() {
    let long: u16 = 36;
    let mut d = long.to_le_bytes().to_vec();
    d.extend(base_bytes(2, 1, 2, 3, 4));
    d.extend_from_slice(&0u16.to_le_bytes());
    d.push(0);
    d.extend_from_slice(&5u16.to_le_bytes());
    d.extend_from_slice(&[0x00, 0, 0, 5, 0]); // first Common record
    d.extend_from_slice(&[0x00, 0, 0, 0, 0]); // second Common record
    assert_eq!(
        ParseError::DoubleCommonCrc16Header,
        LhaHeader::read(&d).unwrap_err()
    );
}

#[test]
fn level1_extras_larger_than_skip_size_are_rejected() {
    let mut d = vec![25u8, 0];
    d.extend(base_bytes(1, 3, 22, 1, 0));
    d.push(0); // empty filename
    d.extend_from_slice(&0x1122u16.to_le_bytes());
    d.push(0x4D);
    d.extend_from_slice(&5u16.to_le_bytes()); // first extra longer than skip size 3
    let cs = wrapping_csum(0, &d[2..]);
    d[1] = cs;
    d.extend_from_slice(&[0x40, 0x34, 0x12, 0x00, 0x00]);
    assert_eq!(ParseError::WrongHeaderSize, LhaHeader::read(&d).unwrap_err());
}
