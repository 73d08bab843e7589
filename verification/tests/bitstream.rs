//! Bit level and container.

use zenjpegai::bitio::{bits_for_max, BitReader, BitWriter};
use zenjpegai::codec::detect_jpegai;
use zenjpegai::container::{
    join_dependent_regions, join_threads, split_regions, split_threads, Codestream,
    CodestreamWriter, Marker, RegionLayout,
};
use zenjpegai::error::Error;

#[test]
fn bits_for_max_matches_reference_formula() {
    // int(ceil(log2(m + 1)))
    for (m, want) in [
        (0u32, 0u32),
        (1, 1),
        (2, 2),
        (3, 2),
        (4, 3),
        (15, 4),
        (16, 5),
        (65535, 16),
        (65535 + 64 - 64, 16),
    ] {
        assert_eq!(bits_for_max(m), want, "max={m}");
    }
    assert_eq!(bits_for_max(u32::MAX), 32);
}

#[test]
fn ue_roundtrip_and_known_codes() {
    // Known codewords: 0 -> "1", 1 -> "010", 2 -> "011", 3 -> "00100".
    let mut w = BitWriter::new();
    for v in [0u64, 1, 2, 3] {
        w.write_ue(v);
    }
    let bytes = w.finish();
    // 1 010 011 00100 -> 1010 0110 0100 (pad) -> 0xA6 0x40
    assert_eq!(bytes, [0xA6, 0x40]);

    let mut w = BitWriter::new();
    let vals: Vec<u64> = (0..2000).chain([65535, 1 << 20, (1 << 31) - 1]).collect();
    for &v in &vals {
        w.write_ue(v);
    }
    let bytes = w.finish();
    let mut r = BitReader::new(&bytes);
    for &v in &vals {
        assert_eq!(r.read_ue().unwrap(), v);
    }
}

#[test]
fn se_roundtrip() {
    let vals: Vec<i64> = (-300..300).chain([-(1 << 20), 1 << 20]).collect();
    let mut w = BitWriter::new();
    for &v in &vals {
        w.write_se(v);
    }
    let bytes = w.finish();
    let mut r = BitReader::new(&bytes);
    for &v in &vals {
        assert_eq!(r.read_se().unwrap(), v, "v={v}");
    }
}

#[test]
fn fixed_bits_roundtrip_and_eof() {
    let mut w = BitWriter::new();
    w.write_bits(0b101, 3);
    w.write_bits(0xABCD, 16);
    w.write_bits(0xFFFF_FFFF, 32);
    w.write_bits(0, 1);
    let bytes = w.finish();
    let mut r = BitReader::new(&bytes);
    assert_eq!(r.read_bits(3).unwrap(), 0b101);
    assert_eq!(r.read_bits(16).unwrap(), 0xABCD);
    assert_eq!(r.read_bits(32).unwrap(), 0xFFFF_FFFF);
    assert_eq!(r.read_bits(1).unwrap(), 0);
    assert_eq!(r.bytes_consumed(), bytes.len());
    assert!(matches!(r.read_bits(8), Err(Error::UnexpectedEof)));
}

#[test]
fn signed_codes_are_the_known_ones() {
    // 0 -> "1", 1 -> "010", -1 -> "011", 2 -> "00100".
    let mut w = BitWriter::new();
    for v in [0i64, 1, -1, 2] {
        w.write_se(v);
    }
    assert_eq!(w.bit_len(), 12);
    assert_eq!(w.finish(), [0xA6, 0x40]);
}

#[test]
fn reader_counts_and_aligns() {
    let data = [0b1010_0000u8, 0xFF, 0x01];
    let mut r = BitReader::new(&data);
    assert_eq!(r.bits_left(), 24);
    assert!(r.read_bit().unwrap());
    assert_eq!((r.bit_pos(), r.bytes_consumed()), (1, 1));
    r.align();
    assert_eq!(r.bit_pos(), 8);
    assert_eq!(r.remaining_bytes(), &data[1..]);
    assert_eq!(r.read_bits(0).unwrap(), 0);
    assert_eq!(r.read_bits(8).unwrap(), 0xFF);
    assert_eq!(r.bits_left(), 8);
}

#[test]
fn bounded_values_take_the_bits_of_their_maximum() {
    let mut w = BitWriter::new();
    w.write_bounded(5, 9);
    w.write_bounded(0, 0);
    w.write_bit(true);
    assert_eq!(w.bit_len(), 5);
    let bytes = w.finish();
    assert_eq!(bytes, [0b0101_1000]);
    let mut r = BitReader::new(&bytes);
    assert_eq!(r.read_bounded(9).unwrap(), 5);
    assert_eq!(r.read_bounded(0).unwrap(), 0);
    assert!(r.read_bit().unwrap());
}

#[test]
fn detects_soc_pih() {
    assert!(detect_jpegai(&[0xFF, 0x80, 0xFF, 0x82, 0, 0]));
    assert!(!detect_jpegai(&[0xFF, 0x80, 0xFF, 0x83]));
    assert!(!detect_jpegai(&[0xFF, 0x80]));
    assert!(!detect_jpegai(&[]));
    assert!(!detect_jpegai(b"\x89PNG\r\n\x1a\n"));
}

#[test]
fn written_streams_are_detected() {
    let mut w = CodestreamWriter::new();
    w.substream(Marker::Pih, &[9]).unwrap();
    assert!(detect_jpegai(&w.finish()));
}

#[test]
fn container_roundtrip() {
    let pih = [1u8, 2, 3];
    let soz = vec![7u8; 300];
    let mut w = CodestreamWriter::new();
    w.substream(Marker::Pih, &pih).unwrap();
    w.substream(Marker::Soz, &soz).unwrap();
    w.substream(Marker::Sorp, &[]).unwrap();
    let bytes = w.finish();
    let cs = Codestream::parse(&bytes).unwrap();
    assert_eq!(cs.substreams.len(), 3);
    assert_eq!(cs.find(Marker::Pih).unwrap(), pih);
    assert_eq!(cs.find(Marker::Soz).unwrap(), &soz[..]);
    assert_eq!(cs.find(Marker::Sorp).unwrap(), &[] as &[u8]);
    assert!(cs.find(Marker::Ton).is_none());
}

#[test]
fn container_bytes_are_exact() {
    let mut w = CodestreamWriter::new();
    w.substream(Marker::Pih, &[0xAB]).unwrap();
    // SOC, PIH, ue(1) = 010, the payload, EOC.
    assert_eq!(w.finish(), [0xFF, 0x80, 0xFF, 0x82, 0x40, 0xAB, 0xFF, 0x81]);
}

#[test]
fn every_cut_codestream_is_refused() {
    let mut w = CodestreamWriter::new();
    w.substream(Marker::Pih, &[1, 2, 3]).unwrap();
    // The payload holds what an end marker looks like.
    w.substream(Marker::Soz, &[0xFF, 0x81, 7]).unwrap();
    w.substream(Marker::Sorp, &[]).unwrap();
    let bytes = w.finish();
    assert!(Codestream::parse(&bytes).is_ok());
    for cut in 0..bytes.len() {
        assert!(Codestream::parse(&bytes[..cut]).is_err(), "cut at {cut}");
    }
}

#[test]
fn rejects_malformed() {
    assert!(Codestream::parse(&[]).is_err());
    assert!(Codestream::parse(&[0xFF, 0x80]).is_err());
    // SOC EOC with no PIH
    assert!(Codestream::parse(&[0xFF, 0x80, 0xFF, 0x81]).is_err());
    // first substream is not PIH
    let mut w = CodestreamWriter::new();
    assert!(w.substream(Marker::Soz, &[1]).is_err());
    // truncated payload
    let mut w = CodestreamWriter::new();
    w.substream(Marker::Pih, &[1, 2, 3, 4]).unwrap();
    let bytes = w.finish();
    assert!(Codestream::parse(&bytes[..bytes.len() - 4]).is_err());
}

#[test]
fn soc_and_eoc_carry_no_payload() {
    let mut w = CodestreamWriter::new();
    assert!(matches!(w.substream(Marker::Soc, &[]), Err(Error::InvalidArgument(_))));
    assert!(matches!(w.substream(Marker::Eoc, &[1]), Err(Error::InvalidArgument(_))));
}

#[test]
fn markers_and_their_numbers() {
    for m in [
        Marker::Soc,
        Marker::Eoc,
        Marker::Pih,
        Marker::Ton,
        Marker::Rdi,
        Marker::Soz,
        Marker::Sorp,
        Marker::Sors,
        Marker::Soq,
        Marker::Udi,
    ] {
        assert_eq!(Marker::from_u16(m.to_u16()), Some(m));
    }
    assert_eq!(Marker::Soc.to_u16(), 0xFF80);
    assert_eq!(Marker::from_u16(0), None);
    assert!(Marker::Sorp.has_regions() && !Marker::Soz.has_regions());
    assert!(Marker::Soz.is_entropy_coded() && !Marker::Ton.is_entropy_coded());
    assert!(Marker::Udi.has_payload() && !Marker::Eoc.has_payload());
}

#[test]
fn find_all_keeps_the_order() {
    let mut w = CodestreamWriter::new();
    w.substream(Marker::Pih, &[1]).unwrap();
    w.substream(Marker::Sorp, &[2]).unwrap();
    w.substream(Marker::Sors, &[3]).unwrap();
    w.substream(Marker::Sorp, &[4, 5]).unwrap();
    let bytes = w.finish();
    let cs = Codestream::parse(&bytes).unwrap();
    assert_eq!(cs.find_all(Marker::Sorp), [&[2u8][..], &[4, 5][..]]);
    assert!(cs.find_all(Marker::Soq).is_empty());
}

#[test]
fn threads_roundtrip() {
    let a = vec![1u8; 10];
    let b = vec![2u8; 13];
    let c = vec![3u8; 7];
    let d = vec![4u8; 11];
    let joined = join_threads(&[&a, &b, &c, &d]);
    let parts = split_threads(&joined, 4).unwrap();
    assert_eq!(parts, [&a[..], &b[..], &c[..], &d[..]]);
    // single thread: no deltas at all
    assert_eq!(join_threads(&[&a]), a);
    assert_eq!(split_threads(&a, 1).unwrap(), [&a[..]]);
}

#[test]
fn regions_roundtrip() {
    let a = vec![1u8; 100];
    let b = vec![2u8; 0];
    let c = vec![3u8; 300];
    let joined = join_dependent_regions(&[&a, &b, &c]);
    let parts = split_regions(&[&joined], RegionLayout::Dependent, 3).unwrap();
    assert_eq!(parts, [Some(&a[..]), Some(&b[..]), Some(&c[..])]);

    let r0 = [&[0u8][..], &a[..]].concat();
    let r2 = [&[2u8][..], &c[..]].concat();
    let parts = split_regions(&[&r2, &r0], RegionLayout::Independent, 3).unwrap();
    assert_eq!(parts, [Some(&a[..]), None, Some(&c[..])]);
    assert!(split_regions(&[&r0, &r0], RegionLayout::Independent, 3).is_err());
    assert!(split_regions(&[&r2], RegionLayout::Independent, 2).is_err());
}

#[test]
fn joined_bytes_are_exact() {
    // Mean length 2; the first thread is one byte shorter: se(1) = 010.
    assert_eq!(join_threads(&[&[7], &[8, 9, 10]]), [0x40, 7, 8, 9, 10]);
    // The length of all regions but the last: ue(2) = 011.
    assert_eq!(join_dependent_regions(&[&[7, 8], &[9]]), [0x60, 7, 8, 9]);
}

#[test]
fn thread_sizes_must_fit() {
    // A delta that asks for more than there is.
    assert!(split_threads(&[0x60], 2).is_err());
    assert!(split_threads(&[], 0).is_err());
}
