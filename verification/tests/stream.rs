use sonde_bufr::section0::read_section_0;
use sonde_bufr::section1::read_section_1;
use sonde_bufr::section2::{read_frame, read_section_2};
use sonde_bufr::section3::{read_section_3, Descriptor};
use sonde_bufr::section5::read_section_5;
use sonde_bufr::text::str_eq;
use sonde_bufr::types::BufrMessageBuilder;
use sonde_bufr::{
    read_1_octet_u8, read_2_octet_u16, read_3_octet_usize, required, BufrError, ByteStream,
    ErrorKind,
};

#[test]
fn octets_are_read_most_significant_first() {
    let mut f = ByteStream::new(vec![0x12, 0x34, 0x56, 0x78, 0x9A, 0xBC]);
    assert_eq!(read_1_octet_u8(&mut f).unwrap(), Some(0x12));
    assert_eq!(read_2_octet_u16(&mut f).unwrap(), Some(0x3456));
    assert_eq!(read_3_octet_usize(&mut f).unwrap(), Some(0x789ABC));
    assert_eq!(f.position(), 6);
    assert_eq!(f.remaining(), 0);
}

#[test]
fn all_bits_set_is_the_missing_value_of_an_octet_field() {
    let mut f = ByteStream::new(vec![0xFF, 0xFF, 0xFF, 0xFF, 0xFF, 0xFF, 0xFF, 0xFE, 0xFE, 0xFF]);
    assert_eq!(read_1_octet_u8(&mut f).unwrap(), None);
    assert_eq!(read_2_octet_u16(&mut f).unwrap(), None);
    assert_eq!(read_3_octet_usize(&mut f).unwrap(), None);
    assert_eq!(read_2_octet_u16(&mut f).unwrap(), Some(0xFFFE));
    assert_eq!(read_2_octet_u16(&mut f).unwrap(), Some(0xFEFF));
    assert_eq!(f.position(), 10);
}

#[test]
fn a_read_at_the_end_fails_and_consumes_nothing() {
    let mut f = ByteStream::new(vec![1, 2]);
    let e = read_3_octet_usize(&mut f).unwrap_err();
    assert_eq!(e, BufrError { kind: ErrorKind::InvalidLayout, section: None, descriptor: None });
    assert_eq!(f.position(), 0);
    assert_eq!(read_1_octet_u8(&mut f).unwrap(), Some(1));
    assert_eq!(read_2_octet_u16(&mut f).unwrap_err().kind, ErrorKind::InvalidLayout);
    assert_eq!(f.position(), 1);
    assert_eq!(read_1_octet_u8(&mut f).unwrap(), Some(2));
    assert_eq!(read_1_octet_u8(&mut f).unwrap_err().kind, ErrorKind::InvalidLayout);
    assert_eq!(f.position(), 2);
}

#[test]
fn a_required_field_must_not_be_missing() {
    assert_eq!(required(Some(5u8)), Ok(5));
    assert_eq!(required::<u16>(None).unwrap_err().kind, ErrorKind::InvalidLayout);
}

#[test]
fn a_stream_reads_and_seeks() {
    let mut f = ByteStream::new(vec![10, 20, 30, 40, 50]);
    assert_eq!(f.len(), 5);
    assert_eq!(f.read_exact(2).unwrap(), vec![10, 20]);
    assert_eq!(f.position(), 2);
    assert_eq!(f.byte_at(4), 50);
    assert_eq!(f.read_exact(4).unwrap_err().kind, ErrorKind::InvalidLayout);
    assert_eq!(f.position(), 2);
    assert_eq!(f.read_exact(0).unwrap(), Vec::<u8>::new());
    f.seek(4);
    assert_eq!(f.read_exact(1).unwrap(), vec![50]);
    f.seek(100);
    assert_eq!(f.position(), 5);
    f.seek(0);
    assert_eq!(f.remaining(), 5);
    assert_eq!(f.read_exact(usize::MAX).unwrap_err().kind, ErrorKind::InvalidLayout);
}

#[test]
fn section_0_gives_the_edition() {
    let mut f = ByteStream::new(b"xxBUFR\x00\x01\x00\x04rest".to_vec());
    f.seek(2);
    let mut b = BufrMessageBuilder::new();
    read_section_0(&mut f, &mut b).unwrap();
    assert_eq!(f.position(), 10);
    b.num_datasets(1).bufr_master_table_version(1);
    assert_eq!(b.build().unwrap().bufr_version(), 4);
}

#[test]
fn section_1_says_whether_section_2_follows() {
    let mut bytes = vec![0, 0, 24, 0, 0, 7, 0, 0, 0, 0, 2, 4, 0xFF, 39, 0];
    bytes.extend_from_slice(&[7, 0xE8, 1, 15, 12, 0, 0]);
    bytes.extend_from_slice(&[0xAA, 0xBB, 0xCC]);
    let mut f = ByteStream::new(bytes.clone());
    let mut b = BufrMessageBuilder::new();
    assert_eq!(read_section_1(&mut f, &mut b), Ok(false));
    assert_eq!(f.position(), 24);
    b.num_datasets(1).bufr_version(4);
    let m = b.build().unwrap();
    assert_eq!(m.section_1_extra_data(), &[0xAA, 0xBB]);
    assert_eq!(m.local_data_subcategory(), None);
    assert_eq!(m.year(), 2024);
    bytes[9] = 0x80;
    let mut f = ByteStream::new(bytes);
    assert_eq!(read_section_1(&mut f, &mut BufrMessageBuilder::new()), Ok(true));
}

#[test]
fn section_2_is_kept_as_it_stands() {
    let mut f = ByteStream::new(vec![0, 0, 7, 0, 0xFF, 0, 0x37, 1, 2]);
    let mut b = BufrMessageBuilder::new();
    read_section_2(&mut f, &mut b).unwrap();
    assert_eq!(f.position(), 7);
    b.num_datasets(1).bufr_version(4).bufr_master_table_version(1);
    assert_eq!(b.build().unwrap().section_2_data(), &[0xFF, 0, 0x37]);
}

#[test]
fn a_frame_gives_what_is_left_of_its_section() {
    let mut f = ByteStream::new(vec![0, 1, 0, 0, 9]);
    assert_eq!(read_frame(&mut f).unwrap_err().kind, ErrorKind::InvalidLayout);
    let mut bytes = vec![0, 1, 0, 0];
    bytes.extend(std::iter::repeat(7).take(252));
    let mut f = ByteStream::new(bytes);
    assert_eq!(read_frame(&mut f), Ok(252));
    assert_eq!(f.position(), 4);
    let mut f = ByteStream::new(vec![0, 0, 4, 0]);
    assert_eq!(read_frame(&mut f), Ok(0));
}

#[test]
fn section_3_gives_the_descriptors() {
    let bytes = vec![0, 0, 14, 0, 0, 1, 0x80, 0xC1, 0x0B, 0x41, 0x02, 0x1F, 0x01, 0, 9];
    let mut f = ByteStream::new(bytes);
    let mut b = BufrMessageBuilder::new();
    let descriptors = read_section_3(&mut f, &mut b).unwrap();
    assert_eq!(
        descriptors,
        vec![
            Descriptor { f: 3, x: 1, y: 11 },
            Descriptor { f: 1, x: 1, y: 2 },
            Descriptor { f: 0, x: 31, y: 1 },
        ]
    );
    assert_eq!(f.position(), 14);
    b.bufr_version(4).bufr_master_table_version(1);
    let m = b.build().unwrap();
    assert_eq!(m.num_datasets(), 1);
    assert!(m.observed_data());
    assert!(!m.compressed_data());
}

#[test]
fn section_5_is_four_octets() {
    let mut f = ByteStream::new(b"7777777".to_vec());
    assert!(read_section_5(&mut f).is_ok());
    assert_eq!(f.position(), 4);
    assert_eq!(read_section_5(&mut f).unwrap_err().kind, ErrorKind::InvalidLayout);
    assert_eq!(f.position(), 4);
    let mut f = ByteStream::new(b"7777".to_vec());
    f.seek(1);
    assert_eq!(read_section_5(&mut f).unwrap_err().kind, ErrorKind::InvalidLayout);
    assert_eq!(f.position(), 1);
}

#[test]
fn four_octets_that_are_not_the_end_mark_are_consumed() {
    let mut f = ByteStream::new(b"7778rest".to_vec());
    let e = read_section_5(&mut f).unwrap_err();
    assert_eq!(e, BufrError { kind: ErrorKind::MagicMismatch, section: None, descriptor: None });
    assert_eq!(f.position(), 4);
    assert_eq!(f.remaining(), 4);
}

#[test]
fn texts_are_compared_by_their_characters() {
    assert!(str_eq("", ""));
    assert!(str_eq("Numeric", "Numeric"));
    assert!(!str_eq("Numeric", "numeric"));
    assert!(!str_eq("Numeric", "Numeri"));
    assert!(!str_eq("a", ""));
    assert!(str_eq("°C", "°C"));
    assert!(!str_eq("°C", "°F"));
}

#[test]
fn an_error_takes_its_first_context() {
    let d = Descriptor { f: 0, x: 1, y: 1 };
    let other = Descriptor { f: 3, x: 1, y: 1 };
    let e = BufrError::new(ErrorKind::BitBufferOverrun);
    assert_eq!(e, BufrError { kind: ErrorKind::BitBufferOverrun, section: None, descriptor: None });
    let e = e.at(d).at(other).in_section(4).in_section(5);
    assert_eq!(
        e,
        BufrError { kind: ErrorKind::BitBufferOverrun, section: Some(4), descriptor: Some(d) }
    );
}

#[test]
fn every_kind_of_error_has_its_message() {
    let message = |kind: ErrorKind| BufrError::new(kind).message();
    assert_eq!(message(ErrorKind::MagicMismatch), "magic value mismatch");
    assert_eq!(message(ErrorKind::UnsupportedVersion), "unsupported version");
    assert_eq!(message(ErrorKind::UnsupportedFeature), "unsupported feature");
    assert_eq!(message(ErrorKind::InvalidLayout), "invalid layout");
    assert_eq!(message(ErrorKind::UnknownDescriptor), "unknown descriptor");
    assert_eq!(message(ErrorKind::TableBClass), "invalid Table B class");
    assert_eq!(message(ErrorKind::BitBufferOverrun), "read past the end of the data section");
    assert_eq!(message(ErrorKind::EndOfStream), "not a BUFR file");
}
