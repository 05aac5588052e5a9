use sonde_bufr::bit_buffer::BitBuffer;
use sonde_bufr::decimal::Decimal;
use sonde_bufr::section3::Descriptor;
use sonde_bufr::section4::{
    read_descriptor, read_descriptors, read_element_descriptor, read_replication_descriptor,
    read_sequence_descriptor,
};
use sonde_bufr::tables::{TableB, TableBEntry, TableD, TableDEntry};
use sonde_bufr::types::{Structure, Value};
use sonde_bufr::ErrorKind;

struct BitWriter {
    bytes: Vec<u8>,
    used: usize,
}

impl BitWriter {
    fn new() -> Self {
        BitWriter { bytes: Vec::new(), used: 0 }
    }

    fn put(mut self, bits: usize, value: u64) -> Self {
        for i in (0..bits).rev() {
            if self.used % 8 == 0 {
                self.bytes.push(0);
            }
            let bit = ((value >> i) & 1) as u8;
            let last = self.bytes.len() - 1;
            self.bytes[last] |= bit << (7 - self.used % 8);
            self.used += 1;
        }
        self
    }

    fn buffer(self) -> BitBuffer {
        BitBuffer::new(self.bytes)
    }
}

fn element(
    fxy: &str,
    width_bits: usize,
    name: &str,
    units: &str,
    reference_val: i64,
    scale_val: i32,
) -> TableBEntry {
    TableBEntry::new(
        fxy.to_string(),
        width_bits,
        name.to_string(),
        units.to_string(),
        reference_val,
        scale_val,
    )
}

fn sequence(fxy: &str, name: &str, elements: &[&str]) -> TableDEntry {
    TableDEntry::new(
        fxy.to_string(),
        name.to_string(),
        elements.iter().map(|s| s.to_string()).collect(),
    )
}

fn table_b() -> TableB {
    TableB::new(vec![
        element("001001", 7, "WMO block number", "Numeric", 0, 0),
        element("001002", 10, "WMO station number", "Numeric", 0, 0),
        element("001015", 160, "Station or site name", "CCITT IA5", 0, 0),
        element("004001", 16, "Year", "a", 0, 0),
        element("004002", 8, "Month", "mon", 0, 0),
        element("004003", 8, "Day", "d", 0, 0),
        element("005001", 25, "Latitude (high accuracy)", "deg", -9000000, 5),
        element("010004", 8, "Pressure", "Numeric", 0, 0),
        element("012001", 12, "Temperature/air temperature", "K", 0, 1),
        element("020003", 9, "Present weather", "Code table", 0, 0),
        element("008042", 18, "Extended vertical sounding significance", "Flag table", 0, 0),
        element("007004", 14, "Pressure", "Pa", -100, -1),
        element("002099", 0, "No width", "Numeric", 0, 0),
        element("002098", 65, "Too wide", "Numeric", 0, 0),
        element("002097", 12, "Odd text", "CCITT IA5", 0, 0),
        element("002096", 64, "Wide number", "Numeric", 0, 0),
        element("002095", 8, "Far reference", "K", i64::MAX, 0),
    ])
}

fn table_d() -> TableD {
    TableD::new(vec![
        sequence("301011", "Year, month, day", &["004001", "004002", "004003"]),
        sequence("301001", "WMO block and station numbers", &["001001", "001002"]),
        sequence("301150", "Station and date", &["301001", "301011"]),
        sequence("301200", "Repeated pressure", &["001001", "101002", "010004", "001002"]),
        sequence("301201", "Delayed pressure", &["102000", "031001", "010004", "301001"]),
        sequence("301202", "Operator within", &["001001", "201129"]),
        sequence("301203", "Not a descriptor", &["001001", "0010x1"]),
        sequence("301204", "Unknown within", &["301001", "301099"]),
        sequence("301205", "Replication runs out", &["001001", "102002", "001002"]),
        sequence("301206", "Empty", &[]),
    ])
    .unwrap()
}

fn d(f: u8, x: u8, y: u8) -> Descriptor {
    Descriptor { f, x, y }
}

fn as_element(s: &Structure) -> &sonde_bufr::types::Element {
    match s {
        Structure::Element(e) => e,
        _ => panic!("not an element"),
    }
}

fn numeric(s: &Structure) -> i32 {
    as_element(s).get_i32_val().unwrap()
}

#[test]
fn minimal_element() {
    // 001001 is seven bits wide: 0000001, then padding.
    let mut buffer = BitBuffer::new(vec![0b0000_0010]);
    let nodes = read_descriptors(&mut buffer, &vec![d(0, 1, 1)], &table_b(), &table_d()).unwrap();
    assert_eq!(nodes.len(), 1);
    let e = as_element(&nodes[0]);
    assert_eq!(e.get_i32_val(), Some(1));
    assert!(matches!(e.value(), Value::Numeric(1)));
    assert_eq!(e.code(), "001001");
    assert_eq!(e.units(), "Numeric");
    assert_eq!(e.name(), "WMO block number");
    assert_eq!(buffer.cursor(), (0, 7));
}

#[test]
fn missing_sentinel() {
    let mut buffer = BitBuffer::new(vec![0b1111_1110]);
    let nodes = read_descriptors(&mut buffer, &vec![d(0, 1, 1)], &table_b(), &table_d()).unwrap();
    assert_eq!(nodes.len(), 1);
    let e = as_element(&nodes[0]);
    assert!(e.is_missing());
    assert!(matches!(e.value(), Value::Missing));
    assert_eq!(e.get_i32_val(), None);
    assert_eq!(buffer.cursor(), (0, 7));
}

#[test]
fn sequence_expansion() {
    let mut buffer = BitWriter::new().put(16, 2024).put(8, 1).put(8, 15).buffer();
    let nodes = read_descriptors(&mut buffer, &vec![d(3, 1, 11)], &table_b(), &table_d()).unwrap();
    assert_eq!(nodes.len(), 1);
    let group = match &nodes[0] {
        Structure::Group(g) => g,
        _ => panic!("not a group"),
    };
    assert_eq!(group.code(), "301011");
    assert_eq!(group.name(), "Year, month, day");
    assert_eq!(nodes[0].path(), "301011");
    let items = group.items();
    assert_eq!(items.len(), 3);
    assert_eq!(numeric(&items[0]), 2024);
    assert_eq!(numeric(&items[1]), 1);
    assert_eq!(numeric(&items[2]), 15);
    assert_eq!(as_element(&items[0]).code(), "004001");
    assert_eq!(as_element(&items[1]).units(), "mon");
    assert_eq!(as_element(&items[2]).name(), "Day");
    assert_eq!(buffer.cursor(), (4, 0));
}

#[test]
fn fixed_replication() {
    let mut buffer = BitBuffer::new(vec![11, 22]);
    let list = vec![d(1, 1, 2), d(0, 10, 4)];
    let nodes = read_descriptors(&mut buffer, &list, &table_b(), &table_d()).unwrap();
    assert_eq!(nodes.len(), 1);
    let rep = match &nodes[0] {
        Structure::Replication(r) => r,
        _ => panic!("not a replication"),
    };
    assert_eq!(rep.len(), 2);
    assert_eq!(nodes[0].path(), "repeat");
    assert_eq!(numeric(&rep.items()[0]), 11);
    assert_eq!(numeric(&rep.items()[1]), 22);
    assert_eq!(as_element(&rep.items()[1]).code(), "010004");
}

#[test]
fn delayed_replication() {
    let mut w = BitWriter::new().put(8, 3);
    for i in 0..3u64 {
        w = w.put(7, 10 + i).put(10, 100 + i);
    }
    let mut buffer = w.buffer();
    let list = vec![d(1, 2, 0), d(0, 31, 1), d(0, 1, 1), d(0, 1, 2)];
    let nodes = read_descriptors(&mut buffer, &list, &table_b(), &table_d()).unwrap();
    assert_eq!(nodes.len(), 1);
    let rep = match &nodes[0] {
        Structure::Replication(r) => r,
        _ => panic!("not a replication"),
    };
    // Three repetitions of a pair.
    assert_eq!(rep.len(), 6);
    for i in 0..3usize {
        let block = as_element(&rep.items()[2 * i]);
        let station = as_element(&rep.items()[2 * i + 1]);
        assert_eq!(block.code(), "001001");
        assert_eq!(block.get_i32_val(), Some(10 + i as i32));
        assert_eq!(station.code(), "001002");
        assert_eq!(station.get_u32_val(), Some(100 + i as u32));
    }
    // 8 bits of count and three times 17 bits.
    assert_eq!(buffer.cursor(), (7, 3));
}

#[test]
fn delayed_replication_with_a_count_of_sixteen_bits() {
    let mut w = BitWriter::new().put(16, 300);
    for i in 0..300u64 {
        w = w.put(8, i % 200);
    }
    let mut buffer = w.buffer();
    let list = vec![d(1, 1, 0), d(0, 31, 2), d(0, 10, 4), d(0, 1, 1)];
    let nodes = read_descriptors(&mut buffer, &list.clone(), &table_b(), &table_d());
    // After the replication the list goes on with 001001, for which no bits are left.
    assert_eq!(nodes.unwrap_err().kind, ErrorKind::BitBufferOverrun);
    let mut w = BitWriter::new().put(16, 300);
    for i in 0..300u64 {
        w = w.put(8, i % 200);
    }
    let mut buffer = w.put(7, 5).buffer();
    let nodes = read_descriptors(&mut buffer, &list, &table_b(), &table_d()).unwrap();
    assert_eq!(nodes.len(), 2);
    match &nodes[0] {
        Structure::Replication(r) => {
            assert_eq!(r.len(), 300);
            assert_eq!(numeric(&r.items()[299]), 99);
        }
        _ => panic!("not a replication"),
    }
    assert_eq!(numeric(&nodes[1]), 5);
}

#[test]
fn a_delayed_replication_of_no_repetitions() {
    let mut buffer = BitWriter::new().put(8, 0).put(7, 9).buffer();
    let list = vec![d(1, 1, 0), d(0, 31, 1), d(0, 10, 4), d(0, 1, 1)];
    let nodes = read_descriptors(&mut buffer, &list, &table_b(), &table_d()).unwrap();
    assert_eq!(nodes.len(), 2);
    match &nodes[0] {
        Structure::Replication(r) => assert_eq!(r.len(), 0),
        _ => panic!("not a replication"),
    }
    assert_eq!(numeric(&nodes[1]), 9);
}

#[test]
fn a_replication_that_covers_nothing() {
    let mut buffer = BitWriter::new().put(7, 9).buffer();
    let list = vec![d(1, 0, 3), d(0, 1, 1)];
    let nodes = read_descriptors(&mut buffer, &list, &table_b(), &table_d()).unwrap();
    assert_eq!(nodes.len(), 2);
    match &nodes[0] {
        Structure::Replication(r) => assert_eq!(r.len(), 0),
        _ => panic!("not a replication"),
    }
    assert_eq!(numeric(&nodes[1]), 9);
}

#[test]
fn a_replication_within_a_replication_takes_from_the_same_list() {
    // The outer one covers the inner one and repeats it twice; each time
    // the inner one takes the next descriptor of the list for itself.
    let mut buffer = BitWriter::new().put(7, 1).put(7, 2).put(10, 3).put(10, 4).buffer();
    let list = vec![d(1, 1, 2), d(1, 1, 2), d(0, 1, 1), d(0, 1, 2)];
    let nodes = read_descriptors(&mut buffer, &list, &table_b(), &table_d()).unwrap();
    assert_eq!(nodes.len(), 1);
    let outer = match &nodes[0] {
        Structure::Replication(r) => r,
        _ => panic!("not a replication"),
    };
    assert_eq!(outer.len(), 2);
    let first = match &outer.items()[0] {
        Structure::Replication(r) => r,
        _ => panic!("not a replication"),
    };
    let second = match &outer.items()[1] {
        Structure::Replication(r) => r,
        _ => panic!("not a replication"),
    };
    assert_eq!(first.len(), 2);
    assert_eq!(as_element(&first.items()[0]).code(), "001001");
    assert_eq!(numeric(&first.items()[0]), 1);
    assert_eq!(numeric(&first.items()[1]), 2);
    assert_eq!(second.len(), 2);
    assert_eq!(as_element(&second.items()[0]).code(), "001002");
    assert_eq!(numeric(&second.items()[0]), 3);
    assert_eq!(numeric(&second.items()[1]), 4);
    assert_eq!(buffer.cursor(), (4, 2));
}

#[test]
fn a_sequence_within_a_sequence() {
    let mut buffer =
        BitWriter::new().put(7, 72).put(10, 509).put(16, 2024).put(8, 1).put(8, 15).buffer();
    let nodes = read_descriptors(&mut buffer, &vec![d(3, 1, 150)], &table_b(), &table_d()).unwrap();
    let outer = match &nodes[0] {
        Structure::Group(g) => g,
        _ => panic!("not a group"),
    };
    assert_eq!(outer.items().len(), 2);
    let station = match &outer.items()[0] {
        Structure::Group(g) => g,
        _ => panic!("not a group"),
    };
    let date = match &outer.items()[1] {
        Structure::Group(g) => g,
        _ => panic!("not a group"),
    };
    assert_eq!(station.code(), "301001");
    assert_eq!(numeric(&station.items()[0]), 72);
    assert_eq!(numeric(&station.items()[1]), 509);
    assert_eq!(date.code(), "301011");
    assert_eq!(numeric(&date.items()[0]), 2024);
}

#[test]
fn a_replication_within_a_sequence_covers_its_siblings() {
    // 301200: 001001, then twice 010004, then 001002.
    let mut buffer = BitWriter::new().put(7, 5).put(8, 11).put(8, 22).put(10, 600).buffer();
    let nodes = read_descriptors(&mut buffer, &vec![d(3, 1, 200)], &table_b(), &table_d()).unwrap();
    let group = match &nodes[0] {
        Structure::Group(g) => g,
        _ => panic!("not a group"),
    };
    assert_eq!(group.items().len(), 3);
    assert_eq!(numeric(&group.items()[0]), 5);
    match &group.items()[1] {
        Structure::Replication(r) => {
            assert_eq!(r.len(), 2);
            assert_eq!(numeric(&r.items()[0]), 11);
            assert_eq!(numeric(&r.items()[1]), 22);
        }
        _ => panic!("not a replication"),
    }
    assert_eq!(numeric(&group.items()[2]), 600);
}

#[test]
fn a_delayed_replication_within_a_sequence() {
    // 301201: a count of 8 bits, then that many times 010004, 301001.
    let mut w = BitWriter::new().put(8, 2);
    for i in 0..2u64 {
        w = w.put(8, 40 + i).put(7, 1).put(10, 2 + i);
    }
    let mut buffer = w.buffer();
    let nodes = read_descriptors(&mut buffer, &vec![d(3, 1, 201)], &table_b(), &table_d()).unwrap();
    let group = match &nodes[0] {
        Structure::Group(g) => g,
        _ => panic!("not a group"),
    };
    assert_eq!(group.items().len(), 1);
    let rep = match &group.items()[0] {
        Structure::Replication(r) => r,
        _ => panic!("not a replication"),
    };
    assert_eq!(rep.len(), 4);
    assert_eq!(numeric(&rep.items()[0]), 40);
    assert_eq!(numeric(&rep.items()[2]), 41);
    match &rep.items()[3] {
        Structure::Group(g) => assert_eq!(numeric(&g.items()[1]), 3),
        _ => panic!("not a group"),
    }
    // 8 + 2 * (8 + 17) bits.
    assert_eq!(buffer.cursor(), (7, 2));
}

#[test]
fn an_empty_sequence_gives_an_empty_group() {
    let mut buffer = BitBuffer::new(Vec::new());
    let nodes = read_descriptors(&mut buffer, &vec![d(3, 1, 206)], &table_b(), &table_d()).unwrap();
    match &nodes[0] {
        Structure::Group(g) => assert!(g.items().is_empty()),
        _ => panic!("not a group"),
    }
}

#[test]
fn no_descriptors_give_no_nodes() {
    let mut buffer = BitBuffer::new(vec![1, 2, 3]);
    let nodes = read_descriptors(&mut buffer, &Vec::new(), &table_b(), &table_d()).unwrap();
    assert!(nodes.is_empty());
    assert_eq!(buffer.cursor(), (0, 0));
}

#[test]
fn units_pick_the_kind_of_value() {
    let mut w = BitWriter::new()
        .put(9, 508)
        .put(18, 0x20000)
        .put(12, 2935)
        .put(25, 9000000 + 4236010);
    for c in b"BOSTON\0\0\0\0\0\0\0\0\0\0\0\0\0\0" {
        w = w.put(8, *c as u64);
    }
    let mut buffer = w.put(14, 10132).buffer();
    let list = vec![d(0, 20, 3), d(0, 8, 42), d(0, 12, 1), d(0, 5, 1), d(0, 1, 15), d(0, 7, 4)];
    let nodes = read_descriptors(&mut buffer, &list, &table_b(), &table_d()).unwrap();
    assert_eq!(nodes.len(), 6);
    assert_eq!(as_element(&nodes[0]).get_code_val(), Some(508));
    assert_eq!(as_element(&nodes[0]).get_i32_val(), None);
    assert_eq!(as_element(&nodes[1]).get_code_val(), Some(0x20000));
    assert_eq!(
        as_element(&nodes[2]).get_decimal_val(),
        Some(Decimal { mantissa: 2935, scale: 1 })
    );
    assert_eq!(
        as_element(&nodes[3]).get_decimal_val(),
        Some(Decimal { mantissa: 4236010, scale: 5 })
    );
    assert_eq!(as_element(&nodes[4]).get_str_val(), Some("BOSTON"));
    assert_eq!(as_element(&nodes[4]).get_decimal_val(), None);
    assert_eq!(
        as_element(&nodes[5]).get_decimal_val(),
        Some(Decimal { mantissa: 10032, scale: -1 })
    );
}

#[test]
fn all_bits_set_is_missing_whatever_the_units() {
    let mut buffer = BitWriter::new()
        .put(9, 0x1FF)
        .put(18, 0x3FFFF)
        .put(12, 0xFFF)
        .put(25, 0x1FFFFFF)
        .put(16, 0xFFFF)
        .put(14, 0x3FFF)
        .buffer();
    let list = vec![d(0, 20, 3), d(0, 8, 42), d(0, 12, 1), d(0, 5, 1), d(0, 4, 1), d(0, 7, 4)];
    let nodes = read_descriptors(&mut buffer, &list, &table_b(), &table_d()).unwrap();
    assert_eq!(nodes.len(), 6);
    for node in &nodes {
        let e = as_element(node);
        assert!(e.is_missing(), "{}", e.code());
        assert_eq!(e.get_i32_val(), None);
        assert_eq!(e.get_u32_val(), None);
        assert_eq!(e.get_code_val(), None);
        assert_eq!(e.get_decimal_val(), None);
        assert_eq!(e.get_str_val(), None);
    }
    assert_eq!(buffer.cursor(), (11, 6));
}

#[test]
fn text_has_no_missing_value() {
    let mut buffer = BitBuffer::new(vec![0xFF; 20]);
    let e = read_descriptors(&mut buffer, &vec![d(0, 1, 15)], &table_b(), &table_d()).unwrap_err();
    assert_eq!(e.kind, ErrorKind::InvalidLayout);
    assert_eq!(e.descriptor, Some(d(0, 1, 15)));
}

#[test]
fn an_element_that_table_b_lacks() {
    let mut buffer = BitBuffer::new(vec![0; 8]);
    let e = read_descriptors(&mut buffer, &vec![d(0, 1, 1), d(0, 1, 3)], &table_b(), &table_d())
        .unwrap_err();
    assert_eq!(e.kind, ErrorKind::UnknownDescriptor);
    assert_eq!(e.descriptor, Some(d(0, 1, 3)));
    assert_eq!(e.section, None);
    // The first element was read; the unknown one took no bit.
    assert_eq!(buffer.cursor(), (0, 7));
    let mut buffer = BitBuffer::new(vec![0; 8]);
    buffer.read_u8(3).unwrap();
    let e = read_element_descriptor(&mut buffer, &d(0, 1, 3), &table_b()).unwrap_err();
    assert_eq!(e.kind, ErrorKind::UnknownDescriptor);
    assert_eq!(buffer.cursor(), (0, 3));
}

#[test]
fn a_number_that_does_not_fit_is_consumed() {
    let tb = table_b();
    let mut buffer = BitBuffer::new(vec![0xFF, 0xFF, 0xFF, 0xFF, 0xFF, 0xFF, 0xFF, 0xFE, 200, 0]);
    let e = read_element_descriptor(&mut buffer, &d(0, 2, 96), &tb).unwrap_err();
    assert_eq!(e.kind, ErrorKind::InvalidLayout);
    assert_eq!(e.descriptor, Some(d(0, 2, 96)));
    assert_eq!(buffer.cursor(), (8, 0));
    let e = read_element_descriptor(&mut buffer, &d(0, 2, 95), &tb).unwrap_err();
    assert_eq!(e.kind, ErrorKind::InvalidLayout);
    assert_eq!(buffer.cursor(), (9, 0));
    // A field that cannot be read at all takes no bit.
    let e = read_element_descriptor(&mut buffer, &d(0, 1, 2), &tb).unwrap_err();
    assert_eq!(e.kind, ErrorKind::BitBufferOverrun);
    assert_eq!(buffer.cursor(), (9, 0));
}

#[test]
fn a_sequence_that_table_d_lacks() {
    let mut buffer = BitBuffer::new(vec![0; 8]);
    buffer.read_u8(5).unwrap();
    let e = read_sequence_descriptor(&mut buffer, &d(3, 1, 99), &table_b(), &table_d())
        .unwrap_err();
    assert_eq!(e.kind, ErrorKind::UnknownDescriptor);
    assert_eq!(buffer.cursor(), (0, 5));
    let mut buffer = BitBuffer::new(vec![0; 8]);
    let e = read_descriptors(&mut buffer, &vec![d(3, 1, 99)], &table_b(), &table_d()).unwrap_err();
    assert_eq!(e.kind, ErrorKind::UnknownDescriptor);
    assert_eq!(e.descriptor, Some(d(3, 1, 99)));
    assert_eq!(buffer.cursor(), (0, 0));
    let e = read_descriptors(&mut buffer, &vec![d(3, 1, 204)], &table_b(), &table_d()).unwrap_err();
    assert_eq!(e.kind, ErrorKind::UnknownDescriptor);
    assert_eq!(e.descriptor, Some(d(3, 1, 99)));
    // 301001 within 301204 was read before 301099 was looked for.
    assert_eq!(buffer.cursor(), (2, 1));
}

#[test]
fn an_operator_is_not_supported() {
    let mut buffer = BitBuffer::new(vec![0; 8]);
    let e = read_descriptors(&mut buffer, &vec![d(2, 1, 129)], &table_b(), &table_d()).unwrap_err();
    assert_eq!(e.kind, ErrorKind::UnsupportedFeature);
    assert_eq!(e.descriptor, Some(d(2, 1, 129)));
    let e = read_descriptors(&mut buffer, &vec![d(3, 1, 202)], &table_b(), &table_d()).unwrap_err();
    assert_eq!(e.kind, ErrorKind::UnsupportedFeature);
    assert_eq!(e.descriptor, Some(d(2, 1, 129)));
    let e = read_descriptors(&mut buffer, &vec![d(7, 1, 1)], &table_b(), &table_d()).unwrap_err();
    assert_eq!(e.kind, ErrorKind::UnsupportedFeature);
}

#[test]
fn a_sequence_whose_entry_spells_no_descriptor() {
    let mut buffer = BitBuffer::new(vec![0; 8]);
    let e = read_descriptors(&mut buffer, &vec![d(3, 1, 203)], &table_b(), &table_d()).unwrap_err();
    assert_eq!(e.kind, ErrorKind::InvalidLayout);
    assert_eq!(e.descriptor, Some(d(3, 1, 203)));
    // Nothing was read: the entry is parsed before its first element.
    assert_eq!(buffer.cursor(), (0, 0));
}

#[test]
fn the_data_ends_within_an_element() {
    let mut buffer = BitBuffer::new(vec![0x12, 0x34]);
    let e = read_descriptors(&mut buffer, &vec![d(0, 1, 1), d(0, 1, 2)], &table_b(), &table_d())
        .unwrap_err();
    assert_eq!(e.kind, ErrorKind::BitBufferOverrun);
    assert_eq!(e.descriptor, Some(d(0, 1, 2)));
}

#[test]
fn a_width_that_cannot_be_read() {
    let mut buffer = BitBuffer::new(vec![0; 16]);
    for y in [99u8, 98, 97] {
        let e = read_descriptors(&mut buffer, &vec![d(0, 2, y)], &table_b(), &table_d())
            .unwrap_err();
        assert_eq!(e.kind, ErrorKind::UnsupportedFeature);
        assert_eq!(e.descriptor, Some(d(0, 2, y)));
    }
}

#[test]
fn a_delayed_replication_needs_its_count() {
    let tb = table_b();
    let td = table_d();
    // Nothing follows the replication descriptor.
    let mut buffer = BitBuffer::new(vec![2, 0, 0]);
    let e = read_descriptors(&mut buffer, &vec![d(1, 1, 0)], &tb, &td).unwrap_err();
    assert_eq!(e.kind, ErrorKind::InvalidLayout);
    assert_eq!(e.descriptor, Some(d(1, 1, 0)));
    // What follows does not describe a count.
    let e = read_descriptors(&mut buffer, &vec![d(1, 1, 0), d(0, 1, 1), d(0, 1, 1)], &tb, &td)
        .unwrap_err();
    assert_eq!(e.kind, ErrorKind::InvalidLayout);
    assert_eq!(e.descriptor, Some(d(0, 1, 1)));
    // A count of one bit, or of any width but 8 and 16, is not supported.
    for y in [0u8, 3, 4, 11, 255] {
        let e = read_descriptors(&mut buffer, &vec![d(1, 1, 0), d(0, 31, y), d(0, 1, 1)], &tb, &td)
            .unwrap_err();
        assert_eq!(e.kind, ErrorKind::UnsupportedFeature);
        assert_eq!(e.descriptor, Some(d(0, 31, y)));
    }
    // The count holds the missing value.
    let mut buffer = BitBuffer::new(vec![0xFF, 0xFF, 0]);
    let e = read_descriptors(&mut buffer, &vec![d(1, 1, 0), d(0, 31, 1), d(0, 1, 1)], &tb, &td)
        .unwrap_err();
    assert_eq!(e.kind, ErrorKind::InvalidLayout);
    assert_eq!(e.descriptor, Some(d(0, 31, 1)));
    let mut buffer = BitBuffer::new(vec![0xFF, 0xFF, 0]);
    let e = read_descriptors(&mut buffer, &vec![d(1, 1, 0), d(0, 31, 2), d(0, 1, 1)], &tb, &td)
        .unwrap_err();
    assert_eq!(e.kind, ErrorKind::InvalidLayout);
    // The data ends within the count.
    let mut buffer = BitBuffer::new(vec![0x01]);
    let e = read_descriptors(&mut buffer, &vec![d(1, 1, 0), d(0, 31, 2), d(0, 1, 1)], &tb, &td)
        .unwrap_err();
    assert_eq!(e.kind, ErrorKind::BitBufferOverrun);
    assert_eq!(e.descriptor, Some(d(0, 31, 2)));
}

#[test]
fn a_replication_needs_what_it_covers() {
    let tb = table_b();
    let td = table_d();
    let mut buffer = BitBuffer::new(vec![0; 8]);
    let e = read_descriptors(&mut buffer, &vec![d(1, 2, 3), d(0, 1, 1)], &tb, &td).unwrap_err();
    assert_eq!(e.kind, ErrorKind::InvalidLayout);
    assert_eq!(e.descriptor, Some(d(1, 2, 3)));
    assert_eq!(buffer.cursor(), (0, 0));
    // Within a sequence it cannot reach beyond the sequence.
    let e = read_descriptors(&mut buffer, &vec![d(3, 1, 205), d(0, 1, 1)], &tb, &td).unwrap_err();
    assert_eq!(e.kind, ErrorKind::InvalidLayout);
    assert_eq!(e.descriptor, Some(d(1, 2, 2)));
    // The count is read before the covered descriptors are looked for.
    let mut buffer = BitBuffer::new(vec![1, 0]);
    let e = read_descriptors(&mut buffer, &vec![d(1, 1, 0), d(0, 31, 1)], &tb, &td).unwrap_err();
    assert_eq!(e.kind, ErrorKind::InvalidLayout);
    assert_eq!(e.descriptor, Some(d(1, 1, 0)));
    assert_eq!(buffer.cursor(), (1, 0));
}

#[test]
fn one_element_by_its_descriptor() {
    let tb = table_b();
    let mut buffer = BitWriter::new().put(3, 0).put(12, 2000).buffer();
    buffer.read_u8(3).unwrap();
    let e = read_element_descriptor(&mut buffer, &d(0, 12, 1), &tb).unwrap();
    assert_eq!(e.code(), "012001");
    assert_eq!(e.units(), "K");
    assert_eq!(e.name(), "Temperature/air temperature");
    assert_eq!(e.get_decimal_val(), Some(Decimal::new(2000, 1)));
    assert_eq!(buffer.cursor(), (1, 7));
    let err = read_element_descriptor(&mut buffer, &d(0, 12, 2), &tb).unwrap_err();
    assert_eq!(err.kind, ErrorKind::UnknownDescriptor);
}

#[test]
fn one_sequence_by_its_descriptor() {
    let mut buffer = BitWriter::new().put(7, 72).put(10, 509).buffer();
    let g = read_sequence_descriptor(&mut buffer, &d(3, 1, 1), &table_b(), &table_d()).unwrap();
    assert_eq!(g.code(), "301001");
    assert_eq!(g.name(), "WMO block and station numbers");
    assert_eq!(g.items().len(), 2);
    assert_eq!(buffer.cursor(), (2, 1));
}

#[test]
fn one_replication_moves_the_cursor_past_what_it_covers() {
    let list = vec![d(0, 1, 1), d(1, 2, 2), d(0, 10, 4), d(0, 1, 1), d(0, 1, 2)];
    let mut buffer =
        BitWriter::new().put(8, 1).put(7, 2).put(8, 3).put(7, 4).put(10, 77).buffer();
    let mut cursor = 2usize;
    let rep =
        read_replication_descriptor(&mut buffer, &list, 1, &mut cursor, &table_b(), &table_d())
            .unwrap();
    assert_eq!(cursor, 4);
    assert_eq!(rep.len(), 4);
    assert_eq!(numeric(&rep.items()[0]), 1);
    assert_eq!(numeric(&rep.items()[3]), 4);
    let next = read_descriptor(&mut buffer, &list, 4, &mut cursor, &table_b(), &table_d()).unwrap();
    assert_eq!(cursor, 4);
    assert_eq!(numeric(&next), 77);
    // A delayed replication that fails on its count has taken the
    // descriptor of the count.
    let list = vec![d(1, 1, 0), d(0, 31, 1), d(0, 1, 1)];
    let mut buffer = BitBuffer::new(vec![0xFF, 0]);
    let mut cursor = 1usize;
    let e = read_replication_descriptor(&mut buffer, &list, 0, &mut cursor, &table_b(), &table_d())
        .unwrap_err();
    assert_eq!(e.kind, ErrorKind::InvalidLayout);
    assert_eq!(cursor, 2);
    assert_eq!(buffer.cursor(), (1, 0));
}

#[test]
fn the_bits_read_are_those_of_the_elements_and_the_counts() {
    // 7 + (8 bits of count + 2 * (8 + 7 + 10)) + (16 + 8 + 8) + 10
    let mut w = BitWriter::new().put(7, 1).put(8, 2);
    for _ in 0..2 {
        w = w.put(8, 1).put(7, 1).put(10, 1);
    }
    let mut buffer = w.put(16, 2024).put(8, 2).put(8, 29).put(10, 5).put(6, 0).buffer();
    let list = vec![d(0, 1, 1), d(3, 1, 201), d(3, 1, 11), d(0, 1, 2)];
    let nodes = read_descriptors(&mut buffer, &list, &table_b(), &table_d()).unwrap();
    assert_eq!(nodes.len(), 4);
    let total = 7 + 8 + 2 * 25 + 32 + 10;
    assert_eq!(buffer.cursor(), (total / 8, total % 8));
}
