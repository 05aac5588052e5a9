use sonde_bufr::bit_buffer::BitBuffer;
use sonde_bufr::decimal::Decimal;
use sonde_bufr::ErrorKind;

/// Packs fields most significant bit first, with no padding between them.
struct BitWriter {
    bytes: Vec<u8>,
    used: usize,
}

impl BitWriter {
    fn new() -> Self {
        BitWriter { bytes: Vec::new(), used: 0 }
    }

    fn put(&mut self, bits: usize, value: u64) {
        for i in (0..bits).rev() {
            if self.used % 8 == 0 {
                self.bytes.push(0);
            }
            let bit = ((value >> i) & 1) as u8;
            let last = self.bytes.len() - 1;
            self.bytes[last] |= bit << (7 - self.used % 8);
            self.used += 1;
        }
    }

    fn finish(self) -> Vec<u8> {
        self.bytes
    }
}

fn all_ones(bits: usize) -> u64 {
    if bits == 64 {
        u64::MAX
    } else {
        (1u64 << bits) - 1
    }
}

#[test]
fn a_written_number_is_read_back() {
    for bits in 1..=64usize {
        let top = all_ones(bits);
        let mut values = vec![0u64, top / 2, top / 3, top - 1];
        if bits > 1 {
            values.push(1);
            values.push(1u64 << (bits - 1));
        }
        for value in values {
            if value == top {
                continue;
            }
            for lead in 0..9usize {
                let mut w = BitWriter::new();
                w.put(lead, 0);
                w.put(bits, value);
                w.put(3, 0b101);
                let mut buffer = BitBuffer::new(w.finish());
                if lead > 0 {
                    buffer.read_n_bits(lead).unwrap();
                }
                assert_eq!(buffer.read_u64(bits).unwrap(), Some(value));
                assert_eq!(buffer.cursor(), ((lead + bits) / 8, (lead + bits) % 8));
                assert_eq!(buffer.read_u64(3).unwrap(), Some(0b101));
            }
        }
    }
}

#[test]
fn every_small_number_is_read_back() {
    for bits in 1..=10usize {
        for value in 0..all_ones(bits) {
            let mut w = BitWriter::new();
            w.put(5, 0b10101);
            w.put(bits, value);
            let mut buffer = BitBuffer::new(w.finish());
            assert_eq!(buffer.read_u8(5).unwrap(), 0b10101);
            assert_eq!(buffer.read_u64(bits).unwrap(), Some(value));
        }
    }
}

#[test]
fn all_bits_set_is_the_missing_value() {
    for bits in 1..=64usize {
        for lead in 0..8usize {
            let mut w = BitWriter::new();
            w.put(lead, 0);
            w.put(bits, all_ones(bits));
            let mut buffer = BitBuffer::new(w.finish());
            if lead > 0 {
                buffer.read_n_bits(lead).unwrap();
            }
            assert_eq!(buffer.read_u64(bits).unwrap(), None);
            assert_eq!(buffer.cursor(), ((lead + bits) / 8, (lead + bits) % 8));
        }
    }
}

#[test]
fn reads_one_exact_field() {
    // 0b0000_0001 0b1000_0000: seven bits give 0, then ten bits give 0b11_0000_0000.
    let mut buffer = BitBuffer::new(vec![0b0000_0001, 0b1000_0000, 0]);
    assert_eq!(buffer.read_u64(7).unwrap(), Some(0));
    assert_eq!(buffer.read_u64(10).unwrap(), Some(0b11_0000_0000));
    assert_eq!(buffer.cursor(), (2, 1));
}

#[test]
fn read_u8_within_and_across_bytes() {
    let mut buffer = BitBuffer::new(vec![0b1011_0110, 0b0101_1100]);
    assert_eq!(buffer.read_u8(3).unwrap(), 0b101);
    assert_eq!(buffer.read_u8(5).unwrap(), 0b10110);
    assert_eq!(buffer.cursor(), (1, 0));
    assert_eq!(buffer.read_u8(2).unwrap(), 0b01);
    let mut buffer = BitBuffer::new(vec![0b1011_0110, 0b0101_1100]);
    assert_eq!(buffer.read_u8(6).unwrap(), 0b101101);
    assert_eq!(buffer.read_u8(8).unwrap(), 0b1001_0111);
    assert_eq!(buffer.cursor(), (1, 6));
}

#[test]
fn read_u8_takes_one_to_eight_bits() {
    let mut buffer = BitBuffer::new(vec![0xAB, 0xCD]);
    assert_eq!(buffer.read_u8(0).unwrap_err().kind, ErrorKind::UnsupportedFeature);
    assert_eq!(buffer.read_u8(9).unwrap_err().kind, ErrorKind::UnsupportedFeature);
    assert_eq!(buffer.cursor(), (0, 0));
    assert_eq!(buffer.read_u8(8).unwrap(), 0xAB);
}

#[test]
fn a_number_is_one_to_sixty_four_bits() {
    let mut buffer = BitBuffer::new(vec![0; 16]);
    assert_eq!(buffer.read_u64(0).unwrap_err().kind, ErrorKind::UnsupportedFeature);
    assert_eq!(buffer.read_u64(65).unwrap_err().kind, ErrorKind::UnsupportedFeature);
    assert_eq!(buffer.read_n_bits(65).unwrap_err().kind, ErrorKind::UnsupportedFeature);
    assert_eq!(buffer.read_i64(0, 5).unwrap_err().kind, ErrorKind::UnsupportedFeature);
    assert_eq!(buffer.read_usize(70).unwrap_err().kind, ErrorKind::UnsupportedFeature);
    assert_eq!(buffer.cursor(), (0, 0));
    assert_eq!(buffer.read_u64(64).unwrap(), Some(0));
}

#[test]
fn reading_past_the_end_fails_and_consumes_nothing() {
    let mut buffer = BitBuffer::new(vec![0x12, 0x34]);
    assert_eq!(buffer.read_u64(5).unwrap(), Some(0b00010));
    let e = buffer.read_u64(12).unwrap_err();
    assert_eq!(e.kind, ErrorKind::BitBufferOverrun);
    assert_eq!(e.section, None);
    assert_eq!(e.descriptor, None);
    assert_eq!(buffer.cursor(), (0, 5));
    assert_eq!(buffer.read_u64(11).unwrap(), Some(0b010_0011_0100));
    assert_eq!(buffer.cursor(), (2, 0));
    assert_eq!(buffer.read_u8(1).unwrap_err().kind, ErrorKind::BitBufferOverrun);
    assert_eq!(buffer.read_text(8).unwrap_err().kind, ErrorKind::BitBufferOverrun);
}

#[test]
fn an_empty_buffer_holds_nothing() {
    let mut buffer = BitBuffer::new(Vec::new());
    assert_eq!(buffer.read_u64(1).unwrap_err().kind, ErrorKind::BitBufferOverrun);
    assert_eq!(buffer.cursor(), (0, 0));
}

#[test]
fn the_reference_value_is_added() {
    let mut w = BitWriter::new();
    w.put(12, 1000);
    w.put(12, 1000);
    w.put(12, 0);
    w.put(12, 0xFFF);
    let mut buffer = BitBuffer::new(w.finish());
    assert_eq!(buffer.read_i64(12, -1024).unwrap(), Some(-24));
    assert_eq!(buffer.read_i64(12, 500).unwrap(), Some(1500));
    assert_eq!(buffer.read_i64(12, i64::MIN).unwrap(), Some(i64::MIN));
    assert_eq!(buffer.read_i64(12, -1024).unwrap(), None);
}

#[test]
fn a_sum_out_of_range_is_an_error() {
    let mut w = BitWriter::new();
    w.put(8, 200);
    w.put(64, u64::MAX - 1);
    w.put(64, u64::MAX - 1);
    let mut buffer = BitBuffer::new(w.finish());
    assert_eq!(buffer.read_i64(8, i64::MAX - 100).unwrap_err().kind, ErrorKind::InvalidLayout);
    assert_eq!(buffer.read_i64(64, 0).unwrap_err().kind, ErrorKind::InvalidLayout);
    // A large field with a negative reference value still fits.
    assert_eq!(buffer.read_i64(64, i64::MIN).unwrap(), Some(i64::MAX - 1));
}

#[test]
fn a_scaled_number_keeps_sum_and_scale() {
    let mut w = BitWriter::new();
    w.put(16, 29315);
    w.put(16, 29315);
    w.put(16, 0xFFFF);
    w.put(16, 0xFFFF);
    let mut buffer = BitBuffer::new(w.finish());
    assert_eq!(
        buffer.read_decimal(16, -27315, 2).unwrap(),
        Some(Decimal { mantissa: 2000, scale: 2 })
    );
    assert_eq!(
        buffer.read_decimal(16, 0, -3).unwrap(),
        Some(Decimal { mantissa: 29315, scale: -3 })
    );
    assert_eq!(buffer.read_decimal(16, -27315, 2).unwrap(), None);
    assert_eq!(buffer.read_decimal(16, 17, 0).unwrap(), None);
}

#[test]
fn a_scaled_number_divides_by_a_power_of_ten() {
    let mut w = BitWriter::new();
    w.put(16, 29315);
    let mut buffer = BitBuffer::new(w.finish());
    let d = buffer.read_decimal(16, -27315, 2).unwrap().unwrap();
    let value = d.mantissa as f64 / 10f64.powi(d.scale);
    assert!((value - 20.0).abs() < 1e-9);
    assert_eq!(Decimal::new(7, 0), Decimal { mantissa: 7, scale: 0 });
}

#[test]
fn a_count_is_read_and_must_not_be_missing() {
    let mut buffer = BitBuffer::new(vec![3, 0x01, 0x02, 0xFF, 0xFF, 0xFF]);
    assert_eq!(buffer.read_usize(8).unwrap(), 3);
    assert_eq!(buffer.read_usize(16).unwrap(), 0x0102);
    assert_eq!(buffer.read_usize(8).unwrap_err().kind, ErrorKind::InvalidLayout);
    assert_eq!(buffer.read_usize(16).unwrap_err().kind, ErrorKind::InvalidLayout);
}

#[test]
fn text_is_read_without_its_nul_octets() {
    let mut buffer = BitBuffer::new(b"KBOS\0\0\0\0AB\0C".to_vec());
    assert_eq!(buffer.read_text(64).unwrap(), "KBOS");
    assert_eq!(buffer.cursor(), (8, 0));
    assert_eq!(buffer.read_text(32).unwrap(), "ABC");
}

#[test]
fn text_may_start_within_a_byte() {
    let mut w = BitWriter::new();
    w.put(3, 0b010);
    for c in b"Hi!" {
        w.put(8, *c as u64);
    }
    let mut buffer = BitBuffer::new(w.finish());
    assert_eq!(buffer.read_u64(3).unwrap(), Some(0b010));
    assert_eq!(buffer.read_text(24).unwrap(), "Hi!");
    assert_eq!(buffer.cursor(), (3, 3));
}

#[test]
fn text_of_several_octets_a_character_is_decoded() {
    let mut buffer = BitBuffer::new("°C é".as_bytes().to_vec());
    assert_eq!(buffer.read_text(8 * 6).unwrap(), "°C é");
}

#[test]
fn text_that_is_not_utf8_is_an_error() {
    let mut buffer = BitBuffer::new(vec![b'A', 0xFF, b'B', b'C']);
    let e = buffer.read_text(24).unwrap_err();
    assert_eq!(e.kind, ErrorKind::InvalidLayout);
    assert_eq!(buffer.cursor(), (0, 0));
    assert_eq!(buffer.read_text(8).unwrap(), "A");
}

#[test]
fn text_is_whole_octets() {
    let mut buffer = BitBuffer::new(b"ABCD".to_vec());
    assert_eq!(buffer.read_text(0).unwrap_err().kind, ErrorKind::UnsupportedFeature);
    assert_eq!(buffer.read_text(12).unwrap_err().kind, ErrorKind::UnsupportedFeature);
    assert_eq!(buffer.read_text(40).unwrap_err().kind, ErrorKind::BitBufferOverrun);
    assert_eq!(buffer.read_text(usize::MAX - 7).unwrap_err().kind, ErrorKind::BitBufferOverrun);
    assert_eq!(buffer.cursor(), (0, 0));
    assert_eq!(buffer.read_text(32).unwrap(), "ABCD");
}

#[test]
fn bytes_that_hold_bits() {
    assert_eq!(BitBuffer::num_bytes_to_hold_bits(0), 0);
    assert_eq!(BitBuffer::num_bytes_to_hold_bits(1), 1);
    assert_eq!(BitBuffer::num_bytes_to_hold_bits(8), 1);
    assert_eq!(BitBuffer::num_bytes_to_hold_bits(9), 2);
    assert_eq!(BitBuffer::num_bytes_to_hold_bits(64), 8);
    assert_eq!(BitBuffer::num_bytes_to_hold_bits(71), 9);
}
