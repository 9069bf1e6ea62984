use scalable_cuckoo_filter::bits::Bits;

#[test]
fn bits_it_works() {
    let mut bits = Bits::new(12345);
    assert_eq!(bits.len(), 12352);

    assert_eq!(bits.get_uint(0, 1), 0);
    bits.set_uint(0, 1, 1);
    assert_eq!(bits.get_uint(0, 1), 1);

    assert_eq!(bits.get_uint(333, 10), 0);
    bits.set_uint(333, 10, 0b10_1101_0001);
    assert_eq!(bits.get_uint(333, 10), 0b10_1101_0001);

    assert_eq!(bits.get_uint(335, 4), 0b0100);
    bits.set_uint(335, 4, 0b1010);
    assert_eq!(bits.get_uint(335, 4), 0b1010);
    assert_eq!(bits.get_uint(333, 10), 0b10_1110_1001);
}

#[test]
fn test_high_bits() {
    let mut bits = Bits::new(320);
    assert_eq!(bits.len(), 320);

    assert_eq!(bits.get_uint(290, 5), 0);
    bits.set_uint(290, 5, 31);
    assert_eq!(bits.get_uint(290, 5), 31);
    bits.set_uint(290, 5, 21);
    assert_eq!(bits.get_uint(290, 5), 21);
}

#[test]
fn new_rounds_up_to_whole_bytes() {
    assert_eq!(Bits::new(0).len(), 0);
    assert_eq!(Bits::new(1).len(), 8);
    assert_eq!(Bits::new(8).len(), 8);
    assert_eq!(Bits::new(9).len(), 16);
}

#[test]
fn write_keeps_only_the_low_bits() {
    let mut bits = Bits::new(64);
    bits.set_uint(3, 4, 0xff);
    assert_eq!(bits.get_uint(3, 4), 0xf);
    assert_eq!(bits.get_uint(0, 3), 0);
    assert_eq!(bits.get_uint(7, 8), 0);
    assert_eq!(bits.get_uint(0, 8), 0b0111_1000);
}

#[test]
fn full_width_field_at_any_offset() {
    let value = 0xdead_beef_0123_4567u64;
    for offset in 0..8 {
        let mut bits = Bits::new(80);
        bits.set_uint(offset, 64, value);
        assert_eq!(bits.get_uint(offset, 64), value);
        if offset > 0 {
            assert_eq!(bits.get_uint(0, offset), 0);
        }
        assert_eq!(bits.get_uint(offset + 64, 16 - offset), 0);
    }
}

#[test]
fn neighbours_do_not_interfere() {
    let mut bits = Bits::new(128);
    bits.set_uint(0, 13, 0x1fff);
    bits.set_uint(13, 13, 0);
    bits.set_uint(26, 13, 0x1555);
    assert_eq!(bits.get_uint(0, 13), 0x1fff);
    assert_eq!(bits.get_uint(13, 13), 0);
    assert_eq!(bits.get_uint(26, 13), 0x1555);
    bits.set_uint(13, 13, 0x1fff);
    assert_eq!(bits.get_uint(0, 13), 0x1fff);
    assert_eq!(bits.get_uint(13, 13), 0x1fff);
    assert_eq!(bits.get_uint(26, 13), 0x1555);
    bits.set_uint(13, 13, 0);
    assert_eq!(bits.get_uint(0, 13), 0x1fff);
    assert_eq!(bits.get_uint(26, 13), 0x1555);
}

#[test]
fn empty_field_reads_zero() {
    let mut bits = Bits::new(16);
    bits.set_uint(0, 16, 0xffff);
    assert_eq!(bits.get_uint(5, 0), 0);
    bits.set_uint(5, 0, 0xffff);
    assert_eq!(bits.get_uint(0, 16), 0xffff);
}
