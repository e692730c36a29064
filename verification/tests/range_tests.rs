use opus_dec::range::Decoder;

#[test]
fn tell_is_one_after_construction() {
    let data = [0x12u8, 0x34, 0x56];
    let dec = Decoder::new(&data);
    assert_eq!(dec.tell(), 1);
}

#[test]
fn tell_is_one_after_construction_from_empty() {
    let data: [u8; 0] = [];
    let dec = Decoder::new(&data);
    assert_eq!(dec.tell(), 1);
}

#[test]
fn tell_frac_after_construction() {
    let data = [0xABu8, 0xCD];
    let dec = Decoder::new(&data);
    assert_eq!(dec.tell_frac(), 8);
    assert_eq!(dec.tell_frac_fast(), 8);
}

#[test]
fn decode_on_all_zero_bytes() {
    // Zero bytes renormalize to value == 2^31 - 1, so the offset is 0.
    let data = [0u8; 8];
    let dec = Decoder::new(&data);
    let (offset, divisor) = dec.decode(4);
    assert_eq!(offset, 0);
    assert_eq!(divisor, 0x80000000u32 / 4);
}

#[test]
fn decode_on_all_ones_bytes() {
    // 0xFF bytes renormalize to value == 0, the top of the offset order.
    let data = [0xFFu8; 8];
    let dec = Decoder::new(&data);
    let (offset, _) = dec.decode(4);
    assert_eq!(offset, 3);
}

#[test]
fn decode_bin_matches_decode_for_power_of_two() {
    let data = [0x5Au8, 0xC3, 0x99, 0x01, 0x77];
    let dec = Decoder::new(&data);
    let (o1, d1) = dec.decode(256);
    let (o2, d2) = dec.decode_bin(8);
    assert_eq!(o1, o2);
    assert_eq!(d1, d2);
}

#[test]
fn update_narrows_and_tell_advances() {
    let data = [0u8; 8];
    let mut dec = Decoder::new(&data);
    let (offset, divisor) = dec.decode(4);
    dec.update(divisor, offset as u16, offset as u16 + 1, 4);
    // One symbol out of 4 equal bands costs two bits on top of the initial 1.
    assert_eq!(dec.tell(), 3);
}

#[test]
fn decode_bit_logp_follows_value() {
    let zeros = [0u8; 4];
    let mut dec = Decoder::new(&zeros);
    assert!(!dec.decode_bit_logp(1));
    let ones = [0xFFu8; 4];
    let mut dec = Decoder::new(&ones);
    assert!(dec.decode_bit_logp(1));
}

#[test]
fn decode_bit_logp_zero_cost_bit() {
    // With logp == 0 the scale equals the whole range, so the outcome is
    // always true and no bits are consumed.
    let data = [0x42u8, 0x24, 0x99];
    let mut dec = Decoder::new(&data);
    let before = dec.tell();
    assert!(dec.decode_bit_logp(0));
    assert_eq!(dec.tell(), before);
}

#[test]
fn decode_icdf_single_band_table() {
    // A table whose first threshold is 0 has one band covering everything:
    // the result is index 1 whatever the input bits.
    for data in [[0u8; 6], [0xFFu8; 6], [0x5Au8, 1, 2, 3, 4, 5]] {
        let mut dec = Decoder::new(&data);
        let table = [0u8];
        assert_eq!(dec.decode_icdf(&table, 8), 1);
    }
}

#[test]
fn decode_icdf_index_in_table_range() {
    let table = [200u8, 100, 50, 0];
    for data in [[0u8; 6], [0xFFu8; 6], [0x13u8, 0x57, 0x9B, 0xDF, 0x24, 0x68]] {
        let mut dec = Decoder::new(&data);
        let index = dec.decode_icdf(&table, 8);
        assert!(1 <= index && index <= table.len());
    }
}

#[test]
fn decode_icdf_extremes() {
    let table = [200u8, 100, 50, 0];
    // value == 2^31 - 1 sits above the first threshold.
    let mut dec = Decoder::new(&[0u8; 6]);
    assert_eq!(dec.decode_icdf(&table, 8), 1);
    // value == 0 falls through every non-zero threshold.
    let mut dec = Decoder::new(&[0xFFu8; 6]);
    assert_eq!(dec.decode_icdf(&table, 8), 4);
}

#[test]
fn decode_bits_reads_from_the_tail() {
    let data = [0u8, 0, 0, 0, 1, 2, 3, 4];
    let mut dec = Decoder::new(&data);
    // An 8-bit read grabs the last two tail bytes and returns the low 8.
    assert_eq!(dec.decode_bits(8), 4);
    assert_eq!(dec.decode_bits(8), 3);
}

#[test]
fn decode_bits_advances_tell() {
    let data = [0u8, 0, 0, 0, 9, 9, 9, 9];
    let mut dec = Decoder::new(&data);
    assert_eq!(dec.tell(), 1);
    dec.decode_bits(5);
    assert_eq!(dec.tell(), 6);
}

#[test]
fn decode_uniform_small_total() {
    let mut dec = Decoder::new(&[0u8; 8]);
    assert_eq!(dec.decode_uniform(4), 0);
    let mut dec = Decoder::new(&[0xFFu8; 8]);
    assert_eq!(dec.decode_uniform(4), 3);
}

#[test]
fn decode_uniform_large_total_clamps_to_bound() {
    let mut dec = Decoder::new(&[0xFFu8; 8]);
    let v = dec.decode_uniform(1000);
    assert_eq!(v, 999);
    let mut dec = Decoder::new(&[0u8; 8]);
    assert_eq!(dec.decode_uniform(1000), 0);
}

#[test]
fn identical_input_gives_identical_decode_sequence() {
    let data = [0x5Au8, 0xC3, 0x01, 0xFF, 0x77, 0x12, 0x34, 0x56, 0x78, 0x9A];
    let mut first = Decoder::new(&data);
    let mut second = Decoder::new(&data);
    let table = [200u8, 100, 50, 0];

    let (o1, d1) = first.decode(100);
    let (o2, d2) = second.decode(100);
    assert_eq!((o1, d1), (o2, d2));

    first.update(d1, o1 as u16, o1 as u16 + 1, 100);
    second.update(d2, o2 as u16, o2 as u16 + 1, 100);

    assert_eq!(first.decode_bit_logp(3), second.decode_bit_logp(3));
    assert_eq!(first.decode_icdf(&table, 8), second.decode_icdf(&table, 8));
    assert_eq!(first.decode_bits(7), second.decode_bits(7));
    assert_eq!(first.decode_uniform(5000), second.decode_uniform(5000));
    assert_eq!(first.tell(), second.tell());
    assert_eq!(first.tell_frac(), second.tell_frac());
    assert_eq!(first.tell_frac_fast(), second.tell_frac_fast());
}

#[test]
fn empty_buffer_decodes_as_zero_padding() {
    // Decoding never fails, whatever the buffer; an empty one reads as an
    // endless run of zero bytes.
    let data: [u8; 0] = [];
    let mut dec = Decoder::new(&data);
    let (offset, divisor) = dec.decode(16);
    assert_eq!(offset, 0);
    dec.update(divisor, 0, 1, 16);
    assert_eq!(dec.decode_bits(4), 0);
    assert_eq!(dec.decode_uniform(300), 0);
}

#[test]
fn tell_frac_fast_agrees_with_tell_frac() {
    // Drive decoders into varied interval widths and compare the two
    // fractional bit counts at each state.
    for seed in 0u8..32 {
        let data = [
            seed,
            seed.wrapping_mul(37).wrapping_add(11),
            seed.wrapping_mul(101).wrapping_add(3),
            0xF0,
            0x0F,
            seed,
        ];
        let mut dec = Decoder::new(&data);
        assert_eq!(dec.tell_frac(), dec.tell_frac_fast());
        let table = [240u8, 150, 60, 20, 0];
        for round in 0..4 {
            let total = 3 + 2 * (seed as u32 % 7) + round;
            let (o, d) = dec.decode(total);
            dec.update(d, o as u16, o as u16 + 1, total as u16);
            assert_eq!(dec.tell_frac(), dec.tell_frac_fast());
            dec.decode_icdf(&table, 8);
            assert_eq!(dec.tell_frac(), dec.tell_frac_fast());
            dec.decode_bit_logp(2);
            assert_eq!(dec.tell_frac(), dec.tell_frac_fast());
        }
    }
}

#[test]
fn tell_frac_refines_tell() {
    let data = [0x5Au8, 0xC3, 0x01, 0xFF];
    let mut dec = Decoder::new(&data);
    let (o, d) = dec.decode(7);
    dec.update(d, o as u16, o as u16 + 1, 7);
    let whole = dec.tell();
    let frac = dec.tell_frac();
    // The 1/8-bit measure rounds within one whole bit of tell().
    assert!(frac <= whole * 8);
    assert!(frac >= (whole - 1) * 8);
}
