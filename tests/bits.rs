use unitary_simulator::simulatortools::{index1, index2};

#[test]
fn index1_inserts_a_bit() {
    // 0b101 with a 1 inserted at position 2 is 0b1101
    assert_eq!(index1(1, 2, 0b101), 0b1101);
    assert_eq!(index1(0, 2, 0b101), 0b1001);
    assert_eq!(index1(1, 0, 0b11), 0b111);
    assert_eq!(index1(0, 0, 0b11), 0b110);
    assert_eq!(index1(1, 5, 0), 0b100000);
}

#[test]
fn index2_inserts_two_bits() {
    // bit 1 at position 0 and bit 0 at position 2; the bit of 0b1 lands at position 1
    assert_eq!(index2(1, 0, 0, 2, 0b1), 0b011);
    assert_eq!(index2(0, 2, 1, 0, 0b1), 0b011);
    assert_eq!(index2(1, 1, 1, 0, 0), 0b11);
    assert_eq!(index2(1, 3, 0, 1, 0b11), 0b1101);
    // with no other bits, the two bits land exactly at their positions
    assert_eq!(index2(1, 4, 1, 3, 0), 0b11000);
}
