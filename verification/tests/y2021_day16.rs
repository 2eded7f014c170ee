use aoc::y2021::day16::BitCursor;
use aoc::y2021::day16::OperatorType;
use aoc::y2021::day16::Packet;
use aoc::y2021::day16::PacketErrorKind;
use aoc::y2021::day16::PacketType;

#[test]
fn literal() {
    let input = "D2FE28";
    let packet: Packet = Packet::decode_from_string(input).unwrap();

    assert_eq!(packet.version, 6);
    assert_eq!(packet.packet_type, PacketType::Literal);
    assert_eq!(packet.value, Some(2021));

    assert_eq!(packet.version_sum(), 6);
}

#[test]
fn operator() {
    let input = "38006F45291200";
    let packet: Packet = Packet::decode_from_string(input).unwrap();

    assert_eq!(packet.version, 1);
    assert_eq!(packet.packet_type, PacketType::Operator(OperatorType::LessThan));

    assert_eq!(packet.version_sum(), 9);
}

#[test]
fn example1() {
    // 8A004A801A8002F478 represents an operator packet (version 4) which
    // contains an operator packet (version 1) which contains an operator
    // packet (version 5) which contains a literal value (version 6); this
    // packet has a version sum of 16.
    let input = "8A004A801A8002F478";
    let packet: Packet = Packet::decode_from_string(input).unwrap();

    assert_eq!(packet.version, 4);

    assert_eq!(packet.version_sum(), 16);
}

#[test]
fn example2() {
    // 620080001611562C8802118E34 represents an operator packet (version 3)
    // which contains two sub-packets; each sub-packet is an operator packet
    // that contains two literal values. This packet has a version sum of 12.
    let input = "620080001611562C8802118E34";
    let packet: Packet = Packet::decode_from_string(input).unwrap();

    assert_eq!(packet.version, 3);

    assert_eq!(packet.version_sum(), 12);
}

#[test]
fn example3() {
    // C0015000016115A2E0802F182340 has the same structure as the previous
    // example, but the outermost packet uses a different length type ID.
    // This packet has a version sum of 23.
    let input = "C0015000016115A2E0802F182340";
    let packet: Packet = Packet::decode_from_string(input).unwrap();

    assert_eq!(packet.version, 6);

    assert_eq!(packet.version_sum(), 23);
}

#[test]
fn example4() {
    // A0016C880162017C3686B18A3D4780 is an operator packet that contains an
    // operator packet that contains an operator packet that contains five
    // literal values; it has a version sum of 31.
    let input = "A0016C880162017C3686B18A3D4780";
    let packet: Packet = Packet::decode_from_string(input).unwrap();

    assert_eq!(packet.version, 5);

    assert_eq!(packet.version_sum(), 31);
}

#[test]
fn sum_op() {
    // C200B40A82 finds the sum of 1 and 2, resulting in the value 3
    let packet: Packet = Packet::decode_from_string("C200B40A82").unwrap();

    assert_eq!(packet.value, Some(3));
}

#[test]
fn product_op() {
    // 04005AC33890 finds the product of 6 and 9, resulting in the value 54
    let packet: Packet = Packet::decode_from_string("04005AC33890").unwrap();

    assert_eq!(packet.value, Some(54));
}

#[test]
fn min_op() {
    // 880086C3E88112 finds the minimum of 7, 8, and 9, resulting in the value 7
    let packet: Packet = Packet::decode_from_string("880086C3E88112").unwrap();

    assert_eq!(packet.value, Some(7));
}

#[test]
fn max_op() {
    // CE00C43D881120 finds the maximum of 7, 8, and 9, resulting in the value 9
    let packet: Packet = Packet::decode_from_string("CE00C43D881120").unwrap();

    assert_eq!(packet.value, Some(9));
}

#[test]
fn gt_op() {
    // D8005AC2A8F0 produces 1, because 5 is less than 15
    let packet: Packet = Packet::decode_from_string("D8005AC2A8F0").unwrap();

    assert_eq!(packet.value, Some(1));
}

#[test]
fn lt_op() {
    // F600BC2D8F produces 0, because 5 is not greater than 15
    let packet: Packet = Packet::decode_from_string("F600BC2D8F").unwrap();

    assert_eq!(packet.value, Some(0));
}

#[test]
fn eq_op() {
    // 9C005AC2F8F0 produces 0, because 5 is not equal to 15.
    let packet: Packet = Packet::decode_from_string("9C005AC2F8F0").unwrap();

    assert_eq!(packet.value, Some(0));
}

#[test]
fn eq_nested_op() {
    // 9C0141080250320F1802104A08 produces 1, because 1 + 3 = 2 * 2
    let packet: Packet = Packet::decode_from_string("9C0141080250320F1802104A08").unwrap();

    assert_eq!(packet.value, Some(1));
}

#[test]
fn traversals_repeat() {
    // the traversals are read-only: repeated calls agree
    let packet: Packet = Packet::decode_from_string("8A004A801A8002F478").unwrap();

    assert_eq!(packet.version_sum(), packet.version_sum());
    assert_eq!(packet.get_value(), packet.get_value());
}

#[test]
fn parse_bit_string() {
    // the bits of D2FE28, given directly as a bit string
    let mut packet = Packet::new();
    assert_eq!(packet.packet_type, PacketType::Unknown);
    assert!(packet.parse("110100101111111000101000").is_ok());
    assert_eq!(packet.version, 6);
    assert_eq!(packet.value, Some(2021));
}

#[test]
fn truncated_input_is_out_of_bounds() {
    // D2 begins a literal packet whose first group is cut off
    let r = Packet::decode_from_string("D2");
    assert_eq!(r.unwrap_err().kind, PacketErrorKind::OutOfBounds);

    let r2 = Packet::decode_from_string("");
    assert_eq!(r2.unwrap_err().kind, PacketErrorKind::OutOfBounds);
}

#[test]
fn invalid_character_is_format_error() {
    let r = Packet::decode_from_string("D2FG28");
    assert_eq!(r.unwrap_err().kind, PacketErrorKind::Format);

    let mut packet = Packet::new();
    let r2 = packet.parse("11012");
    assert_eq!(r2.unwrap_err().kind, PacketErrorKind::Format);
}

#[test]
fn comparison_needs_two_children() {
    // a greater-than packet with a single literal child
    let bits = ["000", "101", "1", "00000000001", "110", "100", "00001"].concat();
    let r = Packet::decode_from_string(&bits);
    assert_eq!(r.unwrap_err().kind, PacketErrorKind::Malformed);
}

#[test]
fn operator_needs_children() {
    // a sum packet with a zero-length child region
    let bits = ["000", "000", "0", "000000000000000"].concat();
    let r = Packet::decode_from_string(&bits);
    assert_eq!(r.unwrap_err().kind, PacketErrorKind::Malformed);
}

#[test]
fn oversized_literal_is_overflow() {
    // a literal of seventeen 4-bit groups of ones needs 68 bits
    let mut bits = String::from("000100");
    for _ in 0..16 {
        bits.push_str("11111");
    }
    bits.push_str("01111");
    let r = Packet::decode_from_string(&bits);
    assert_eq!(r.unwrap_err().kind, PacketErrorKind::Overflow);
}

#[test]
fn cursor_reads_fields_in_order() {
    let mut cursor = BitCursor::from_input("D2FE28").unwrap();
    assert_eq!(cursor.remaining(), 24);
    assert_eq!(cursor.take(3).unwrap(), 6);
    assert_eq!(cursor.take(3).unwrap(), 4);
    assert_eq!(cursor.remaining(), 18);
    assert!(cursor.take(19).is_err());
    // a failed read leaves the cursor where it was
    assert_eq!(cursor.remaining(), 18);
}

#[test]
fn cursor_rejects_bad_input() {
    let r = BitCursor::from_input("hello world");
    assert_eq!(r.unwrap_err().kind, PacketErrorKind::Format);
}

#[test]
fn decode_leaves_trailing_bits() {
    // D2FE28 has three padding bits after the 21-bit literal packet
    let mut cursor = BitCursor::from_input("D2FE28").unwrap();
    let packet = Packet::decode(&mut cursor).unwrap();
    assert_eq!(packet.value, Some(2021));
    assert_eq!(cursor.remaining(), 3);
}
