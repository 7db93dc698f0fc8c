use runes::varint::{decode, encode_to_vec, Error};

fn encoded(n: u128) -> Vec<u8> {
    let mut bytes = Vec::new();
    encode_to_vec(n, &mut bytes);
    bytes
}

#[test]
fn small_values_take_one_byte() {
    assert_eq!(encoded(0), vec![0x00]);
    assert_eq!(encoded(1), vec![0x01]);
    assert_eq!(encoded(127), vec![0x7f]);
}

#[test]
fn groups_come_low_order_first() {
    assert_eq!(encoded(128), vec![0x80, 0x01]);
    assert_eq!(encoded(300), vec![0xac, 0x02]);
    assert_eq!(encoded(16383), vec![0xff, 0x7f]);
    assert_eq!(encoded(16384), vec![0x80, 0x80, 0x01]);
}

#[test]
fn the_largest_value_takes_nineteen_bytes() {
    let mut expected = vec![0xff; 18];
    expected.push(0x03);
    assert_eq!(encoded(u128::MAX), expected);
    assert_eq!(decode(&expected), Ok((u128::MAX, 19)));
}

#[test]
fn encoding_appends() {
    let mut bytes = vec![9, 9];
    encode_to_vec(128, &mut bytes);
    assert_eq!(bytes, vec![9, 9, 0x80, 0x01]);
}

#[test]
fn decoding_stops_at_the_final_group() {
    assert_eq!(decode(&[0x00]), Ok((0, 1)));
    assert_eq!(decode(&[0x7f, 0xff]), Ok((127, 1)));
    assert_eq!(decode(&[0xac, 0x02, 0x55]), Ok((300, 2)));
}

#[test]
fn decoding_accepts_padded_values() {
    assert_eq!(decode(&[0x80, 0x00]), Ok((0, 2)));
    assert_eq!(decode(&[0x81, 0x80, 0x00]), Ok((1, 3)));
}

#[test]
fn decoding_reads_back_what_was_encoded() {
    for shift in 0..128 {
        let n = 1u128 << shift;
        for value in [n - 1, n, n + 1] {
            let bytes = encoded(value);
            assert_eq!(decode(&bytes), Ok((value, bytes.len())));
        }
    }
}

#[test]
fn bytes_that_end_early_are_unterminated() {
    assert_eq!(decode(&[]), Err(Error::Unterminated));
    assert_eq!(decode(&[0x80]), Err(Error::Unterminated));
    assert_eq!(decode(&[0xff; 18]), Err(Error::Unterminated));
    let mut bytes = vec![0x80; 18];
    bytes.push(0x83);
    assert_eq!(decode(&bytes), Err(Error::Unterminated));
}

#[test]
fn a_nineteenth_group_with_more_than_two_bits_overflows() {
    let mut bytes = vec![0x80; 18];
    bytes.push(0x04);
    assert_eq!(decode(&bytes), Err(Error::Overflow));
    let mut bytes = vec![0xff; 18];
    bytes.push(0x84);
    bytes.push(0x00);
    assert_eq!(decode(&bytes), Err(Error::Overflow));
}

#[test]
fn a_twentieth_group_is_overlong() {
    let mut bytes = vec![0x80; 18];
    bytes.push(0x83);
    bytes.push(0x00);
    assert_eq!(decode(&bytes), Err(Error::Overlong));
    assert_eq!(decode(&[0x80; 20]), Err(Error::Overlong));
}
