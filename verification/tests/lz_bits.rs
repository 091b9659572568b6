use rsfrontier_core::jpk::decode::consume_bit;
use rsfrontier_core::jpk::source::ByteCursor;
use rsfrontier_core::jpk::JpkError;

#[test]
fn consume_bit_test() {
    let data: [u8; 4] = [35, 0xCB, 0x12, 0x16];
    let mut cursor = ByteCursor::new(&data);
    let mut flag: u8 = 0b00100011;
    let mut shift_idx: i8 = -1;

    assert_eq!(consume_bit(&mut cursor, &mut shift_idx, &mut flag), Ok(0));
    assert_eq!(shift_idx, 7);
    assert_eq!(consume_bit(&mut cursor, &mut shift_idx, &mut flag), Ok(0));
    assert_eq!(consume_bit(&mut cursor, &mut shift_idx, &mut flag), Ok(1));
    assert_eq!(consume_bit(&mut cursor, &mut shift_idx, &mut flag), Ok(0));
    assert_eq!(consume_bit(&mut cursor, &mut shift_idx, &mut flag), Ok(0));
    assert_eq!(consume_bit(&mut cursor, &mut shift_idx, &mut flag), Ok(0));
    assert_eq!(consume_bit(&mut cursor, &mut shift_idx, &mut flag), Ok(1));
    assert_eq!(consume_bit(&mut cursor, &mut shift_idx, &mut flag), Ok(1));
    assert_eq!(consume_bit(&mut cursor, &mut shift_idx, &mut flag), Ok(1));
    assert_eq!(shift_idx, 7);
    assert_eq!(flag, 0xCB);
}

#[test]
fn consume_bit_reports_the_end_of_the_input() {
    let data: [u8; 1] = [0x80];
    let mut cursor = ByteCursor::new(&data);
    let mut flag: u8 = 0;
    let mut shift_idx: i8 = -1;
    for expected in [1u8, 0, 0, 0, 0, 0, 0, 0] {
        assert_eq!(consume_bit(&mut cursor, &mut shift_idx, &mut flag), Ok(expected));
    }
    assert_eq!(shift_idx, 0);
    assert_eq!(
        consume_bit(&mut cursor, &mut shift_idx, &mut flag),
        Err(JpkError::TruncatedPayload)
    );
    assert_eq!(shift_idx, 0);
    assert_eq!(flag, 0x80);
}
