use rsv::{decode_rsv, encode_rsv, DecodeRSVErrors, NULL_VALUE, ROW_TERMINATOR, VALUE_TERMINATOR};

fn text(s: &str) -> Option<String> {
    Some(s.to_string())
}

#[test]
fn empty_document_encodes_to_empty_buffer() {
    let rows: Vec<Vec<Option<String>>> = vec![];
    assert_eq!(encode_rsv(&rows), Vec::<u8>::new());
}

#[test]
fn empty_buffer_decodes_to_empty_document() {
    let rows = decode_rsv(&[]).unwrap();
    assert!(rows.is_empty());
}

#[test]
fn null_cell_encoding() {
    let rows = vec![vec![None]];
    let bytes = encode_rsv(&rows);
    assert_eq!(bytes, vec![0xFE, 0xFF, 0xFD]);
    assert_eq!(decode_rsv(&bytes).unwrap(), rows);
}

#[test]
fn empty_string_cell_encoding() {
    let rows = vec![vec![text("")]];
    let bytes = encode_rsv(&rows);
    assert_eq!(bytes, vec![0xFF, 0xFD]);
    assert_eq!(decode_rsv(&bytes).unwrap(), rows);
}

#[test]
fn null_and_empty_string_stay_apart() {
    let rows = vec![vec![None, text(""), None]];
    let bytes = encode_rsv(&rows);
    assert_eq!(bytes, vec![0xFE, 0xFF, 0xFF, 0xFE, 0xFF, 0xFD]);
    assert_eq!(decode_rsv(&bytes).unwrap(), rows);
}

#[test]
fn multi_row_multi_cell_round_trip() {
    let rows = vec![
        vec![text("Hello user!"), None],
        vec![text("\n\\'\""), text("😁🔃📖")],
    ];
    let bytes = encode_rsv(&rows);
    let mut expected: Vec<u8> = Vec::new();
    expected.extend_from_slice("Hello user!".as_bytes());
    expected.extend_from_slice(&[0xFF, 0xFE, 0xFF, 0xFD]);
    expected.extend_from_slice("\n\\'\"".as_bytes());
    expected.push(0xFF);
    expected.extend_from_slice("😁🔃📖".as_bytes());
    expected.extend_from_slice(&[0xFF, 0xFD]);
    assert_eq!(bytes, expected);
    assert_eq!(decode_rsv(&bytes).unwrap(), rows);
}

#[test]
fn empty_rows_round_trip() {
    let rows: Vec<Vec<Option<String>>> = vec![vec![], vec![text("a")], vec![]];
    let bytes = encode_rsv(&rows);
    assert_eq!(bytes, vec![0xFD, b'a', 0xFF, 0xFD, 0xFD]);
    assert_eq!(decode_rsv(&bytes).unwrap(), rows);
}

#[test]
fn rows_of_different_lengths_round_trip() {
    let rows = vec![
        vec![text("x"), text("yz"), None, text("é")],
        vec![text("")],
        vec![None, None],
    ];
    assert_eq!(decode_rsv(&encode_rsv(&rows)).unwrap(), rows);
}

#[test]
fn lone_row_terminator_is_one_empty_row() {
    let rows = decode_rsv(&[0xFD]).unwrap();
    assert_eq!(rows, vec![Vec::<Option<String>>::new()]);
}

#[test]
fn reserved_bytes_have_their_values() {
    assert_eq!(VALUE_TERMINATOR, 0xFF);
    assert_eq!(ROW_TERMINATOR, 0xFD);
    assert_eq!(NULL_VALUE, 0xFE);
}

#[test]
fn dropped_last_byte_is_incomplete_document() {
    let rows = vec![vec![text("Hello"), None]];
    let mut bytes = encode_rsv(&rows);
    bytes.pop();
    assert!(matches!(decode_rsv(&bytes), Err(DecodeRSVErrors::IncompleteRSVDocument)));
}

#[test]
fn buffer_without_terminator_is_incomplete_document() {
    assert!(matches!(decode_rsv(b"abc"), Err(DecodeRSVErrors::IncompleteRSVDocument)));
    assert!(matches!(decode_rsv(&[0xFF]), Err(DecodeRSVErrors::IncompleteRSVDocument)));
}

#[test]
fn row_terminator_after_text_is_incomplete_row() {
    assert!(matches!(decode_rsv(&[b'a', 0xFD]), Err(DecodeRSVErrors::IncompleteRSVRow(2))));
}

#[test]
fn incomplete_row_reports_terminator_position() {
    let bytes = [b'a', 0xFF, 0xFD, b'b', 0xFF, b'c', b'd', 0xFD];
    assert!(matches!(decode_rsv(&bytes), Err(DecodeRSVErrors::IncompleteRSVRow(8))));
}

#[test]
fn null_marker_before_row_terminator_is_incomplete_row() {
    assert!(matches!(decode_rsv(&[0xFE, 0xFD]), Err(DecodeRSVErrors::IncompleteRSVRow(2))));
}

#[test]
fn invalid_utf8_value_is_rejected() {
    let bytes = [0xC3, 0x28, 0xFF, 0xFD];
    assert!(matches!(decode_rsv(&bytes), Err(DecodeRSVErrors::InvalidStringValue(_))));
}

#[test]
fn null_marker_inside_text_is_invalid() {
    let bytes = [b'a', 0xFE, 0xFF, 0xFD];
    assert!(matches!(decode_rsv(&bytes), Err(DecodeRSVErrors::InvalidStringValue(_))));
    let doubled = [0xFE, 0xFE, 0xFF, 0xFD];
    assert!(matches!(decode_rsv(&doubled), Err(DecodeRSVErrors::InvalidStringValue(_))));
}

#[test]
fn invalid_utf8_error_keeps_the_bytes() {
    let bytes = [b'o', b'k', 0xFF, 0xE2, 0x82, 0xFF, 0xFD];
    match decode_rsv(&bytes) {
        Err(DecodeRSVErrors::InvalidStringValue(e)) => {
            assert_eq!(e.as_bytes(), &[0xE2, 0x82]);
        }
        other => panic!("unexpected result: {:?}", other),
    }
}

#[test]
fn first_fault_wins() {
    let bytes = [0xC3, 0xFF, b'a', 0xFD];
    assert!(matches!(decode_rsv(&bytes), Err(DecodeRSVErrors::InvalidStringValue(_))));
    let bytes = [b'a', 0xFD, 0xC3, 0xFF, 0xFD];
    assert!(matches!(decode_rsv(&bytes), Err(DecodeRSVErrors::IncompleteRSVRow(2))));
}

#[test]
fn multi_byte_text_decodes_to_its_characters() {
    let mut bytes: Vec<u8> = "é😁".as_bytes().to_vec();
    bytes.extend_from_slice(&[0xFF, 0xFD]);
    let rows = decode_rsv(&bytes).unwrap();
    assert_eq!(rows, vec![vec![text("é😁")]]);
    assert_eq!(rows[0][0].as_ref().unwrap().chars().count(), 2);
}
