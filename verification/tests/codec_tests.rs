use rsv::codec::NULL_VALUE;
use rsv::codec::ROW_TERMINATOR;
use rsv::codec::VALUE_TERMINATOR;
use rsv::decode_rsv;
use rsv::encode_rsv;
use rsv::DecodeError;
use rsv::Rsv;

#[test]
fn test_encode_decode() {
    let data = vec![
        vec![Some(String::from("Hello world")), None],
        vec![Some(String::from("\u{e2}\u{2dc}\u{20ac}\u{ef}\u{b8}"))],
    ];

    let encoded_data = encode_rsv(&data);

    assert_eq!(data, decode_rsv(&encoded_data).unwrap());
}

#[test]
fn test_decode_error() {
    let mut data = encode_rsv(&vec![vec![None]]);
    data.pop();

    if decode_rsv(&data).is_ok() {
        panic!("Expected Err, but got Ok");
    }
}

#[test]
fn empty_table_round_trip() {
    let table: Vec<Vec<Option<String>>> = vec![];
    assert_eq!(encode_rsv(&table), Vec::<u8>::new());
    assert_eq!(decode_rsv(&[]).unwrap(), table);
}

#[test]
fn empty_row_preserved() {
    let table: Vec<Vec<Option<String>>> = vec![vec![]];
    assert_eq!(encode_rsv(&table), vec![ROW_TERMINATOR]);
    assert_eq!(decode_rsv(&[ROW_TERMINATOR]).unwrap(), table);
}

#[test]
fn null_round_trip() {
    let table: Vec<Vec<Option<String>>> = vec![vec![None]];
    let bytes = encode_rsv(&table);
    assert_eq!(bytes, vec![NULL_VALUE, VALUE_TERMINATOR, ROW_TERMINATOR]);
    assert_eq!(decode_rsv(&bytes).unwrap(), table);
}

#[test]
fn empty_string_distinct_from_null() {
    let table: Vec<Vec<Option<String>>> = vec![vec![Some(String::new()), None]];
    let bytes = encode_rsv(&table);
    assert_eq!(
        bytes,
        vec![VALUE_TERMINATOR, NULL_VALUE, VALUE_TERMINATOR, ROW_TERMINATOR]
    );
    let decoded = decode_rsv(&bytes).unwrap();
    assert_eq!(decoded, table);
    assert_ne!(decoded[0][0], decoded[0][1]);
}

#[test]
fn truncation_rejected() {
    let mut bytes = encode_rsv(&vec![vec![None]]);
    bytes.pop();
    assert_eq!(decode_rsv(&bytes), Err(DecodeError::IncompleteDocument));
}

#[test]
fn mid_value_row_terminator_rejected() {
    assert_eq!(
        decode_rsv(&[0x41, ROW_TERMINATOR]),
        Err(DecodeError::IncompleteRow)
    );
}

#[test]
fn invalid_utf8_rejected() {
    // 0x80 is a lone continuation byte, never valid UTF-8 on its own.
    assert_eq!(
        decode_rsv(&[0x80, VALUE_TERMINATOR, ROW_TERMINATOR]),
        Err(DecodeError::InvalidUtf8Value)
    );
}

#[test]
fn decode_error_is_deterministic() {
    let malformed = vec![0x41, ROW_TERMINATOR];
    let first = decode_rsv(&malformed);
    let second = decode_rsv(&malformed);
    assert!(first.is_err());
    assert_eq!(first, second);
}

#[test]
fn text_values_come_back_verbatim() {
    let table = vec![vec![
        Some(String::from("hi")),
        Some(String::from("a\nb\\c'd\"e")),
        Some(String::from("\u{2600}\u{fe0f} caf\u{e9}")),
    ]];
    let bytes = encode_rsv(&table);
    // "hi" is plain ASCII, so its bytes appear directly in the stream.
    assert_eq!(bytes[0], b'h');
    assert_eq!(bytes[1], b'i');
    assert_eq!(bytes[2], VALUE_TERMINATOR);
    assert_eq!(*bytes.last().unwrap(), ROW_TERMINATOR);
    assert_eq!(decode_rsv(&bytes).unwrap(), table);
}

#[test]
fn multiple_rows_keep_their_order() {
    let table = vec![
        vec![Some(String::from("first"))],
        vec![],
        vec![None, Some(String::from("third"))],
    ];
    let bytes = encode_rsv(&table);
    assert_eq!(decode_rsv(&bytes).unwrap(), table);
}

#[test]
fn decoded_text_is_really_decoded() {
    // The two bytes 0xC3 0xA9 are the UTF-8 encoding of one character.
    let bytes = vec![0xC3, 0xA9, VALUE_TERMINATOR, ROW_TERMINATOR];
    let decoded = decode_rsv(&bytes).unwrap();
    assert_eq!(decoded, vec![vec![Some(String::from("\u{e9}"))]]);
    assert_eq!(decoded[0][0].as_ref().unwrap().chars().count(), 1);
}

#[test]
fn rsv_handle_data_and_set_data() {
    let mut handle = Rsv {
        file: String::from("table.rsv"),
        data: vec![vec![Some(String::from("old"))]],
    };
    let copy = handle.data();
    assert_eq!(copy, vec![vec![Some(String::from("old"))]]);
    handle.set_data(vec![vec![None, Some(String::from("new"))]]);
    assert_eq!(handle.data(), vec![vec![None, Some(String::from("new"))]]);
    assert_eq!(handle.file, String::from("table.rsv"));
    // the copy handed out earlier is unaffected
    assert_eq!(copy, vec![vec![Some(String::from("old"))]]);
}
