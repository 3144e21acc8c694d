use starsoldier_ground_compress::{decode, encode, encode_row, CodecError};

const ORIGIN: usize = 0xD90C;

fn distinct(start: u8, n: usize) -> Vec<u8> {
    (0..n).map(|i| start + i as u8).collect()
}

fn round_trip(raw: &[u8], origin: usize) -> Vec<u8> {
    let enc = encode(raw, origin).expect("encode");
    let dec = decode(&enc, origin).expect("decode");
    assert_eq!(dec, raw);
    enc
}

#[test]
fn zero_row_is_one_run() {
    let raw = vec![0u8; 20];
    assert_eq!(encode(&raw, ORIGIN).unwrap(), vec![0xFF, 0x00]);
    assert_eq!(decode(&[0xFF, 0x00], ORIGIN).unwrap(), vec![0u8; 20]);
}

#[test]
fn distinct_row_stays_literal() {
    let raw = distinct(1, 20);
    assert_eq!(encode(&raw, ORIGIN).unwrap(), raw);
    assert_eq!(encode_row(&raw), raw);
}

#[test]
fn empty_input_gives_empty_stream() {
    assert_eq!(encode(&[], ORIGIN).unwrap(), Vec::<u8>::new());
    assert_eq!(decode(&[], ORIGIN).unwrap(), Vec::<u8>::new());
}

#[test]
fn input_not_whole_rows_is_rejected() {
    assert_eq!(encode(&[0u8; 21], ORIGIN), Err(CodecError::InputSize));
    assert_eq!(encode(&[0u8; 19], ORIGIN), Err(CodecError::InputSize));
}

#[test]
fn truncated_run_is_out_of_bounds() {
    assert_eq!(decode(&[0xFF], ORIGIN), Err(CodecError::StreamBounds));
    assert_eq!(decode(&[0xDC, 1, 2, 3], ORIGIN), Err(CodecError::StreamBounds));
    assert_eq!(decode(&[1, 2, 3], ORIGIN), Err(CodecError::StreamBounds));
}

#[test]
fn truncated_marker_is_out_of_bounds() {
    assert_eq!(decode(&[0xDB, 0x0C], ORIGIN), Err(CodecError::StreamBounds));
}

#[test]
fn run_past_row_end_overflows() {
    let mut s = distinct(1, 18);
    s.extend_from_slice(&[0xEE, 7]);
    assert_eq!(decode(&s, ORIGIN), Err(CodecError::RowOverflow));
}

#[test]
fn reference_below_origin_underflows() {
    assert_eq!(decode(&[0xDB, 0x00, 0x00], ORIGIN), Err(CodecError::AddressUnderflow));
}

#[test]
fn reference_to_reference_is_rejected() {
    let mut s = distinct(1, 20);
    s.extend_from_slice(&[0xDB, 0x0C, 0xD9]);
    s.extend_from_slice(&[0xDB, 0x14 + 0x0C, 0xD9]);
    assert_eq!(decode(&s, ORIGIN), Err(CodecError::NestedReference));
}

#[test]
fn repeated_long_row_becomes_back_reference() {
    let row = distinct(1, 20);
    let mut raw = row.clone();
    raw.extend_from_slice(&row);
    let enc = round_trip(&raw, ORIGIN);
    let mut expected = row.clone();
    expected.extend_from_slice(&[0xDB, 0x0C, 0xD9]);
    assert_eq!(enc, expected);
}

#[test]
fn back_reference_holds_first_address() {
    let a = distinct(1, 20);
    let b = distinct(50, 20);
    let mut raw = a.clone();
    raw.extend_from_slice(&b);
    raw.extend_from_slice(&b);
    raw.extend_from_slice(&a);
    let enc = round_trip(&raw, 0x1000);
    assert_eq!(enc.len(), 46);
    assert_eq!(&enc[40..43], &[0xDB, 0x14, 0x10]);
    assert_eq!(&enc[43..46], &[0xDB, 0x00, 0x10]);
}

#[test]
fn short_rows_are_repeated_not_referenced() {
    let raw = vec![0u8; 40];
    assert_eq!(round_trip(&raw, ORIGIN), vec![0xFF, 0x00, 0xFF, 0x00]);
}

#[test]
fn reference_past_sixteen_bits_overflows() {
    let row = distinct(1, 20);
    let mut raw = row.clone();
    raw.extend_from_slice(&row);
    assert_eq!(encode(&raw, 0x10000), Err(CodecError::AddressOverflow));
    assert_eq!(encode(&raw, 0xFFFF).unwrap().len(), 23);
}

#[test]
fn longest_runs_of_each_unit() {
    let unit2: Vec<u8> = [1u8, 2].iter().cycle().take(20).cloned().collect();
    assert_eq!(round_trip(&unit2, ORIGIN), vec![0xED, 1, 2]);
    let mut unit3: Vec<u8> = [1u8, 2, 3].iter().cycle().take(18).cloned().collect();
    unit3.extend_from_slice(&[9, 10]);
    assert_eq!(round_trip(&unit3, ORIGIN), vec![0xE4, 1, 2, 3, 9, 10]);
    let unit4: Vec<u8> = [1u8, 2, 3, 4].iter().cycle().take(20).cloned().collect();
    assert_eq!(round_trip(&unit4, ORIGIN), vec![0xDF, 1, 2, 3, 4]);
    assert_eq!(round_trip(&[7u8; 20], ORIGIN), vec![0xFF, 7]);
}

#[test]
fn shortest_runs_of_each_unit() {
    let mut unit1 = vec![7u8, 7, 7];
    unit1.extend(distinct(100, 17));
    let mut expected = vec![0xEE, 7];
    expected.extend(distinct(100, 17));
    assert_eq!(round_trip(&unit1, ORIGIN), expected);

    let mut unit2 = vec![1u8, 2, 1, 2];
    unit2.extend(distinct(100, 16));
    let mut expected = vec![0xE5, 1, 2];
    expected.extend(distinct(100, 16));
    assert_eq!(round_trip(&unit2, ORIGIN), expected);

    let mut unit3 = vec![1u8, 2, 3, 1, 2, 3];
    unit3.extend(distinct(100, 14));
    let mut expected = vec![0xE0, 1, 2, 3];
    expected.extend(distinct(100, 14));
    assert_eq!(round_trip(&unit3, ORIGIN), expected);

    let mut unit4 = vec![1u8, 2, 3, 4, 1, 2, 3, 4];
    unit4.extend(distinct(100, 12));
    let mut expected = vec![0xDC, 1, 2, 3, 4];
    expected.extend(distinct(100, 12));
    assert_eq!(round_trip(&unit4, ORIGIN), expected);
}

#[test]
fn pair_of_equal_bytes_stays_literal() {
    let mut raw = vec![5u8, 5];
    raw.extend(distinct(100, 18));
    assert_eq!(encode_row(&raw), raw);
}

#[test]
fn marker_byte_inside_row_round_trips() {
    let mut raw = distinct(1, 10);
    raw.push(0xDB);
    raw.extend(distinct(20, 9));
    assert_eq!(round_trip(&raw, ORIGIN), raw);
}

#[test]
fn mixed_rows_round_trip() {
    let mut raw = Vec::new();
    raw.extend(vec![3u8; 20]);
    raw.extend(distinct(10, 20));
    let mut r = vec![1u8, 2, 1, 2, 1, 2];
    r.extend(vec![9u8; 14]);
    raw.extend(r.clone());
    raw.extend(distinct(10, 20));
    raw.extend(r);
    raw.extend(vec![3u8; 20]);
    let enc = round_trip(&raw, ORIGIN);
    assert!(enc.len() < raw.len());
}

#[test]
fn row_codes_never_exceed_row_width() {
    let rows: Vec<Vec<u8>> = vec![
        distinct(0, 20),
        vec![0xFF; 20],
        [1u8, 2, 3, 1, 2, 3, 1].iter().cycle().take(20).cloned().collect(),
        (0..20).map(|i| (i * 37 % 11) as u8).collect(),
    ];
    for row in rows {
        assert!(encode_row(&row).len() <= 20);
    }
}

#[test]
fn run_of_high_bytes_round_trips() {
    let raw = vec![0xF0u8; 20];
    assert_eq!(round_trip(&raw, ORIGIN), vec![0xFF, 0xF0]);
}

#[test]
fn repeated_markers_each_give_one_row() {
    let row = distinct(1, 20);
    let mut s = row.clone();
    s.extend_from_slice(&[0xDB, 0x0C, 0xD9]);
    s.extend_from_slice(&[0xDB, 0x0C, 0xD9]);
    let mut expected = row.clone();
    expected.extend_from_slice(&row);
    expected.extend_from_slice(&row);
    assert_eq!(decode(&s, ORIGIN).unwrap(), expected);
}

#[test]
fn bad_marker_fails_even_when_followed_by_another() {
    assert_eq!(
        decode(&[0xDB, 0x00, 0x00, 0xDB, 0x00, 0x00], ORIGIN),
        Err(CodecError::AddressUnderflow)
    );
}

#[test]
fn origin_moves_only_addresses() {
    let a = distinct(1, 20);
    let mut raw = a.clone();
    raw.extend(vec![0u8; 20]);
    raw.extend_from_slice(&a);
    let e1 = encode(&raw, 0x1000).unwrap();
    let e2 = encode(&raw, 0x2034).unwrap();
    assert_eq!(e1.len(), e2.len());
    assert_eq!(&e1[..22], &e2[..22]);
    assert_eq!(&e1[22..], &[0xDB, 0x00, 0x10]);
    assert_eq!(&e2[22..], &[0xDB, 0x34, 0x20]);
}
