use didi::container::{build_container, parse_container, sniff_container, ContainerError};
use didi::search::contains_substring;

fn built(data: &str, search: &str) -> Vec<u8> {
    build_container(data, search).expect("search string fits the length field")
}

#[test]
fn test_write_and_read_didi() {
    let data = "aaabbccccxyz";
    let search_string = "xyz";
    let bytes = built(data, search_string);
    let (decoded_data, stored_search_string, found_search_string) =
        parse_container(&bytes).unwrap();
    assert_eq!(decoded_data, "aaabbccccxyz");
    assert_eq!(stored_search_string, search_string);
    assert_eq!(found_search_string, true);
}

#[test]
fn test_sniffer() {
    let data = "aaabbcccc";
    let search_string = "abccc";
    let bytes = built(data, search_string);
    let (stored_search_string, contains_search_string) = sniff_container(&bytes).unwrap();
    assert_eq!(stored_search_string, search_string);
    assert_eq!(contains_search_string, data.contains(search_string));
}

#[test]
fn layout_is_magic_length_search_flag_payload() {
    let bytes = built("aaabbcccc", "ab");
    let mut expected = b"DIDI".to_vec();
    expected.push(2);
    expected.extend_from_slice(b"ab");
    expected.push(1);
    expected.extend_from_slice(b"a3b2c4");
    assert_eq!(bytes, expected);
}

#[test]
fn flag_is_computed_from_original_not_encoded_data() {
    // "a3" occurs in the encoded payload "a3b2c4" but not in the data.
    let bytes = built("aaabbcccc", "a3");
    let (_, flag) = sniff_container(&bytes).unwrap();
    assert_eq!(flag, false);
}

#[test]
fn empty_search_string_is_contained() {
    let bytes = built("abc", "");
    let (stored, flag) = sniff_container(&bytes).unwrap();
    assert_eq!(stored, "");
    assert_eq!(flag, true);
}

#[test]
fn empty_data_round_trips() {
    let bytes = built("", "q");
    let (decoded, stored, flag) = parse_container(&bytes).unwrap();
    assert_eq!(decoded, "");
    assert_eq!(stored, "q");
    assert_eq!(flag, false);
}

#[test]
fn non_ascii_metadata_round_trips() {
    let data = "ééüx";
    let search = "éü";
    let bytes = built(data, search);
    let (decoded, stored, flag) = parse_container(&bytes).unwrap();
    assert_eq!(decoded, data);
    assert_eq!(stored, search);
    assert_eq!(flag, true);
}

#[test]
fn search_string_longer_than_255_bytes_is_rejected() {
    let long = "x".repeat(256);
    assert_eq!(
        build_container("data", &long),
        Err(ContainerError::SearchStringTooLong)
    );
    let exactly = "y".repeat(255);
    assert!(build_container("data", &exactly).is_ok());
}

#[test]
fn corrupted_magic_is_invalid_format() {
    let mut bytes = built("aaabbcccc", "ab");
    bytes[0] = b'X';
    assert_eq!(parse_container(&bytes), Err(ContainerError::InvalidFormat));
    assert_eq!(sniff_container(&bytes), Err(ContainerError::InvalidFormat));
}

#[test]
fn truncated_file_is_invalid_format() {
    let bytes = b"DID".to_vec();
    assert_eq!(parse_container(&bytes), Err(ContainerError::InvalidFormat));
    assert_eq!(sniff_container(&bytes), Err(ContainerError::InvalidFormat));
}

#[test]
fn declared_length_exceeding_available_bytes_is_invalid_format() {
    // Declares a 10-byte search string but holds only 2 further bytes.
    let bytes = vec![b'D', b'I', b'D', b'I', 10, b'a', b'b'];
    assert_eq!(parse_container(&bytes), Err(ContainerError::InvalidFormat));
    assert_eq!(sniff_container(&bytes), Err(ContainerError::InvalidFormat));
}

#[test]
fn invalid_utf8_search_string_is_invalid_encoding() {
    let bytes = vec![b'D', b'I', b'D', b'I', 1, 0xFF, 0];
    assert_eq!(parse_container(&bytes), Err(ContainerError::InvalidEncoding));
    assert_eq!(sniff_container(&bytes), Err(ContainerError::InvalidEncoding));
}

#[test]
fn invalid_utf8_payload_is_invalid_encoding() {
    let mut bytes = vec![b'D', b'I', b'D', b'I', 1, b'q', 0];
    bytes.extend_from_slice(&[b'a', 0xC0]);
    assert_eq!(parse_container(&bytes), Err(ContainerError::InvalidEncoding));
    // The sniffer never touches the payload.
    assert!(sniff_container(&bytes).is_ok());
}

#[test]
fn non_digit_count_position_is_invalid_encoding() {
    let mut bytes = vec![b'D', b'I', b'D', b'I', 1, b'q', 0];
    bytes.extend_from_slice(b"ab");
    assert_eq!(parse_container(&bytes), Err(ContainerError::InvalidEncoding));
}

#[test]
fn sniffer_reads_header_prefix_alone() {
    let full = built("aaabbccccxyz", "xyz");
    let header = full[..4 + 1 + 3 + 1].to_vec();
    assert_eq!(sniff_container(&header), sniff_container(&full));
}

#[test]
fn contains_substring_matches_std() {
    let cases = [
        ("aaabbcccc", "abccc"),
        ("aaabbccccxyz", "xyz"),
        ("hello", ""),
        ("", ""),
        ("", "a"),
        ("abc", "abcd"),
        ("ababc", "abc"),
        ("éüé", "üé"),
    ];
    for (d, q) in cases {
        assert_eq!(contains_substring(d, q), d.contains(q), "{d:?} {q:?}");
    }
}
