use didi::rle::{rle_decode, rle_decode_opt, rle_encode};

#[test]
fn test_rle_encode() {
    let data = "aaabbcccc";
    assert_eq!(rle_encode(data), "a3b2c4");
}

#[test]
fn test_rle_decode() {
    let data = "a3b2c4";
    assert_eq!(rle_decode(data), "aaabbcccc");
}

#[test]
fn encode_empty() {
    assert_eq!(rle_encode(""), "");
}

#[test]
fn decode_empty() {
    assert_eq!(rle_decode(""), "");
}

#[test]
fn encode_single_characters() {
    assert_eq!(rle_encode("abc"), "a1b1c1");
}

#[test]
fn encode_long_run_uses_two_count_digits() {
    assert_eq!(rle_encode("aaaaaaaaaaa"), "a11");
}

#[test]
fn encode_non_ascii_runs() {
    assert_eq!(rle_encode("ééü"), "é2ü1");
}

#[test]
fn decode_zero_count() {
    assert_eq!(rle_decode("a0"), "");
    assert_eq!(rle_decode("a0b2"), "bb");
}

#[test]
fn decode_drops_trailing_unpaired_character() {
    assert_eq!(rle_decode("a3b"), "aaa");
}

#[test]
fn decode_opt_accepts_well_formed_input() {
    assert_eq!(rle_decode_opt("a3b2c4").as_deref(), Some("aaabbcccc"));
    assert_eq!(rle_decode_opt("").as_deref(), Some(""));
}

#[test]
fn decode_opt_rejects_non_digit_count() {
    assert_eq!(rle_decode_opt("ax"), None);
    assert_eq!(rle_decode_opt("a3bb"), None);
}

#[test]
fn round_trip_with_digit_literals() {
    let data = "a1b22";
    assert_eq!(rle_decode(&rle_encode(data)), data);
}

#[test]
fn round_trip_short_runs() {
    for data in ["x", "xy", "aaabbcccc", "ababab", "zzzzzzzzz"] {
        assert_eq!(rle_decode(&rle_encode(data)), data);
    }
}
