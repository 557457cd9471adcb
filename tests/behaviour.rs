use base64_codec::{
    count_trailing_pad_characters, decode, decode_byte, encode, encode_byte, encode_to_vec,
    in_alphabet, pack_triplet, ranges_overlap, unpack_triplet, validate_base64, validate_config,
    Base64Config, Base64ConfigError, Base64Error, Padding,
};

fn standard_ranges() -> Vec<std::ops::RangeInclusive<u8>> {
    vec![b'A'..=b'Z', b'a'..=b'z', b'0'..=b'9', b'+'..=b'+', b'/'..=b'/']
}

#[test]
fn round_trip_every_length_and_preset() {
    let configs = [
        Base64Config::standard(),
        Base64Config::url(),
        Base64Config::mime(),
        Base64Config::new(standard_ranges(), Padding::NoPadding).unwrap(),
    ];
    for cfg in configs.iter() {
        for len in 0..40usize {
            let input: Vec<u8> = (0..len).map(|i| (i * 37 + 11) as u8).collect();
            let encoded = encode(cfg, &input);
            let decoded = decode(cfg, &encoded).expect("encoded input decodes");
            assert_eq!(decoded, input);
        }
    }
}

#[test]
fn round_trip_all_byte_values() {
    let cfg = Base64Config::standard();
    let input: Vec<u8> = (0..=255u8).collect();
    let encoded = encode(&cfg, &input);
    assert_eq!(decode(&cfg, &encoded).unwrap(), input);
}

#[test]
fn encode_known_values() {
    let cfg = Base64Config::standard();
    assert_eq!(encode_to_vec(&cfg, b"Hello, World!"), b"SGVsbG8sIFdvcmxkIQ==".to_vec());
    assert_eq!(encode_to_vec(&cfg, b"M"), b"TQ==".to_vec());
    assert_eq!(encode_to_vec(&cfg, b"Ma"), b"TWE=".to_vec());
    assert_eq!(encode_to_vec(&cfg, b"Man"), b"TWFu".to_vec());
    assert_eq!(encode_to_vec(&cfg, b""), Vec::<u8>::new());
}

#[test]
fn encode_without_padding_drops_padding() {
    let cfg = Base64Config::new(standard_ranges(), Padding::NoPadding).unwrap();
    assert_eq!(encode(&cfg, b"Hi"), b"SGk".to_vec());
    assert_eq!(encode(&cfg, b"M"), b"TQ".to_vec());
}

#[test]
fn encode_url_alphabet_uses_dash_and_underscore() {
    let cfg = Base64Config::url();
    assert_eq!(encode(&cfg, &[0xfb, 0xff]), b"-_8=".to_vec());
    assert_eq!(decode(&cfg, b"-_8=").unwrap(), vec![0xfb, 0xff]);
}

#[test]
fn decode_empty_input() {
    let cfg = Base64Config::mime();
    assert_eq!(decode(&cfg, b"").unwrap(), Vec::<u8>::new());
}

#[test]
fn decode_required_padding_length_error_is_exact() {
    let cfg = Base64Config::mime();
    match decode(&cfg, b"AA") {
        Err(Base64Error::InvalidLength(2, b'=')) => {}
        other => panic!("expected InvalidLength(2, '='), got {:?}", other),
    }
    assert_eq!(decode(&cfg, b"TWE=").unwrap(), b"Ma".to_vec());
}

#[test]
fn decode_inconsistent_optional_padding_is_exact() {
    let cfg = Base64Config::standard();
    match decode(&cfg, b"AA=") {
        Err(Base64Error::HasPaddingAndLengthNotMultipleOf4(3)) => {}
        other => panic!("expected HasPaddingAndLengthNotMultipleOf4(3), got {:?}", other),
    }
}

#[test]
fn decode_reports_last_invalid_character() {
    let cfg = Base64Config::standard();
    match decode(&cfg, b"!AB?") {
        Err(Base64Error::InvalidCharacter(b'?')) => {}
        other => panic!("expected InvalidCharacter('?'), got {:?}", other),
    }
}

#[test]
fn decode_padding_is_invalid_without_padding_policy() {
    let cfg = Base64Config::new(standard_ranges(), Padding::NoPadding).unwrap();
    match decode(&cfg, b"AA=") {
        Err(Base64Error::InvalidCharacter(b'=')) => {}
        other => panic!("expected InvalidCharacter('='), got {:?}", other),
    }
}

#[test]
fn excess_padding_is_checked_before_characters() {
    let cfg = Base64Config::standard();
    match validate_base64(&cfg, b"!!!!====") {
        Err(Base64Error::TooManyPaddingCharacters(3)) => {}
        other => panic!("expected TooManyPaddingCharacters(3), got {:?}", other),
    }
}

#[test]
fn validate_returns_unpadded_length() {
    let cfg = Base64Config::standard();
    assert_eq!(validate_base64(&cfg, b"TQ==").unwrap(), 2);
    assert_eq!(validate_base64(&cfg, b"TQ").unwrap(), 2);
    assert_eq!(validate_base64(&cfg, b"TWFu").unwrap(), 4);
}

#[test]
fn trailing_padding_is_counted_up_to_three() {
    let cfg = Base64Config::standard();
    assert_eq!(count_trailing_pad_characters(&cfg, b"AAAA"), 0);
    assert_eq!(count_trailing_pad_characters(&cfg, b"AAA="), 1);
    assert_eq!(count_trailing_pad_characters(&cfg, b"AA=="), 2);
    assert_eq!(count_trailing_pad_characters(&cfg, b"A====="), 3);
    assert_eq!(count_trailing_pad_characters(&cfg, b"="), 1);
    assert_eq!(count_trailing_pad_characters(&cfg, b""), 0);
    assert_eq!(count_trailing_pad_characters(&cfg, b"=A="), 1);
}

#[test]
fn config_coverage_error_reports_sum() {
    match validate_config(&[b'A'..=b'Z'], &Padding::NoPadding) {
        Err(Base64ConfigError::RangeLengthsDoNotSumTo64(26)) => {}
        other => panic!("expected RangeLengthsDoNotSumTo64(26), got {:?}", other),
    }
    let mut ranges = standard_ranges();
    ranges.push(b'-'..=b'-');
    match validate_config(&ranges, &Padding::NoPadding) {
        Err(Base64ConfigError::RangeLengthsDoNotSumTo64(65)) => {}
        other => panic!("expected RangeLengthsDoNotSumTo64(65), got {:?}", other),
    }
}

#[test]
fn config_overlap_reports_first_pair() {
    let ranges = vec![b'A'..=b'C', b'X'..=b'Z', b'B'..=b'D', b'Y'..=b'Y'];
    match validate_config(&ranges, &Padding::NoPadding) {
        Err(Base64ConfigError::OverlappingRanges(a, b)) => {
            assert_eq!(a, b'A'..=b'C');
            assert_eq!(b, b'B'..=b'D');
        }
        other => panic!("expected OverlappingRanges, got {:?}", other),
    }
}

#[test]
fn config_overlap_checked_before_padding() {
    let ranges = vec![b'A'..=b'Z', b'Z'..=b'z', b'='..=b'='];
    match validate_config(&ranges, &Padding::Required(b'=')) {
        Err(Base64ConfigError::OverlappingRanges(a, b)) => {
            assert_eq!(a, b'A'..=b'Z');
            assert_eq!(b, b'Z'..=b'z');
        }
        other => panic!("expected OverlappingRanges, got {:?}", other),
    }
}

#[test]
fn config_padding_in_range_reports_range() {
    let ranges = vec![b'A'..=b'Z', b'0'..=b'='];
    match validate_config(&ranges, &Padding::Optional(b'=')) {
        Err(Base64ConfigError::PaddingCharInRange(c, r)) => {
            assert_eq!(c, b'=');
            assert_eq!(r, b'0'..=b'=');
        }
        other => panic!("expected PaddingCharInRange, got {:?}", other),
    }
}

#[test]
fn config_valid_ranges_accepted() {
    assert!(validate_config(&standard_ranges(), &Padding::Required(b'=')).is_ok());
    assert!(Base64Config::new(standard_ranges(), Padding::Optional(b'=')).is_ok());
}

#[test]
fn custom_alphabet_order_sets_values() {
    let ranges = vec![b'0'..=b'9', b'A'..=b'Z', b'a'..=b'z', b'+'..=b'+', b'/'..=b'/'];
    let cfg = Base64Config::new(ranges, Padding::NoPadding).unwrap();
    assert_eq!(encode_byte(&cfg, 0), b'0');
    assert_eq!(encode_byte(&cfg, 10), b'A');
    assert_eq!(decode_byte(&cfg, b'a'), 36);
    assert_eq!(decode_byte(&cfg, b'/'), 63);
    let input = b"any bytes at all";
    assert_eq!(decode(&cfg, &encode(&cfg, input)).unwrap(), input.to_vec());
}

#[test]
fn symbol_mapping_is_inverse_on_all_values() {
    let cfg = Base64Config::standard();
    for v in 0..64u8 {
        let c = encode_byte(&cfg, v);
        assert!(in_alphabet(&cfg, c));
        assert_eq!(decode_byte(&cfg, c), v);
    }
    assert!(!in_alphabet(&cfg, b'='));
}

#[test]
fn pack_and_unpack_exact_values() {
    assert_eq!(unpack_triplet(b"Man"), [19, 22, 5, 46]);
    assert_eq!(pack_triplet(&[19, 22, 5, 46]), *b"Man");
    assert_eq!(unpack_triplet(&[0xff, 0xff, 0xff]), [63, 63, 63, 63]);
}

#[test]
fn ranges_overlap_cases() {
    assert!(ranges_overlap(&(b'A'..=b'Z'), &(b'Z'..=b'z')));
    assert!(!ranges_overlap(&(b'A'..=b'Y'), &(b'Z'..=b'z')));
    assert!(ranges_overlap(&(b'A'..=b'Z'), &(b'C'..=b'D')));
    assert!(!ranges_overlap(&(b'a'..=b'z'), &(b'A'..=b'Z')));
}

#[test]
fn config_error_messages_are_exact() {
    let ovr = Base64ConfigError::OverlappingRanges(b'A'..=b'Z', b'Z'..=b'z');
    assert_eq!(ovr.to_string(), "Overlapping ranges A..=Z and Z..=z");
    let pad = Base64ConfigError::PaddingCharInRange(b'=', b'='..=b'=');
    assert_eq!(pad.to_string(), "Padding character '=' found in range =..==");
    let len = Base64ConfigError::RangeLengthsDoNotSumTo64(130);
    assert_eq!(len.to_string(), "Range lengths sum to 130, not 64");
    let zero = Base64ConfigError::RangeLengthsDoNotSumTo64(0);
    assert_eq!(zero.to_string(), "Range lengths sum to 0, not 64");
}

#[test]
fn decode_error_messages_are_exact() {
    assert_eq!(Base64Error::InvalidCharacter(b'!').to_string(), "Invalid character '!'");
    assert_eq!(
        Base64Error::InvalidLength(3, b'=').to_string(),
        "Length 3 not a multiple of 4. Padding with character '=' required"
    );
    assert_eq!(
        Base64Error::HasPaddingAndLengthNotMultipleOf4(17).to_string(),
        "Padding characters detected and length 17 not a multiple of 4"
    );
    assert_eq!(
        Base64Error::TooManyPaddingCharacters(3).to_string(),
        "Too many padding characters: 3"
    );
}
