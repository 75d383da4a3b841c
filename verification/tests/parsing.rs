use dupe_killer::cli::{parse_min_size, parse_size_text};
use dupe_killer::types::{hex_to_bytes, HashBytes};

#[test]
fn doc_example_megabytes_and_kilobytes() {
    assert_eq!(parse_min_size("1MB").unwrap(), 1_000_000);
    assert_eq!(parse_min_size("500KB").unwrap(), 500_000);
}

#[test]
fn plain_bytes_and_suffix_b() {
    assert_eq!(parse_min_size("100B").unwrap(), 100);
    assert_eq!(parse_min_size("100").unwrap(), 100);
    assert_eq!(parse_min_size("0").unwrap(), 0);
}

#[test]
fn every_unit_multiplier() {
    assert_eq!(parse_min_size("2K").unwrap(), 2_000);
    assert_eq!(parse_min_size("2M").unwrap(), 2_000_000);
    assert_eq!(parse_min_size("2G").unwrap(), 2_000_000_000);
    assert_eq!(parse_min_size("2GB").unwrap(), 2_000_000_000);
    assert_eq!(parse_min_size("2KiB").unwrap(), 2_048);
    assert_eq!(parse_min_size("2Ki").unwrap(), 2_048);
    assert_eq!(parse_min_size("2MiB").unwrap(), 2_097_152);
    assert_eq!(parse_min_size("2Mi").unwrap(), 2_097_152);
    assert_eq!(parse_min_size("2GiB").unwrap(), 2_147_483_648);
    assert_eq!(parse_min_size("2Gi").unwrap(), 2_147_483_648);
}

#[test]
fn lowercase_and_surrounding_spaces() {
    assert_eq!(parse_min_size("1mb").unwrap(), 1_000_000);
    assert_eq!(parse_min_size("  3 kib \t").unwrap(), 3_072);
    assert_eq!(parse_min_size("\u{3000}7 B\u{a0}").unwrap(), 7);
}

#[test]
fn fractions_round_down() {
    assert_eq!(parse_min_size("1.5KB").unwrap(), 1_500);
    assert_eq!(parse_min_size("1.5GiB").unwrap(), 1_610_612_736);
    assert_eq!(parse_min_size(".5K").unwrap(), 500);
    assert_eq!(parse_min_size("2.KB").unwrap(), 2_000);
    assert_eq!(parse_min_size("0.0001B").unwrap(), 0);
    assert_eq!(parse_min_size("1.0009KB").unwrap(), 1_000);
    assert_eq!(parse_min_size("1.005KB").unwrap(), 1_005);
}

#[test]
fn huge_numbers_are_capped() {
    assert_eq!(parse_min_size("99999999999999999999GB").unwrap(), u64::MAX);
    assert_eq!(parse_min_size("18446744073709551615").unwrap(), u64::MAX);
    assert_eq!(parse_min_size("18446744073709551614").unwrap(), 18_446_744_073_709_551_614);
}

#[test]
fn invalid_numbers() {
    assert_eq!(
        parse_min_size("").unwrap_err(),
        "无效的数字 '': cannot parse float from empty string"
    );
    assert_eq!(
        parse_min_size("MB").unwrap_err(),
        "无效的数字 '': cannot parse float from empty string"
    );
    assert_eq!(parse_min_size("-5MB").unwrap_err(), "无效的数字 '': cannot parse float from empty string");
    assert_eq!(parse_min_size(".MB").unwrap_err(), "无效的数字 '.': invalid float literal");
    assert_eq!(parse_min_size("1.2.3MB").unwrap_err(), "无效的数字 '1.2.3': invalid float literal");
}

#[test]
fn unknown_units() {
    assert_eq!(
        parse_min_size("5xb").unwrap_err(),
        "不支持的单位 'XB'，支持: B, KB, MB, GB（或 KiB, MiB, GiB）"
    );
    assert_eq!(
        parse_min_size("5 k b").unwrap_err(),
        "不支持的单位 'K B'，支持: B, KB, MB, GB（或 KiB, MiB, GiB）"
    );
    assert_eq!(
        parse_min_size("1e3").unwrap_err(),
        "不支持的单位 'E3'，支持: B, KB, MB, GB（或 KiB, MiB, GiB）"
    );
}

#[test]
fn size_text_is_read_as_given() {
    assert_eq!(parse_size_text("12KB").unwrap(), 12_000);
    assert!(parse_size_text("12kb").is_err());
}

#[test]
fn hex_text_of_a_digest() {
    let mut bytes = [0u8; 32];
    for (i, b) in bytes.iter_mut().enumerate() {
        *b = (i as u8).wrapping_mul(37);
    }
    let h = HashBytes(bytes);
    let text = h.to_hex();
    assert_eq!(text.len(), 64);
    assert!(text.starts_with("00254a6f94b9de03"));
    assert_eq!(HashBytes::from_hex(&text).unwrap(), h);
    assert_eq!(HashBytes::from_hex(&text.to_uppercase()).unwrap(), h);
    let signed = format!("+f{}", &text[2..]);
    assert_eq!(HashBytes::from_hex(&signed).unwrap_err(), "invalid digit found in string");
}

#[test]
fn hex_to_bytes_cases() {
    assert_eq!(hex_to_bytes("").unwrap(), Vec::<u8>::new());
    assert_eq!(hex_to_bytes("00ffA0").unwrap(), vec![0x00, 0xff, 0xa0]);
    assert_eq!(hex_to_bytes("+f").unwrap_err(), "invalid digit found in string");
    assert_eq!(hex_to_bytes("+a").unwrap_err(), "invalid digit found in string");
    assert_eq!(hex_to_bytes("aéb").unwrap_err(), "invalid digit found in string");
    assert_eq!(hex_to_bytes("\u{800}a").unwrap_err(), "invalid digit found in string");
    assert_eq!(hex_to_bytes("abc").unwrap_err(), "hex string must have even length");
    assert_eq!(hex_to_bytes("zz").unwrap_err(), "invalid digit found in string");
    assert_eq!(hex_to_bytes("-1").unwrap_err(), "invalid digit found in string");
    assert_eq!(hex_to_bytes("00é0").unwrap_err(), "hex string must have even length");
    assert_eq!(hex_to_bytes("éé").unwrap_err(), "invalid digit found in string");
}

#[test]
fn from_hex_needs_32_bytes() {
    assert_eq!(HashBytes::from_hex("abcd").unwrap_err(), "HashBytes must be 32 bytes");
    assert_eq!(HashBytes::from_hex("abc").unwrap_err(), "hex string must have even length");
}

#[test]
fn letter_case_of_ascii_sizes_is_ignored() {
    for s in ["1mb", "1Mb", "1mB", "1MB"] {
        assert_eq!(parse_min_size(s).unwrap(), 1_000_000);
    }
    assert_eq!(parse_min_size("2gib").unwrap(), parse_min_size("2GiB").unwrap());
    assert_eq!(parse_min_size("5xb").unwrap_err(), parse_min_size("5XB").unwrap_err());
}
