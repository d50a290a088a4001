use octet_zone::handler::Error;
use octet_zone::parser::Parser;
use octet_zone::parser::Token;
use octet_zone::parser::classify;

fn decode(labels: &[&str]) -> Result<Vec<u8>, Error> {
    let mut parser = Parser::new();
    for label in labels {
        parser.add_token_from_label(label);
    }
    parser.to_address().map(|a| a.bytes)
}

fn hex_labels(bytes: &[u8; 16]) -> Vec<String> {
    let mut labels = Vec::new();
    for pair in bytes.chunks(2) {
        labels.push(format!("{:02x}{:02x}", pair[0], pair[1]));
    }
    labels
}

#[test]
fn classify_literal_labels() {
    assert_eq!(classify("_"), Token::Filler);
    assert_eq!(classify("local"), Token::LocalModifier);
    assert_eq!(classify("map"), Token::MappedModifier);
}

#[test]
fn classify_literals_are_case_sensitive() {
    assert_eq!(classify("LOCAL"), Token::Unknown);
    assert_eq!(classify("Map"), Token::Unknown);
}

#[test]
fn classify_octets() {
    assert_eq!(classify("0"), Token::Octet(0));
    assert_eq!(classify("7"), Token::Octet(7));
    assert_eq!(classify("42"), Token::Octet(42));
    assert_eq!(classify("255"), Token::Octet(255));
    assert_eq!(classify("007"), Token::Octet(7));
}

#[test]
fn classify_rejects_octets_over_255() {
    assert_eq!(classify("256"), Token::Unknown);
    assert_eq!(classify("999"), Token::Unknown);
}

#[test]
fn classify_hex_blocks() {
    assert_eq!(classify("abcd"), Token::HexBlock(0xabcd));
    assert_eq!(classify("ABCD"), Token::HexBlock(0xabcd));
    assert_eq!(classify("0000"), Token::HexBlock(0));
    assert_eq!(classify("1234"), Token::HexBlock(0x1234));
    assert_eq!(classify("12345"), Token::Unknown);
    assert_eq!(classify("abcg"), Token::Unknown);
}

#[test]
fn classify_short_hex_blocks() {
    assert_eq!(classify("x1"), Token::HexBlock(0x1));
    assert_eq!(classify("x1f"), Token::HexBlock(0x1f));
    assert_eq!(classify("xabc"), Token::HexBlock(0xabc));
    assert_eq!(classify("xABC"), Token::HexBlock(0xabc));
    assert_eq!(classify("x"), Token::Unknown);
    assert_eq!(classify("x1234"), Token::Unknown);
    assert_eq!(classify("xg"), Token::Unknown);
}

#[test]
fn classify_other_labels_are_unknown() {
    assert_eq!(classify("hello"), Token::Unknown);
    assert_eq!(classify(""), Token::Unknown);
    assert_eq!(classify("octet"), Token::Unknown);
    assert_eq!(classify("zone"), Token::Unknown);
    assert_eq!(classify("-1"), Token::Unknown);
}

#[test]
fn hex_blocks_round_trip() {
    let bytes: [u8; 16] = [
        0x20, 0x01, 0x0d, 0xb8, 0x00, 0x10, 0xfe, 0xdc, 0xba, 0x98, 0x76, 0x54, 0x32, 0x10, 0x00,
        0xff,
    ];
    let labels = hex_labels(&bytes);
    let refs: Vec<&str> = labels.iter().map(|s| s.as_str()).collect();
    assert_eq!(decode(&refs), Ok(bytes.to_vec()));
}

#[test]
fn octets_round_trip() {
    let bytes: [u8; 16] = [0, 1, 2, 3, 255, 254, 253, 252, 10, 20, 30, 40, 50, 60, 70, 80];
    let labels: Vec<String> = bytes.iter().map(|b| format!("{}", b)).collect();
    let refs: Vec<&str> = labels.iter().map(|s| s.as_str()).collect();
    assert_eq!(decode(&refs), Ok(bytes.to_vec()));
}

#[test]
fn two_fillers_fail() {
    assert_eq!(decode(&["_", "_"]), Err(Error::InvalidAddress));
    assert_eq!(decode(&["1", "2", "_", "3", "4", "_"]), Err(Error::InvalidAddress));
}

#[test]
fn filler_in_full_address_changes_nothing() {
    let bytes: [u8; 16] = [
        0x11, 0x22, 0x33, 0x44, 0x55, 0x66, 0x77, 0x88, 0x99, 0xaa, 0xbb, 0xcc, 0xdd, 0xee, 0x0f,
        0x01,
    ];
    let labels = hex_labels(&bytes);
    let mut with_filler: Vec<&str> = labels.iter().map(|s| s.as_str()).collect();
    with_filler.insert(4, "_");
    let plain: Vec<&str> = labels.iter().map(|s| s.as_str()).collect();
    assert_eq!(decode(&with_filler), Ok(bytes.to_vec()));
    assert_eq!(decode(&with_filler), decode(&plain));
}

#[test]
fn short_address_without_filler_lacks_octets() {
    assert_eq!(decode(&["1", "2"]), Err(Error::NotEnoughOctets));
    assert_eq!(decode(&["abcd"]), Err(Error::NotEnoughOctets));
    assert_eq!(decode(&[]), Err(Error::NotEnoughOctets));
}

#[test]
fn mapped_prefix_seeds_high_bytes() {
    let expected: Vec<u8> = vec![0, 0, 0, 0, 0, 0, 0, 0, 0, 0, 0xff, 0xff, 0, 0, 0, 1];
    assert_eq!(decode(&["map", "0", "0", "0", "1"]), Ok(expected));
}

#[test]
fn local_prefix_with_filler() {
    let mut expected: Vec<u8> = vec![0; 16];
    expected[0] = 0xfe;
    expected[1] = 0x80;
    expected[15] = 0x01;
    assert_eq!(decode(&["local", "_", "0", "1"]), Ok(expected));
    // A lone octet after the filler leaves the final 16-bit group half
    // filled, which the finalization rules reject.
    assert_eq!(decode(&["local", "_", "1"]), Err(Error::InvalidAddress));
}

#[test]
fn filler_alone_gives_all_zeroes() {
    assert_eq!(decode(&["_"]), Ok(vec![0; 16]));
    assert_eq!(decode(&["_", "octet", "zone"]), Ok(vec![0; 16]));
}

#[test]
fn filler_splits_prefix_and_suffix() {
    let mut expected: Vec<u8> = vec![0; 16];
    expected[0] = 0x20;
    expected[1] = 0x01;
    expected[15] = 0x05;
    assert_eq!(decode(&["2001", "_", "5"]), Err(Error::InvalidAddress));
    assert_eq!(decode(&["2001", "_", "0", "5"]), Ok(expected));
}

#[test]
fn filler_inside_octet_group() {
    let mut expected: Vec<u8> = vec![0; 16];
    expected[0] = 0x01;
    expected[15] = 0x02;
    assert_eq!(decode(&["1", "_", "2"]), Ok(expected));
}

#[test]
fn trailing_half_group_is_invalid() {
    assert_eq!(decode(&["1"]), Err(Error::InvalidAddress));
    assert_eq!(decode(&["1", "2", "3"]), Err(Error::InvalidAddress));
}

#[test]
fn hex_block_cannot_start_mid_group() {
    assert_eq!(decode(&["1", "abcd"]), Err(Error::InvalidAddress));
}

#[test]
fn modifiers_must_come_first() {
    assert_eq!(decode(&["1", "2", "map"]), Err(Error::InvalidAddress));
    assert_eq!(decode(&["map", "local"]), Err(Error::InvalidAddress));
    assert_eq!(decode(&["_", "map"]), Err(Error::InvalidAddress));
    assert_eq!(decode(&["_", "local"]), Err(Error::InvalidAddress));
}

#[test]
fn unknown_label_before_completion_is_invalid() {
    assert_eq!(decode(&["hello"]), Err(Error::InvalidAddress));
    assert_eq!(decode(&["1", "2", "octet", "zone"]), Err(Error::InvalidAddress));
}

#[test]
fn overfilled_address_is_invalid() {
    let bytes: [u8; 16] = [9; 16];
    let labels = hex_labels(&bytes);
    let mut too_many: Vec<&str> = labels.iter().map(|s| s.as_str()).collect();
    too_many.push("1");
    assert_eq!(decode(&too_many), Err(Error::InvalidAddress));
    let mut late_filler: Vec<&str> = labels.iter().map(|s| s.as_str()).collect();
    late_filler.push("_");
    assert_eq!(decode(&late_filler), Err(Error::InvalidAddress));
}
