use rustup::dist::component::obj::HashEncoder;

#[test]
fn hash_encode() {
    let hashes = [1, 112_358_777, 1_618_033_988, 2_718_281_828, u64::MAX - 1];
    let encoded = hashes.map(HashEncoder::encode);
    assert_eq!(
        encoded,
        [
            "0000000000001",
            "00000003b4xbt",
            "0000001h72fa4",
            "0000002j0bc34",
            "fzzzzzzzzzzzy"
        ]
    );
    assert_eq!(
        encoded.iter().map(String::len).collect::<Vec<_>>(),
        [13, 13, 13, 13, 13]
    );
}

#[test]
fn hash_encode_zero_is_all_first_letter() {
    assert_eq!(HashEncoder::encode(0), "0000000000000");
}

#[test]
fn hash_encode_max() {
    // 2^64 - 1 is 15 followed by twelve 31s in base 32.
    assert_eq!(HashEncoder::encode(u64::MAX), "fzzzzzzzzzzzz");
}

#[test]
fn hash_encode_uses_alphabet_order() {
    assert_eq!(HashEncoder::encode(31), "000000000000z");
    assert_eq!(HashEncoder::encode(32), "0000000000010");
    assert_eq!(HashEncoder::encode(16), "000000000000h");
}

fn numeral_value(s: &str) -> u128 {
    s.bytes().fold(0u128, |acc, c| {
        let pos = HashEncoder::ALPHABET.iter().position(|&a| a == c).unwrap();
        acc * 32 + pos as u128
    })
}

#[test]
fn hash_encode_reads_back() {
    for h in [0, 1, 16, 21, 22, 31, 32, 112_358_777, 2_718_281_828, u64::MAX - 1, u64::MAX] {
        assert_eq!(numeral_value(&HashEncoder::encode(h)), h as u128);
    }
    assert_ne!(HashEncoder::encode(21), HashEncoder::encode(22));
}
