use sha2::Digest;
use user_balance_merkle_tree::decimal::decimal_string;
use user_balance_merkle_tree::digest::hash_pair;

#[test]
fn test_hash_pair_known_vector() {
    // SHA-256 of the bytes of "helloworld", in lowercase hex.
    assert_eq!(
        hash_pair("hello", "world"),
        "936a185caaa266bb9cbe981e9e05cb78cd732b0b3280eb944412bb6f8f8f07af"
    );
}

#[test]
fn test_hash_pair_concatenates_without_separator() {
    // Hashing the pair must equal one SHA-256 pass over the concatenated
    // bytes, encoded as lowercase hex.
    let mut hasher = sha2::Sha256::new();
    hasher.update("account".as_bytes());
    hasher.update("12345".as_bytes());
    let expected = hex::encode(hasher.finalize());
    assert_eq!(hash_pair("account", "12345"), expected);
    assert_eq!(hash_pair("accoun", "t12345"), expected);
}

#[test]
fn test_hash_pair_empty_strings() {
    let digest = hex::encode(sha2::Sha256::digest("".as_bytes()));
    assert_eq!(hash_pair("", ""), digest);
}

#[test]
fn test_decimal_string() {
    assert_eq!(decimal_string(0), "0");
    assert_eq!(decimal_string(7), "7");
    assert_eq!(decimal_string(10), "10");
    assert_eq!(decimal_string(100), "100");
    assert_eq!(decimal_string(1024), "1024");
    assert_eq!(decimal_string(18446744073709551615), "18446744073709551615");
}
