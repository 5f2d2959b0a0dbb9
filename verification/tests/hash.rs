use spark::hash::keccak256;

fn hex(bytes: &[u8]) -> String {
    let mut out = String::new();
    for b in bytes {
        out.push_str(&format!("{:02x}", b));
    }
    out
}

#[test]
fn keccak256_of_the_empty_string() {
    assert_eq!(
        hex(&keccak256(&[])),
        "c5d2460186f7233c927e7db2dcc703c0e500b653ca82273b7bfad8045d85a470"
    );
}

#[test]
fn keccak256_of_abc() {
    assert_eq!(
        hex(&keccak256(b"abc")),
        "4e03657aea45a94fc7d47ba826c8d667c0d1e6e33a64a036ec44f58fa12d6c45"
    );
}

#[test]
fn keccak256_is_not_its_input() {
    let input = [0u8; 32];
    let digest = keccak256(&input);
    assert_ne!(digest, input);
    assert_eq!(digest, keccak256(&input));
    assert_ne!(digest, keccak256(&[0u8; 31]));
}
