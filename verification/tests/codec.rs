use scriptbin::codec::MAX_KEY_LEN;
use scriptbin::{decode, encode, encode_vec, KeyError};

struct Test {
    key: &'static str,
    input: &'static str,
    output: Vec<u8>,
}

fn tests() -> Vec<Test> {
    vec![
        Test {
            key: "Key",
            input: "Plaintext",
            output: vec![0xBB, 0xF3, 0x16, 0xE8, 0xD9, 0x40, 0xAF, 0x0A, 0xD3],
        },
        Test {
            key: "Wiki",
            input: "pedia",
            output: vec![0x10, 0x21, 0xBF, 0x04, 0x20],
        },
        Test {
            key: "Secret",
            input: "Attack at dawn",
            output: vec![
                0x45, 0xA0, 0x1F, 0x64, 0x5F, 0xC3, 0x5B, 0x38, 0x35, 0x52, 0x54, 0x4B, 0x9B, 0xF5,
            ],
        },
    ]
}

#[test]
fn test_encode() {
    let tests = tests();
    for t in tests.iter() {
        let result = encode(t.input.to_string(), t.key.to_string()).unwrap();
        assert!(result == t.output);
    }
}

#[test]
fn test_encode_decode() {
    let content = String::from("ahah, this is hello world!");
    let encoded = encode(content.clone(), "hello".to_string()).unwrap();
    let decoded = encode_vec(encoded, "hello".to_string()).unwrap();
    let result = String::from_utf8_lossy(&decoded);
    assert!(result == content);
}

#[test]
fn encode_vec_matches_known_keystream() {
    // Zero bytes come out as the keystream itself.
    let stream = encode_vec(vec![0u8; 9], "Key".to_string()).unwrap();
    let mut expected = vec![0xBBu8, 0xF3, 0x16, 0xE8, 0xD9, 0x40, 0xAF, 0x0A, 0xD3];
    for (e, p) in expected.iter_mut().zip("Plaintext".bytes()) {
        *e ^= p;
    }
    assert_eq!(stream, expected);
}

#[test]
fn encode_changes_the_input() {
    let input = "Plaintext".to_string();
    let encoded = encode(input.clone(), "Key".to_string()).unwrap();
    assert_ne!(encoded, input.into_bytes());
}

#[test]
fn decode_inverts_encode() {
    let data: Vec<u8> = (0..=255u8).chain(0..=255u8).collect();
    for key in ["k", "hello", "a longer key, with spaces", "\u{00e9}\u{4e2d}"] {
        let encoded = encode_vec(data.clone(), key.to_string()).unwrap();
        assert_eq!(decode(encoded, key.to_string()), Ok(data.clone()));
    }
}

#[test]
fn encode_keeps_the_length() {
    for len in [0usize, 1, 2, 255, 256, 257, 1000] {
        let encoded = encode_vec(vec![7u8; len], "hello".to_string()).unwrap();
        assert_eq!(encoded.len(), len);
    }
    let text = "h\u{00e9}llo".to_string();
    let bytes = text.len();
    assert_eq!(encode(text, "hello".to_string()).unwrap().len(), bytes);
}

#[test]
fn encode_of_nothing_is_nothing() {
    assert_eq!(encode(String::new(), "hello".to_string()), Ok(vec![]));
}

#[test]
fn encode_is_deterministic() {
    let a = encode("same input".to_string(), "same key".to_string());
    let b = encode("same input".to_string(), "same key".to_string());
    assert_eq!(a, b);
}

#[test]
fn empty_key_is_refused() {
    assert_eq!(encode("abc".to_string(), String::new()), Err(KeyError::Empty));
    assert_eq!(encode_vec(vec![1, 2, 3], String::new()), Err(KeyError::Empty));
    assert_eq!(decode(vec![1, 2, 3], String::new()), Err(KeyError::Empty));
    assert_eq!(encode_vec(vec![], String::new()), Err(KeyError::Empty));
}

#[test]
fn long_keys_are_accepted() {
    for len in [255usize, 256, 257, 1000] {
        let key = "k".repeat(len);
        let encoded = encode_vec(vec![1, 2, 3], key.clone()).unwrap();
        assert_eq!(encoded.len(), 3);
        assert_ne!(encoded, vec![1, 2, 3]);
        assert_eq!(decode(encoded, key), Ok(vec![1, 2, 3]));
    }
    let text = "round trip under a long key".to_string();
    let key = "0123456789abcdef".repeat(40);
    let encoded = encode(text.clone(), key.clone()).unwrap();
    assert_eq!(encoded.len(), text.len());
    assert_eq!(decode(encoded, key), Ok(text.into_bytes()));
}

#[test]
fn only_the_first_bytes_of_a_long_key_are_read() {
    assert_eq!(MAX_KEY_LEN, 256);
    let head: String = (0..256).map(|i| char::from(b'a' + (i % 26) as u8)).collect();
    let data = b"Attack at dawn".to_vec();
    let under_head = encode_vec(data.clone(), head.clone()).unwrap();
    assert_eq!(encode_vec(data.clone(), format!("{}x", head)), Ok(under_head.clone()));
    assert_eq!(encode_vec(data.clone(), format!("{}{}", head, head)), Ok(under_head.clone()));
    // A change within the first 256 bytes tells.
    let mut other = head.clone().into_bytes();
    other[0] = b'!';
    let other = String::from_utf8(other).unwrap();
    assert_ne!(encode_vec(data, other), Ok(under_head));
}

#[test]
fn only_the_empty_key_is_refused() {
    for key in ["k", "\u{00e9}", " ", "\0"] {
        assert!(encode_vec(vec![1], key.to_string()).is_ok());
    }
    assert!(encode_vec(vec![1], "\u{00e9}".repeat(129)).is_ok());
    assert_eq!(encode_vec(vec![1], String::new()), Err(KeyError::Empty));
}
