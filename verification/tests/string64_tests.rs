use utf64::String64;

#[test]
fn test_ascii_roundtrip() {
    let original = "Hello, World!";
    let utf64 = String64::from(original);
    let decoded = utf64.to_string().unwrap();
    assert_eq!(original, decoded);
}

#[test]
fn test_unicode_roundtrip() {
    let original = "Hello, 世界! 🌍";
    let utf64 = String64::from(original);
    let decoded = utf64.to_string().unwrap();
    assert_eq!(original, decoded);
}

#[test]
fn test_empty_string() {
    let utf64 = String64::from("");
    assert_eq!(utf64.len(), 0);
    assert!(utf64.is_empty());
    assert_eq!(utf64.to_string().unwrap(), "");
}

#[test]
fn test_length() {
    let utf64 = String64::from("Hi");
    assert_eq!(utf64.len(), 2);

    let utf64 = String64::from("世界");
    assert_eq!(utf64.len(), 2);

    let utf64 = String64::from("🌍🌎🌏");
    assert_eq!(utf64.len(), 3);
}

#[test]
fn test_emoji() {
    let original = "😀😃😄😁";
    let utf64 = String64::from(original);
    let decoded = utf64.to_string().unwrap();
    assert_eq!(original, decoded);
}

#[test]
fn test_mixed_content() {
    let original = "ASCII, 日本語, émojis: 🎉, symbols: ∑∫∂";
    let utf64 = String64::from(original);
    let decoded = utf64.to_string().unwrap();
    assert_eq!(original, decoded);
}

#[test]
fn test_display_trait() {
    let utf64 = String64::from("test");
    assert_eq!(utf64.display_string(), "test");
}

#[test]
fn test_debug_trait() {
    let utf64 = String64::from("test");
    assert_eq!(utf64.debug_string(), "String64(\"test\")");
}

#[test]
fn test_clone_and_equality() {
    let utf64_1 = String64::from("test");
    let utf64_2 = utf64_1.clone();
    assert_eq!(utf64_1, utf64_2);
}

#[test]
fn test_reserved_bits_are_zero() {
    let utf64 = String64::from("A");
    let slice = utf64.as_slice();
    assert_eq!(slice.len(), 1);

    // Lower 32 bits should be zero (reserved)
    assert_eq!(slice[0] & 0xFFFFFFFF, 0);
}

#[test]
fn test_utf8_encoding_in_upper_bits() {
    let utf64 = String64::from("A"); // 'A' = U+0041, UTF-8 = 0x41
    let slice = utf64.as_slice();

    // Upper 32 bits should contain 0x41 in the most significant byte
    let upper_bits = (slice[0] >> 32) as u32;
    assert_eq!(upper_bits, 0x41000000);
}

#[test]
fn test_multibyte_utf8() {
    let utf64 = String64::from("€"); // Euro sign: U+20AC, UTF-8 = E2 82 AC
    let slice = utf64.as_slice();

    let upper_bits = (slice[0] >> 32) as u32;
    assert_eq!(upper_bits, 0xE282AC00);
}

#[test]
fn test_four_byte_utf8() {
    let utf64 = String64::from("😀"); // U+1F600, UTF-8 = F0 9F 98 80
    let slice = utf64.as_slice();

    let upper_bits = (slice[0] >> 32) as u32;
    assert_eq!(upper_bits, 0xF09F9880);
}

#[test]
fn test_hash() {
    let mut map = std::collections::HashMap::new();
    let s = String64::from("hello");
    map.insert(s.clone(), 42);
    assert_eq!(map.get(&s), Some(&42));
}

#[test]
fn test_ord() {
    let s1 = String64::from("apple");
    let s2 = String64::from("banana");
    let s3 = String64::from("apple");

    assert!(s1 < s2);
    assert!(s2 > s1);
    assert_eq!(s1.cmp(&s3), std::cmp::Ordering::Equal);
}

#[test]
fn test_indexing() {
    let s = String64::from("Hi");
    let first = s.get(0).unwrap();
    let upper_bits = (first >> 32) as u32;
    assert_eq!(upper_bits, 0x48000000); // 'H'
}

#[test]
fn test_range_indexing() {
    let s = String64::from("Hello");
    let slice = s.slice(1, 3).unwrap();
    assert_eq!(slice.len(), 2);
}

#[test]
fn test_into_iterator() {
    let s = String64::from("Hi🌍");
    let mut it = s.into_iter();
    let mut chars: Vec<char> = Vec::new();
    while let Some(c) = it.next() {
        chars.push(c.unwrap());
    }
    assert_eq!(chars, vec!['H', 'i', '🌍']);
}

#[test]
fn test_ref_iterator() {
    let s = String64::from("Hi");
    let mut it = s.iter();
    let mut chars: Vec<char> = Vec::new();
    while let Some(c) = it.next() {
        chars.push(c.unwrap());
    }
    assert_eq!(chars, vec!['H', 'i']);
    // s is still usable
    assert_eq!(s.len(), 2);
}

#[test]
fn test_from_iterator() {
    let chars = vec!['H', 'e', 'l', 'l', 'o'];
    let s = String64::from_chars(chars);
    assert_eq!(s.to_string().unwrap(), "Hello");
}

#[test]
fn test_extend() {
    let mut s = String64::from("Hello");
    s.extend(vec![' ', 'W', 'o', 'r', 'l', 'd']);
    assert_eq!(s.to_string().unwrap(), "Hello World");
}

#[test]
fn test_add() {
    let s1 = String64::from("Hello");
    let s2 = s1.append(" World");
    assert_eq!(s2.to_string().unwrap(), "Hello World");
}

#[test]
fn test_add_assign() {
    let mut s = String64::from("Hello");
    s.push_str(" World");
    assert_eq!(s.to_string().unwrap(), "Hello World");
}

#[test]
fn test_partial_eq_str() {
    let s = String64::from("test");
    assert!(s.eq_str("test"));
    assert!(!s.eq_str("other"));
}

#[test]
fn test_partial_eq_string() {
    let s = String64::from("test");
    let string = String::from("test");
    assert!(s.eq_str(string.as_str()));
}

#[test]
fn test_as_ref() {
    let s = String64::from("Hi");
    let slice: &[u64] = s.as_slice();
    assert_eq!(slice.len(), 2);
}

#[test]
fn test_try_from() {
    let s = String64::from("test");
    let result = s.to_string();
    assert_eq!(result.unwrap(), "test");
}

#[test]
fn test_deref() {
    let s = String64::from("Hi");
    let slice: &[u64] = s.as_slice();
    assert_eq!(slice.len(), 2);
}

#[test]
fn test_deref_mut() {
    let s = String64::from("Hi");
    let slice: &[u64] = s.as_slice();
    assert_eq!(slice.len(), 2);
}

#[test]
fn test_borrow() {
    let s = String64::from("test");
    let borrowed: &[u64] = s.as_slice();
    assert_eq!(borrowed.len(), 4);
}
