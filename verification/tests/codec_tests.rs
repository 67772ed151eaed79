use utf64::String64;
use utf64::Utf64Error;

// A well-formed unit: 'A' = U+0041, payload 0x41000000, reserved bits zero.
const UNIT_A: u64 = 0x41000000_00000000;
// The same unit with one reserved bit set.
const UNIT_A_CORRUPT: u64 = 0x41000000_00000001;
// Leading byte 0xC3 classifies two bytes, but 0x28 is no continuation byte.
const UNIT_BAD_CONTINUATION: u64 = 0xC3280000_00000000;
// Leading byte 0xC0 with continuation 0x80 is an overlong encoding of zero.
const UNIT_OVERLONG: u64 = 0xC0800000_00000000;
// ED A0 80 decodes to 0xD800, a surrogate, which is no Unicode scalar.
const UNIT_SURROGATE: u64 = 0xEDA08000_00000000;

#[test]
fn test_whole_unit_value() {
    let s = String64::from("A");
    assert_eq!(s.as_slice(), &[UNIT_A]);
}

#[test]
fn test_encode_entry_point() {
    let s = String64::encode("Hi").unwrap();
    assert_eq!(s.len(), 2);
    assert_eq!(s.to_string().unwrap(), "Hi");
}

#[test]
fn test_from_string_value() {
    let s = String64::from(String::from("Hi"));
    assert_eq!(s.to_string().unwrap(), "Hi");
}

#[test]
fn test_from_str_trait() {
    let s = <String64 as std::str::FromStr>::from_str("test").unwrap();
    assert_eq!(s.to_string().unwrap(), "test");
}

#[test]
fn test_with_capacity_empty() {
    let s = String64::with_capacity(16);
    assert!(s.is_empty());
    assert_eq!(s.to_string().unwrap(), "");
}

#[test]
fn test_default_empty() {
    let s = String64::default();
    assert_eq!(s.len(), 0);
}

#[test]
fn test_from_units_roundtrip() {
    let s = String64::from_units(vec![UNIT_A, UNIT_A]);
    assert_eq!(s.to_string().unwrap(), "AA");
}

#[test]
fn test_reserved_bits_rejected() {
    let s = String64::from_units(vec![UNIT_A, UNIT_A_CORRUPT]);
    assert_eq!(s.to_string(), Err(Utf64Error::NonZeroReservedBits));
}

#[test]
fn test_zero_lead_byte_rejected() {
    let s = String64::from_units(vec![UNIT_A, 0]);
    assert_eq!(s.to_string(), Err(Utf64Error::InvalidUtf64));
}

#[test]
fn test_bad_continuation_rejected() {
    let s = String64::from_units(vec![UNIT_BAD_CONTINUATION]);
    assert_eq!(s.to_string(), Err(Utf64Error::InvalidUtf8));
}

#[test]
fn test_overlong_rejected() {
    let s = String64::from_units(vec![UNIT_OVERLONG]);
    assert_eq!(s.to_string(), Err(Utf64Error::InvalidUtf8));
}

#[test]
fn test_surrogate_rejected() {
    let s = String64::from_units(vec![UNIT_SURROGATE]);
    assert_eq!(s.to_string(), Err(Utf64Error::InvalidUtf8));
}

#[test]
fn test_error_precedence() {
    // A later reserved-bits error outranks an earlier invalid byte run,
    // because the reserved-bits scan runs first over the whole sequence.
    let s = String64::from_units(vec![UNIT_BAD_CONTINUATION, UNIT_A_CORRUPT]);
    assert_eq!(s.to_string(), Err(Utf64Error::NonZeroReservedBits));
    // Among first-pass errors, the earlier unit decides.
    let s = String64::from_units(vec![0, UNIT_A_CORRUPT]);
    assert_eq!(s.to_string(), Err(Utf64Error::InvalidUtf64));
}

#[test]
fn test_nul_character_rejected() {
    // A NUL encodes to a unit whose leading payload byte is zero, which the
    // decoder cannot classify: round-tripping stops at the NUL quirk.
    let s = String64::from("\0");
    assert_eq!(s.to_string(), Err(Utf64Error::InvalidUtf64));
}

#[test]
fn test_iteration_decode_agree_on_valid() {
    let s = String64::from("Hé🌍");
    let decoded: Vec<char> = s.to_string().unwrap().chars().collect();
    let mut it = s.iter();
    let mut iterated: Vec<char> = Vec::new();
    while let Some(c) = it.next() {
        iterated.push(c.unwrap());
    }
    assert_eq!(decoded, iterated);
}

#[test]
fn test_iteration_decode_agree_on_malformed() {
    // Policy pinning: iteration is as strict as whole-container decode, so a
    // byte run that passes length classification but is not valid UTF-8 is
    // rejected on both paths.
    let s = String64::from_units(vec![UNIT_A, UNIT_BAD_CONTINUATION]);
    assert_eq!(s.to_string(), Err(Utf64Error::InvalidUtf8));
    let mut it = s.iter();
    assert_eq!(it.next(), Some(Ok('A')));
    assert_eq!(it.next(), Some(Err(Utf64Error::InvalidUtf8)));
    assert_eq!(it.next(), None);
}

#[test]
fn test_iterator_len_and_size_hint() {
    let s = String64::from("abc");
    let mut it = s.clone().into_iter();
    assert_eq!(it.len(), 3);
    assert_eq!(it.size_hint(), (3, Some(3)));
    it.next();
    assert_eq!(it.len(), 2);
    let mut bit = s.iter();
    assert_eq!(bit.size_hint(), (3, Some(3)));
    bit.next();
    bit.next();
    assert_eq!(bit.len(), 1);
}

#[test]
fn test_concatenation_matches_whole_encode() {
    let glued = String64::from("Hello").append(" World");
    let whole = String64::from("Hello World");
    assert_eq!(glued.as_slice(), whole.as_slice());
    assert_eq!(glued, whole);
}

#[test]
fn test_ordering_with_nondecodable() {
    let good = String64::from("a");
    let bad1 = String64::from_units(vec![UNIT_A_CORRUPT]);
    let bad2 = String64::from_units(vec![0]);
    assert_eq!(good.cmp(&bad1), std::cmp::Ordering::Greater);
    assert_eq!(bad1.cmp(&good), std::cmp::Ordering::Less);
    assert_eq!(bad1.cmp(&bad2), std::cmp::Ordering::Equal);
    assert!(bad1 < good);
}

#[test]
fn test_get_and_slice_out_of_range() {
    let s = String64::from("Hi");
    assert_eq!(s.get(2), None);
    assert_eq!(s.get(0), Some(0x48000000_00000000)); // 'H' = 0x48
    assert!(s.slice(1, 3).is_none());
    assert!(s.slice(2, 1).is_none());
    assert_eq!(s.slice(0, 2).unwrap().len(), 2);
}

#[test]
fn test_display_of_nondecodable() {
    let s = String64::from_units(vec![UNIT_A_CORRUPT]);
    assert_eq!(s.display_string(), "<invalid UTF64>");
    assert_eq!(s.debug_string(), "String64(<invalid>)");
}

#[test]
fn test_error_messages() {
    assert_eq!(Utf64Error::InvalidUtf8.message(), "invalid UTF-8 data");
    assert_eq!(Utf64Error::InvalidUtf64.message(), "invalid UTF64 encoding");
    assert_eq!(
        Utf64Error::NonZeroReservedBits.message(),
        "reserved bits must be zero in UTF64 v1.0"
    );
}
