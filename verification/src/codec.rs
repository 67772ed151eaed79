//! The unit codec: packing one Unicode scalar value into one 64-bit unit and
//! unpacking it again.
//!
//! A unit is split into a 32-bit payload (bits 63..32) holding the UTF-8
//! encoding of one character, left-aligned and zero-padded, and 32 reserved
//! bits (bits 31..0) that must be zero in the current format version.

use crate::error::Utf64Error;
use core::cmp::Ordering;
use vstd::prelude::*;
use vstd::std_specs::iter::IteratorSpec;
use vstd::utf8::char_is_scalar;
use vstd::utf8::char_u32_cast;
use vstd::utf8::decode_utf8;
use vstd::utf8::encode_scalar;
use vstd::utf8::encode_utf8;
use vstd::utf8::has_width_1_encoding;
use vstd::utf8::has_width_2_encoding;
use vstd::utf8::has_width_3_encoding;
use vstd::utf8::has_width_4_encoding;
use vstd::utf8::is_scalar;
use vstd::utf8::valid_utf8;

verus! {

broadcast use vstd::string::group_string_axioms;

/// The reserved bits of a unit: its low 32 bits.
pub open spec fn reserved_of(u: u64) -> u64 {
    u & 0xFFFF_FFFF
}

/// The payload of a unit: its high 32 bits, holding the UTF-8 bytes.
pub open spec fn payload_of(u: u64) -> u32 {
    (u >> 32) as u32
}

/// Byte `i` of a payload, in big-endian order: byte 0 is the most
/// significant byte and holds the first UTF-8 byte.
pub open spec fn byte_at(p: u32, i: int) -> u8 {
    if i == 0 {
        (p >> 24) as u8
    } else if i == 1 {
        ((p >> 16) & 0xFF) as u8
    } else if i == 2 {
        ((p >> 8) & 0xFF) as u8
    } else {
        (p & 0xFF) as u8
    }
}

/// Packs up to four bytes into a payload, left-aligned: the first byte lands
/// in the most significant position, missing trailing bytes become zero.
pub open spec fn pack_bytes(bytes: Seq<u8>) -> u32
    recommends
        bytes.len() <= 4,
{
    let b0: u8 = if bytes.len() > 0 { bytes[0] } else { 0 };
    let b1: u8 = if bytes.len() > 1 { bytes[1] } else { 0 };
    let b2: u8 = if bytes.len() > 2 { bytes[2] } else { 0 };
    let b3: u8 = if bytes.len() > 3 { bytes[3] } else { 0 };
    ((b0 as u32) << 24) | ((b1 as u32) << 16) | ((b2 as u32) << 8) | (b3 as u32)
}

/// The unit that encodes character `c`: its UTF-8 bytes packed left-aligned
/// into the payload, reserved bits zero.
pub open spec fn unit_of(c: char) -> u64 {
    (pack_bytes(encode_scalar(c as u32)) as u64) << 32
}

/// The unit sequence that encodes a character sequence, one unit per
/// character, in order.
pub open spec fn encode_units(chars: Seq<char>) -> Seq<u64> {
    Seq::new(chars.len(), |i: int| unit_of(chars[i]))
}

/// The UTF-8 sequence length classified from a leading byte:
/// `0xxxxxxx` is 1, `110xxxxx` is 2, `1110xxxx` is 3, `11110xxx` is 4.
/// Bytes that are no valid leading byte still classify (and the run they
/// select is then rejected as invalid UTF-8).
pub open spec fn classified_len(b0: u8) -> int {
    if b0 < 0x80 {
        1
    } else if b0 < 0xE0 {
        2
    } else if b0 < 0xF0 {
        3
    } else {
        4
    }
}

/// The byte run a unit contributes when decoded: the first `classified_len`
/// payload bytes, classified from the leading payload byte.
pub open spec fn run_of(u: u64) -> Seq<u8> {
    let p = payload_of(u);
    Seq::new(classified_len(byte_at(p, 0)) as nat, |i: int| byte_at(p, i))
}

/// What decoding a single unit yields, under the strict per-unit policy:
/// nonzero reserved bits and a zero leading byte are rejected first, then the
/// classified byte run must be the valid UTF-8 encoding of one character.
pub open spec fn unit_decode(u: u64) -> Result<char, Utf64Error> {
    if reserved_of(u) != 0 {
        Err(Utf64Error::NonZeroReservedBits)
    } else if byte_at(payload_of(u), 0) == 0 {
        Err(Utf64Error::InvalidUtf64)
    } else if valid_utf8(run_of(u)) {
        Ok(decode_utf8(run_of(u))[0])
    } else {
        Err(Utf64Error::InvalidUtf8)
    }
}

/// True when a unit passes the first decoding pass: reserved bits zero and a
/// nonzero leading payload byte.
pub open spec fn unit_first_pass_ok(u: u64) -> bool {
    reserved_of(u) == 0 && byte_at(payload_of(u), 0) != 0
}

/// The error found by the first pass over a unit sequence, scanning in order:
/// the first unit with nonzero reserved bits or a zero leading byte decides
/// which error is reported.
pub open spec fn first_unit_error(units: Seq<u64>) -> Option<Utf64Error>
    decreases units.len(),
{
    if units.len() == 0 {
        None
    } else if reserved_of(units[0]) != 0 {
        Some(Utf64Error::NonZeroReservedBits)
    } else if byte_at(payload_of(units[0]), 0) == 0 {
        Some(Utf64Error::InvalidUtf64)
    } else {
        first_unit_error(units.drop_first())
    }
}

/// What decoding a whole unit sequence yields: the first unit failing the
/// first pass decides the error; otherwise the accumulated byte runs must
/// form valid UTF-8, which holds exactly when every unit's run is the valid
/// encoding of one character; otherwise the whole decode fails as invalid
/// UTF-8.
pub open spec fn decode_units(units: Seq<u64>) -> Result<Seq<char>, Utf64Error> {
    match first_unit_error(units) {
        Some(e) => Err(e),
        None => if forall|i: int| 0 <= i < units.len() ==> (#[trigger] unit_decode(units[i])) is Ok {
            Ok(Seq::new(units.len(), |i: int| unit_decode(units[i])->Ok_0))
        } else {
            Err(Utf64Error::InvalidUtf8)
        },
    }
}

/// The first pass finds no error exactly when every unit passes it.
pub proof fn lemma_first_unit_error_none(units: Seq<u64>)
    ensures
        first_unit_error(units) is None <==> (forall|i: int|
            0 <= i < units.len() ==> #[trigger] unit_first_pass_ok(units[i])),
    decreases units.len(),
{
    if units.len() != 0 {
        let rest = units.drop_first();
        lemma_first_unit_error_none(rest);
        assert(forall|i: int| 0 <= i < rest.len() ==> #[trigger] rest[i] == units[i + 1]);
        if unit_first_pass_ok(units[0]) {
            if first_unit_error(units) is None {
                assert forall|i: int| 0 <= i < units.len() implies #[trigger] unit_first_pass_ok(
                    units[i],
                ) by {
                    if i >= 1 {
                        assert(unit_first_pass_ok(rest[i - 1]));
                    }
                }
            } else {
                let i = choose|i: int| 0 <= i < rest.len() && !unit_first_pass_ok(rest[i]);
                assert(!unit_first_pass_ok(units[i + 1]));
            }
        }
    }
}

/// The first pass reports the error of the first unit that fails it.
pub proof fn lemma_first_unit_error_at(units: Seq<u64>, i: int)
    requires
        0 <= i < units.len(),
        forall|j: int| 0 <= j < i ==> #[trigger] unit_first_pass_ok(units[j]),
        !unit_first_pass_ok(units[i]),
    ensures
        first_unit_error(units) == Some(
            if reserved_of(units[i]) != 0 {
                Utf64Error::NonZeroReservedBits
            } else {
                Utf64Error::InvalidUtf64
            },
        ),
    decreases i,
{
    if i > 0 {
        let rest = units.drop_first();
        assert(unit_first_pass_ok(units[0]));
        assert forall|j: int| 0 <= j < i - 1 implies #[trigger] unit_first_pass_ok(rest[j]) by {
            assert(rest[j] == units[j + 1]);
            assert(unit_first_pass_ok(units[j + 1]));
        }
        assert(rest[i - 1] == units[i]);
        lemma_first_unit_error_at(rest, i - 1);
    }
}

/// Corruption rejection: decoding a sequence whose first corrupt unit has
/// nonzero reserved bits fails with `NonZeroReservedBits`, and one whose
/// first corrupt unit has a zero leading byte fails with `InvalidUtf64`.
pub proof fn lemma_corruption_rejected(units: Seq<u64>, i: int)
    requires
        0 <= i < units.len(),
        forall|j: int| 0 <= j < i ==> #[trigger] unit_first_pass_ok(units[j]),
        !unit_first_pass_ok(units[i]),
    ensures
        reserved_of(units[i]) != 0 ==> decode_units(units) == Err::<Seq<char>, Utf64Error>(
            Utf64Error::NonZeroReservedBits,
        ),
        reserved_of(units[i]) == 0 ==> decode_units(units) == Err::<Seq<char>, Utf64Error>(
            Utf64Error::InvalidUtf64,
        ),
{
    lemma_first_unit_error_at(units, i);
}

/// Iteration/decode consistency: whole-sequence decoding succeeds exactly
/// when every unit decodes on its own, and then the characters agree, unit by
/// unit, with what per-unit iteration yields.
pub proof fn lemma_iteration_decode_consistent(units: Seq<u64>)
    ensures
        decode_units(units) is Ok <==> (forall|i: int|
            0 <= i < units.len() ==> (#[trigger] unit_decode(units[i])) is Ok),
        decode_units(units) matches Ok(cs) ==> cs.len() == units.len() && (forall|i: int|
            0 <= i < units.len() ==> #[trigger] unit_decode(units[i]) == Ok::<char, Utf64Error>(
                cs[i],
            )),
{
    lemma_first_unit_error_none(units);
    if forall|i: int| 0 <= i < units.len() ==> (#[trigger] unit_decode(units[i])) is Ok {
        assert forall|i: int| 0 <= i < units.len() implies #[trigger] unit_first_pass_ok(
            units[i],
        ) by {
            assert(unit_decode(units[i]) is Ok);
        }
    }
}

/// Round-trip: decoding an encoded character sequence gives the sequence
/// back, for text free of NUL characters. A NUL encodes to a unit whose
/// leading payload byte is zero, which the decoder rejects as `InvalidUtf64`.
pub proof fn lemma_round_trip(chars: Seq<char>)
    requires
        forall|i: int| 0 <= i < chars.len() ==> chars[i] != '\0',
    ensures
        decode_units(encode_units(chars)) == Ok::<Seq<char>, Utf64Error>(chars),
{
    let units = encode_units(chars);
    assert forall|i: int| 0 <= i < units.len() implies #[trigger] unit_decode(units[i])
        == Ok::<char, Utf64Error>(chars[i]) by {
        lemma_unit_of_decodes(chars[i]);
    }
    lemma_first_unit_error_none(units);
    assert forall|i: int| 0 <= i < units.len() implies #[trigger] unit_first_pass_ok(
        units[i],
    ) by {
        assert(unit_decode(units[i]) is Ok);
    }
    assert(Seq::new(units.len(), |i: int| unit_decode(units[i])->Ok_0) =~= chars);
}

/// Length invariant: encoding yields exactly one unit per character.
pub proof fn lemma_encode_length(chars: Seq<char>)
    ensures
        encode_units(chars).len() == chars.len(),
{
}

/// Reserved-bits invariant: every unit produced by encoding has its low 32
/// bits equal to zero.
pub proof fn lemma_encode_reserved_zero(chars: Seq<char>)
    ensures
        forall|i: int|
            0 <= i < chars.len() ==> reserved_of(#[trigger] encode_units(chars)[i]) == 0,
{
    assert forall|i: int| 0 <= i < chars.len() implies reserved_of(
        #[trigger] encode_units(chars)[i],
    ) == 0 by {
        lemma_unit_of_parts(chars[i]);
    }
}

/// Concatenation: encoding a concatenation yields the concatenation of the
/// encodings, so appending text to an encoded container equals encoding the
/// concatenated text.
pub proof fn lemma_encode_concat(s1: Seq<char>, s2: Seq<char>)
    ensures
        encode_units(s1 + s2) == encode_units(s1) + encode_units(s2),
{
    assert(encode_units(s1 + s2) =~= encode_units(s1) + encode_units(s2));
}

/// Relies on char::from_u32: it returns `Some` exactly for Unicode scalar
/// values (at most 0x10FFFF and not in the surrogate range), and the
/// character it returns has the given scalar value.
pub assume_specification[ char::from_u32 ](v: u32) -> (r: Option<char>)
    ensures
        r is Some <==> is_scalar(v),
        r matches Some(c) ==> c as u32 == v,
;

proof fn lemma_payload_reserved(p: u32)
    by (bit_vector)
    ensures
        (((p as u64) << 32) & 0xFFFF_FFFF) == 0,
        ((((p as u64) << 32) >> 32) as u32) == p,
{
}

proof fn lemma_pack_unpack(b0: u8, b1: u8, b2: u8, b3: u8)
    by (bit_vector)
    ensures
        ({
            let p = ((b0 as u32) << 24) | ((b1 as u32) << 16) | ((b2 as u32) << 8) | (b3 as u32);
            &&& (p >> 24) as u8 == b0
            &&& ((p >> 16) & 0xFF) as u8 == b1
            &&& ((p >> 8) & 0xFF) as u8 == b2
            &&& (p & 0xFF) as u8 == b3
        }),
{
}

proof fn lemma_encoded_byte_ranges(v: u32)
    by (bit_vector)
    ensures
        v < 0x80 ==> (v & 0x7F) == v,
        (0xC0 | ((v >> 6) & 0x1F) as u8) >= 0xC0,
        (0xC0 | ((v >> 6) & 0x1F) as u8) <= 0xDF,
        (0xE0 | ((v >> 12) & 0x0F) as u8) >= 0xE0,
        (0xE0 | ((v >> 12) & 0x0F) as u8) <= 0xEF,
        (0xF0 | ((v >> 18) & 0x7) as u8) >= 0xF0,
        (0xF0 | ((v >> 18) & 0x7) as u8) <= 0xF7,
{
}

/// The unit of any character has zero reserved bits, and its payload carries
/// exactly the character's UTF-8 bytes, left-aligned: the byte run read back
/// from the unit is the character's UTF-8 encoding.
pub proof fn lemma_unit_of_parts(c: char)
    ensures
        reserved_of(unit_of(c)) == 0,
        payload_of(unit_of(c)) == pack_bytes(encode_scalar(c as u32)),
        run_of(unit_of(c)) == encode_scalar(c as u32),
        c != '\0' ==> byte_at(payload_of(unit_of(c)), 0) != 0,
{
    let v = c as u32;
    char_is_scalar(c);
    let bytes = encode_scalar(v);
    let p = pack_bytes(bytes);
    lemma_payload_reserved(p);
    lemma_encoded_byte_ranges(v);
    if has_width_1_encoding(v) {
        let b0 = (v & 0x7F) as u8;
        lemma_pack_unpack(b0, 0, 0, 0);
        assert(c != '\0' ==> v != 0) by {
            if v == 0 {
                char_u32_cast(c, v);
                assert((0 as u32) as char == '\0');
            }
        }
        assert(run_of(unit_of(c)) =~= bytes);
    } else if has_width_2_encoding(v) {
        let b0 = 0xC0 | ((v >> 6) & 0x1F) as u8;
        let b1 = 0x80 | (v & 0x3F) as u8;
        lemma_pack_unpack(b0, b1, 0, 0);
        assert(run_of(unit_of(c)) =~= bytes);
    } else if has_width_3_encoding(v) {
        let b0 = 0xE0 | ((v >> 12) & 0x0F) as u8;
        let b1 = 0x80 | ((v >> 6) & 0x3F) as u8;
        let b2 = 0x80 | (v & 0x3F) as u8;
        lemma_pack_unpack(b0, b1, b2, 0);
        assert(run_of(unit_of(c)) =~= bytes);
    } else {
        let b0 = 0xF0 | ((v >> 18) & 0x7) as u8;
        let b1 = 0x80 | ((v >> 12) & 0x3F) as u8;
        let b2 = 0x80 | ((v >> 6) & 0x3F) as u8;
        let b3 = 0x80 | (v & 0x3F) as u8;
        lemma_pack_unpack(b0, b1, b2, b3);
        assert(run_of(unit_of(c)) =~= bytes);
    }
}

/// The UTF-8 encoding of a single character equals `encode_scalar` of its
/// scalar value.
pub proof fn lemma_encode_utf8_single(c: char)
    ensures
        encode_utf8(seq![c]) == encode_scalar(c as u32),
{
    assert(seq![c].drop_first() =~= Seq::<char>::empty());
    assert(encode_utf8(seq![c]) =~= encode_scalar(c as u32) + encode_utf8(Seq::<char>::empty()));
    assert(encode_scalar(c as u32) + Seq::<u8>::empty() =~= encode_scalar(c as u32));
}

/// Decoding the unit of a character gives the character back, for every
/// character but NUL, whose unit has a zero leading byte and is rejected.
pub proof fn lemma_unit_of_decodes(c: char)
    requires
        c != '\0',
    ensures
        unit_decode(unit_of(c)) == Ok::<char, Utf64Error>(c),
{
    lemma_unit_of_parts(c);
    lemma_encode_utf8_single(c);
    vstd::utf8::encode_utf8_valid_utf8(seq![c]);
    vstd::utf8::encode_utf8_decode_utf8(seq![c]);
    assert(decode_utf8(run_of(unit_of(c)))[0] == seq![c][0]);
}

proof fn lemma_unpack_bounds(u: u64)
    by (bit_vector)
    ensures
        (u >> 32) <= 0xFFFF_FFFF,
{
}

proof fn lemma_byte_bounds(p: u32)
    by (bit_vector)
    ensures
        (p >> 24) <= 0xFF,
        ((p >> 16) & 0xFF) <= 0xFF,
        ((p >> 8) & 0xFF) <= 0xFF,
        (p & 0xFF) <= 0xFF,
{
}

/// Decodes one unit into the character it encodes, under the strict per-unit
/// policy: nonzero reserved bits, a zero leading byte, and a byte run that is
/// not the UTF-8 encoding of one character are each rejected with their error.
pub fn decode_unit(u: u64) -> (r: Result<char, Utf64Error>)
    ensures
        r == unit_decode(u),
{
    if u & 0xFFFF_FFFF != 0 {
        return Err(Utf64Error::NonZeroReservedBits);
    }
    proof {
        lemma_unpack_bounds(u);
    }
    let p: u32 = (u >> 32) as u32;
    proof {
        lemma_byte_bounds(p);
    }
    let b0: u8 = (p >> 24) as u8;
    let b1: u8 = ((p >> 16) & 0xFF) as u8;
    let b2: u8 = ((p >> 8) & 0xFF) as u8;
    let b3: u8 = (p & 0xFF) as u8;
    if b0 == 0 {
        return Err(Utf64Error::InvalidUtf64);
    }
    let ghost run = run_of(u);
    let ok: bool;
    let v: u32;
    if b0 < 0x80 {
        ok = true;
        v = b0 as u32;
        proof {
            assert(run =~= seq![b0]);
            assert(b0 & 0x7F == b0) by (bit_vector)
                requires
                    b0 < 0x80,
            ;
            assert(vstd::utf8::decode_first_codepoint(run) == v);
            assert(vstd::utf8::valid_first_scalar(run));
            assert(vstd::utf8::pop_first_scalar(run) =~= Seq::<u8>::empty());
            assert(valid_utf8(run)) by {
                reveal_with_fuel(valid_utf8, 2);
            }
            assert(decode_utf8(run) =~= seq![v as char]) by {
                reveal_with_fuel(decode_utf8, 2);
            }
        }
    } else if b0 < 0xE0 {
        v = (((b0 & 0x1F) as u32) << 6) | ((b1 & 0x3F) as u32);
        ok = b0 >= 0xC0 && 0x80 <= b1 && b1 <= 0xBF && v >= 0x80;
        proof {
            assert(run =~= seq![b0, b1]);
            if ok {
                assert((((b0 & 0x1F) as u32) << 6 | ((b1 & 0x3F) as u32)) <= 0x7FF)
                    by (bit_vector);
                assert(vstd::utf8::decode_first_codepoint(run) == v);
                assert(vstd::utf8::valid_first_scalar(run));
                assert(vstd::utf8::pop_first_scalar(run) =~= Seq::<u8>::empty());
                assert(valid_utf8(run)) by {
                    reveal_with_fuel(valid_utf8, 2);
                }
                assert(decode_utf8(run) =~= seq![v as char]) by {
                    reveal_with_fuel(decode_utf8, 2);
                }
            } else {
                assert(!valid_utf8(run));
            }
        }
    } else if b0 < 0xF0 {
        v = (((b0 & 0x0F) as u32) << 12) | (((b1 & 0x3F) as u32) << 6) | ((b2 & 0x3F) as u32);
        ok = 0x80 <= b1 && b1 <= 0xBF && 0x80 <= b2 && b2 <= 0xBF && v >= 0x800 && !(0xD800 <= v
            && v <= 0xDFFF);
        proof {
            assert(run =~= seq![b0, b1, b2]);
            if ok {
                assert(((((b0 & 0x0F) as u32) << 12) | (((b1 & 0x3F) as u32) << 6) | ((b2
                    & 0x3F) as u32)) <= 0xFFFF) by (bit_vector);
                assert(vstd::utf8::decode_first_codepoint(run) == v);
                assert(vstd::utf8::valid_first_scalar(run));
                assert(vstd::utf8::pop_first_scalar(run) =~= Seq::<u8>::empty());
                assert(valid_utf8(run)) by {
                    reveal_with_fuel(valid_utf8, 2);
                }
                assert(decode_utf8(run) =~= seq![v as char]) by {
                    reveal_with_fuel(decode_utf8, 2);
                }
            } else {
                assert(!valid_utf8(run));
            }
        }
    } else {
        v = (((b0 & 0x07) as u32) << 18) | (((b1 & 0x3F) as u32) << 12) | (((b2 & 0x3F) as u32)
            << 6) | ((b3 & 0x3F) as u32);
        ok = b0 <= 0xF7 && 0x80 <= b1 && b1 <= 0xBF && 0x80 <= b2 && b2 <= 0xBF && 0x80 <= b3 && b3
            <= 0xBF && 0x10000 <= v && v <= 0x10FFFF;
        proof {
            assert(run =~= seq![b0, b1, b2, b3]);
            if ok {
                assert(vstd::utf8::decode_first_codepoint(run) == v);
                assert(vstd::utf8::valid_first_scalar(run));
                assert(vstd::utf8::pop_first_scalar(run) =~= Seq::<u8>::empty());
                assert(valid_utf8(run)) by {
                    reveal_with_fuel(valid_utf8, 2);
                }
                assert(decode_utf8(run) =~= seq![v as char]) by {
                    reveal_with_fuel(decode_utf8, 2);
                }
            } else {
                assert(!valid_utf8(run));
            }
        }
    }
    if !ok {
        return Err(Utf64Error::InvalidUtf8);
    }
    let c: char = char::from_u32(v).unwrap();
    proof {
        char_u32_cast(c, v);
    }
    Ok(c)
}

/// Encodes one character into one unit.
pub fn encode_char(c: char) -> (u: u64)
    ensures
        u == unit_of(c),
{
    let v: u32 = c as u32;
    proof {
        char_is_scalar(c);
    }
    let b0: u8;
    let b1: u8;
    let b2: u8;
    let b3: u8;
    if v < 0x80 {
        b0 = (v & 0x7F) as u8;
        b1 = 0;
        b2 = 0;
        b3 = 0;
        assert(encode_scalar(v) =~= seq![b0]);
    } else if v < 0x800 {
        assert(((v >> 6) & 0x1F) < 0x100) by (bit_vector);
        assert((v & 0x3F) < 0x100) by (bit_vector);
        b0 = 0xC0 | ((v >> 6) & 0x1F) as u8;
        b1 = 0x80 | (v & 0x3F) as u8;
        b2 = 0;
        b3 = 0;
        assert(has_width_2_encoding(v));
        assert(encode_scalar(v) =~= seq![b0, b1]);
    } else if v < 0x10000 {
        assert(((v >> 12) & 0x0F) < 0x100) by (bit_vector);
        assert(((v >> 6) & 0x3F) < 0x100) by (bit_vector);
        assert((v & 0x3F) < 0x100) by (bit_vector);
        b0 = 0xE0 | ((v >> 12) & 0x0F) as u8;
        b1 = 0x80 | ((v >> 6) & 0x3F) as u8;
        b2 = 0x80 | (v & 0x3F) as u8;
        b3 = 0;
        assert(has_width_3_encoding(v));
        assert(encode_scalar(v) =~= seq![b0, b1, b2]);
    } else {
        assert(((v >> 18) & 0x7) < 0x100) by (bit_vector);
        assert(((v >> 12) & 0x3F) < 0x100) by (bit_vector);
        assert(((v >> 6) & 0x3F) < 0x100) by (bit_vector);
        assert((v & 0x3F) < 0x100) by (bit_vector);
        b0 = 0xF0 | ((v >> 18) & 0x7) as u8;
        b1 = 0x80 | ((v >> 12) & 0x3F) as u8;
        b2 = 0x80 | ((v >> 6) & 0x3F) as u8;
        b3 = 0x80 | (v & 0x3F) as u8;
        assert(has_width_4_encoding(v));
        assert(encode_scalar(v) =~= seq![b0, b1, b2, b3]);
    }
    let p: u32 = ((b0 as u32) << 24) | ((b1 as u32) << 16) | ((b2 as u32) << 8) | (b3 as u32);
    assert(p == pack_bytes(encode_scalar(v)));
    (p as u64) << 32
}

/// Lexicographic comparison of two character sequences by scalar value.
pub open spec fn lex_cmp_chars(a: Seq<char>, b: Seq<char>) -> Ordering
    decreases a.len(),
{
    if a.len() == 0 && b.len() == 0 {
        Ordering::Equal
    } else if a.len() == 0 {
        Ordering::Less
    } else if b.len() == 0 {
        Ordering::Greater
    } else if a[0] != b[0] {
        if a[0] < b[0] {
            Ordering::Less
        } else {
            Ordering::Greater
        }
    } else {
        lex_cmp_chars(a.drop_first(), b.drop_first())
    }
}

/// The total order on unit sequences: decode both sides and compare the
/// texts lexicographically; a decodable sequence is greater than a
/// non-decodable one, and two non-decodable sequences compare equal.
pub open spec fn cmp_units(a: Seq<u64>, b: Seq<u64>) -> Ordering {
    match (decode_units(a), decode_units(b)) {
        (Ok(x), Ok(y)) => lex_cmp_chars(x, y),
        (Ok(_), Err(_)) => Ordering::Greater,
        (Err(_), Ok(_)) => Ordering::Less,
        (Err(_), Err(_)) => Ordering::Equal,
    }
}

/// Lexicographic comparison finds two character sequences equal exactly when
/// they are equal.
pub proof fn lemma_lex_cmp_eq(a: Seq<char>, b: Seq<char>)
    ensures
        lex_cmp_chars(a, b) == Ordering::Equal <==> a == b,
    decreases a.len(),
{
    if a.len() == 0 && b.len() == 0 {
        assert(a =~= b);
    } else if a.len() == 0 || b.len() == 0 {
    } else if a[0] != b[0] {
    } else {
        lemma_lex_cmp_eq(a.drop_first(), b.drop_first());
        if a.drop_first() == b.drop_first() {
            assert(a =~= b) by {
                assert forall|i: int| 0 <= i < a.len() implies a[i] == b[i] by {
                    if i > 0 {
                        assert(a.drop_first()[i - 1] == b.drop_first()[i - 1]);
                    }
                }
            }
        } else {
            if a == b {
                assert(a.drop_first() =~= b.drop_first());
            }
        }
    }
}

/// Ordering: among decodable unit sequences, the order is exactly the
/// lexicographic order of the decoded texts.
pub proof fn lemma_ordering_lexicographic(a: Seq<u64>, b: Seq<u64>)
    requires
        decode_units(a) is Ok,
        decode_units(b) is Ok,
    ensures
        cmp_units(a, b) == lex_cmp_chars(decode_units(a)->Ok_0, decode_units(b)->Ok_0),
        cmp_units(a, b) == Ordering::Equal <==> decode_units(a)->Ok_0 == decode_units(b)->Ok_0,
{
    lemma_lex_cmp_eq(decode_units(a)->Ok_0, decode_units(b)->Ok_0);
}

/// The UTF-8 encoding of a concatenation is the concatenation of the
/// encodings.
pub proof fn lemma_encode_utf8_concat(a: Seq<char>, b: Seq<char>)
    ensures
        encode_utf8(a + b) == encode_utf8(a) + encode_utf8(b),
    decreases a.len(),
{
    if a.len() == 0 {
        assert(a + b =~= b);
        assert(encode_utf8(a) + encode_utf8(b) =~= encode_utf8(b));
    } else {
        assert((a + b).drop_first() =~= a.drop_first() + b);
        lemma_encode_utf8_concat(a.drop_first(), b);
        assert(encode_utf8(a + b) =~= encode_utf8(a) + encode_utf8(b));
    }
}

/// Two character sequences with the same UTF-8 encoding are equal.
pub proof fn lemma_encode_utf8_injective(a: Seq<char>, b: Seq<char>)
    requires
        encode_utf8(a) == encode_utf8(b),
    ensures
        a == b,
{
    vstd::utf8::encode_utf8_decode_utf8(a);
    vstd::utf8::encode_utf8_decode_utf8(b);
}

/// Relies on String::from_utf8: for a byte vector that is valid UTF-8 it
/// returns the string holding exactly those bytes.
#[verifier::external_body]
fn string_from_utf8(bytes: Vec<u8>) -> (r: String)
    requires
        valid_utf8(bytes@),
    ensures
        encode_utf8(r@) == bytes@,
{
    String::from_utf8(bytes).unwrap_or_default()
}

/// Collects the characters of a string slice into a vector, in order.
pub fn str_chars(s: &str) -> (r: Vec<char>)
    ensures
        r@ == s@,
{
    let mut it = s.chars();
    let mut r: Vec<char> = Vec::new();
    proof {
        assert(vstd::string::spec_iter(s).remaining() == s@);
        assert(r@ + it.remaining() =~= s@);
    }
    loop
        invariant
            r@ + it.remaining() == s@,
            it.decrease() is Some,
        ensures
            r@ == s@,
        decreases it.decrease()->0,
    {
        let ghost prev = it.remaining();
        match it.next() {
            Some(c) => {
                r.push(c);
                proof {
                    assert(r@ + it.remaining() =~= s@);
                }
            },
            None => {
                proof {
                    assert(r@ + prev =~= r@);
                }
                break ;
            },
        }
    }
    r
}

/// Appends the UTF-8 bytes of one character to a byte buffer, by packing the
/// character into a unit and reading the byte run back out.
pub fn push_utf8(bytes: &mut Vec<u8>, c: char)
    ensures
        final(bytes)@ == old(bytes)@ + encode_scalar(c as u32),
{
    let u = encode_char(c);
    proof {
        lemma_unit_of_parts(c);
        lemma_unpack_bounds(u);
    }
    let p: u32 = (u >> 32) as u32;
    proof {
        lemma_byte_bounds(p);
    }
    let b0: u8 = (p >> 24) as u8;
    let ghost run = run_of(u);
    bytes.push(b0);
    if b0 >= 0x80 {
        let b1: u8 = ((p >> 16) & 0xFF) as u8;
        bytes.push(b1);
        if b0 >= 0xE0 {
            let b2: u8 = ((p >> 8) & 0xFF) as u8;
            bytes.push(b2);
            if b0 >= 0xF0 {
                let b3: u8 = (p & 0xFF) as u8;
                bytes.push(b3);
                assert(bytes@ =~= old(bytes)@ + run);
            } else {
                assert(bytes@ =~= old(bytes)@ + run);
            }
        } else {
            assert(bytes@ =~= old(bytes)@ + run);
        }
    } else {
        assert(bytes@ =~= old(bytes)@ + run);
    }
}

/// Builds the string holding exactly the given characters, by encoding them
/// as UTF-8 and converting the bytes.
pub fn chars_to_string(chars: &Vec<char>) -> (r: String)
    ensures
        r@ == chars@,
{
    let mut bytes: Vec<u8> = Vec::new();
    let mut i: usize = 0;
    proof {
        assert(chars@.take(0) =~= Seq::<char>::empty());
    }
    while i < chars.len()
        invariant
            i <= chars@.len(),
            bytes@ == encode_utf8(chars@.take(i as int)),
        decreases chars@.len() - i,
    {
        let c = chars[i];
        push_utf8(&mut bytes, c);
        proof {
            lemma_encode_utf8_concat(chars@.take(i as int), seq![c]);
            lemma_encode_utf8_single(c);
            assert(chars@.take(i as int) + seq![c] =~= chars@.take(i + 1 as int));
        }
        i += 1;
    }
    proof {
        assert(chars@.take(chars@.len() as int) =~= chars@);
        vstd::utf8::encode_utf8_valid_utf8(chars@);
    }
    let r = string_from_utf8(bytes);
    proof {
        lemma_encode_utf8_injective(r@, chars@);
    }
    r
}

} // verus!
