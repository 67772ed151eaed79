//! The owning container of UTF64 units, with encoding, decoding, slicing,
//! ordering and iteration.

use crate::codec::chars_to_string;
use crate::codec::cmp_units;
use crate::codec::decode_unit;
use crate::codec::decode_units;
use crate::codec::encode_char;
use crate::codec::encode_units;
use crate::codec::lemma_corruption_rejected;
use crate::codec::lemma_first_unit_error_none;
use crate::codec::lemma_lex_cmp_eq;
use crate::codec::lex_cmp_chars;
use crate::codec::str_chars;
use crate::codec::unit_decode;
use crate::codec::unit_first_pass_ok;
use crate::codec::unit_of;
use crate::error::Utf64Error;
use core::cmp::Ordering;
use core::str::FromStr;
use vstd::prelude::*;
use vstd::string::StringExecFns;

verus! {

/// A UTF64-encoded string: an owned, ordered sequence of 64-bit units,
/// exactly one unit per Unicode scalar value.
///
/// The view of a `String64` is the mathematical sequence of its units.
#[derive(Clone, Debug, PartialEq, Eq, Hash)]
pub struct String64 {
    data: Vec<u64>,
}

impl View for String64 {
    type V = Seq<u64>;

    closed spec fn view(&self) -> Seq<u64> {
        self.data@
    }
}

impl String64 {
    /// Creates a new empty `String64`.
    pub fn new() -> (r: Self)
        ensures
            r@ == Seq::<u64>::empty(),
    {
        Self { data: Vec::new() }
    }

    /// Creates a new empty `String64` with at least the given capacity.
    pub fn with_capacity(capacity: usize) -> (r: Self)
        ensures
            r@ == Seq::<u64>::empty(),
    {
        Self { data: Vec::with_capacity(capacity) }
    }

    /// Returns the length of this `String64` in characters, which equals its
    /// unit count; O(1).
    pub fn len(&self) -> (r: usize)
        ensures
            r == self@.len(),
    {
        self.data.len()
    }

    /// Returns `true` if this `String64` holds no units.
    pub fn is_empty(&self) -> (r: bool)
        ensures
            r == (self@.len() == 0),
    {
        self.data.len() == 0
    }

    /// Returns the underlying units as a slice.
    pub fn as_slice(&self) -> (r: &[u64])
        ensures
            r@ == self@,
    {
        self.data.as_slice()
    }

    /// Builds a `String64` directly from raw units, without validation; the
    /// decode direction reports whether they are well-formed.
    pub fn from_units(data: Vec<u64>) -> (r: Self)
        ensures
            r@ == data@,
    {
        Self { data }
    }

    /// Encodes a character sequence, one unit per character, in order.
    pub fn from_chars(chars: Vec<char>) -> (r: Self)
        ensures
            r@ == encode_units(chars@),
    {
        let mut data: Vec<u64> = Vec::with_capacity(chars.len());
        let mut i: usize = 0;
        proof {
            assert(encode_units(chars@.take(0)) =~= Seq::<u64>::empty());
        }
        while i < chars.len()
            invariant
                i <= chars@.len(),
                data@ == encode_units(chars@.take(i as int)),
            decreases chars@.len() - i,
        {
            data.push(encode_char(chars[i]));
            proof {
                assert(encode_units(chars@.take(i + 1 as int)) =~= encode_units(
                    chars@.take(i as int),
                ).push(unit_of(chars@[i as int])));
            }
            i += 1;
        }
        proof {
            assert(chars@.take(chars@.len() as int) =~= chars@);
        }
        Self { data }
    }

    /// Encodes a string slice into UTF64 form. This never fails: any valid
    /// Unicode text encodes.
    pub fn encode(s: &str) -> (r: Result<Self, Utf64Error>)
        ensures
            r matches Ok(t) && t@ == encode_units(s@),
    {
        let chars = str_chars(s);
        Ok(Self::from_chars(chars))
    }

    /// Appends one unit per character at the end, keeping the existing units
    /// untouched.
    pub fn extend(&mut self, chars: Vec<char>)
        ensures
            final(self)@ == old(self)@ + encode_units(chars@),
    {
        let ghost orig = self.data@;
        let mut i: usize = 0;
        proof {
            assert(orig + encode_units(chars@.take(0)) =~= orig);
        }
        while i < chars.len()
            invariant
                i <= chars@.len(),
                self.data@ == orig + encode_units(chars@.take(i as int)),
            decreases chars@.len() - i,
        {
            self.data.push(encode_char(chars[i]));
            proof {
                assert(encode_units(chars@.take(i + 1 as int)) =~= encode_units(
                    chars@.take(i as int),
                ).push(unit_of(chars@[i as int])));
                assert(self.data@ =~= orig + encode_units(chars@.take(i + 1 as int)));
            }
            i += 1;
        }
        proof {
            assert(chars@.take(chars@.len() as int) =~= chars@);
        }
    }

    /// Appends a text fragment: each new character contributes exactly one
    /// new unit at the end.
    pub fn push_str(&mut self, s: &str)
        ensures
            final(self)@ == old(self)@ + encode_units(s@),
    {
        let chars = str_chars(s);
        self.extend(chars);
    }

    /// Concatenation by value: returns this container with the fragment's
    /// units appended.
    pub fn append(self, s: &str) -> (r: Self)
        ensures
            r@ == self@ + encode_units(s@),
    {
        let mut r = self;
        r.push_str(s);
        r
    }

    /// Decodes the units into characters, strictly: the first unit with
    /// nonzero reserved bits or a zero leading byte decides the error, and
    /// otherwise any byte run that is not a valid character makes the whole
    /// decode fail as invalid UTF-8.
    fn decode_chars(&self) -> (r: Result<Vec<char>, Utf64Error>)
        ensures
            r matches Ok(cs) ==> decode_units(self@) == Ok::<Seq<char>, Utf64Error>(cs@),
            r matches Err(e) ==> decode_units(self@) == Err::<Seq<char>, Utf64Error>(e),
    {
        let n = self.data.len();
        let mut chars: Vec<char> = Vec::new();
        let mut bad: bool = false;
        let mut i: usize = 0;
        while i < n
            invariant
                i <= n,
                n == self@.len(),
                forall|j: int| 0 <= j < i ==> #[trigger] unit_first_pass_ok(self@[j]),
                !bad ==> chars@.len() == i && (forall|j: int|
                    0 <= j < i ==> #[trigger] unit_decode(self@[j]) == Ok::<char, Utf64Error>(
                        chars@[j],
                    )),
                bad ==> exists|j: int|
                    0 <= j < i && #[trigger] unit_decode(self@[j]) == Err::<char, Utf64Error>(
                        Utf64Error::InvalidUtf8,
                    ),
            decreases n - i,
        {
            let u = self.data[i];
            match decode_unit(u) {
                Ok(c) => {
                    if !bad {
                        chars.push(c);
                    }
                },
                Err(e) => {
                    match e {
                        Utf64Error::InvalidUtf8 => {
                            bad = true;
                        },
                        _ => {
                            proof {
                                lemma_corruption_rejected(self@, i as int);
                            }
                            return Err(e);
                        },
                    }
                },
            }
            i += 1;
        }
        proof {
            lemma_first_unit_error_none(self@);
        }
        if bad {
            proof {
                let j = choose|j: int|
                    0 <= j < self@.len() && #[trigger] unit_decode(self@[j]) == Err::<
                        char,
                        Utf64Error,
                    >(Utf64Error::InvalidUtf8);
                assert(!(unit_decode(self@[j]) is Ok));
            }
            return Err(Utf64Error::InvalidUtf8);
        }
        proof {
            assert(Seq::new(self@.len(), |j: int| unit_decode(self@[j])->Ok_0) =~= chars@);
        }
        Ok(chars)
    }

    /// Decodes this UTF64 string back to ordinary text, validating reserved
    /// bits and UTF-8 well-formedness; the first bad unit decides the error.
    pub fn to_string(&self) -> (r: Result<String, Utf64Error>)
        ensures
            r matches Ok(st) ==> decode_units(self@) == Ok::<Seq<char>, Utf64Error>(st@),
            r matches Err(e) ==> decode_units(self@) == Err::<Seq<char>, Utf64Error>(e),
    {
        match self.decode_chars() {
            Ok(chars) => Ok(chars_to_string(&chars)),
            Err(e) => Err(e),
        }
    }

    /// O(1) bounds-checked access: the unit at a character index, or `None`
    /// when the index is out of range.
    pub fn get(&self, i: usize) -> (r: Option<u64>)
        ensures
            i < self@.len() ==> r == Some(self@[i as int]),
            i >= self@.len() ==> r is None,
    {
        if i < self.data.len() {
            Some(self.data[i])
        } else {
            None
        }
    }

    /// Bounds-checked slicing: the raw sub-sequence of units for a
    /// contiguous index range, or `None` when the range is out of bounds.
    pub fn slice(&self, start: usize, end: usize) -> (r: Option<&[u64]>)
        ensures
            start <= end <= self@.len() ==> (r matches Some(s) && s@ == self@.subrange(
                start as int,
                end as int,
            )),
            !(start <= end && end <= self@.len()) ==> r is None,
    {
        if start <= end && end <= self.data.len() {
            Some(vstd::slice::slice_subrange(self.data.as_slice(), start, end))
        } else {
            None
        }
    }

    /// Total comparison: decode both sides and compare the texts
    /// lexicographically; a decodable container is greater than a
    /// non-decodable one, and two non-decodable containers compare equal.
    pub fn cmp(&self, other: &Self) -> (r: Ordering)
        ensures
            r == cmp_units(self@, other@),
    {
        match (self.decode_chars(), other.decode_chars()) {
            (Ok(a), Ok(b)) => cmp_chars(&a, &b),
            (Ok(_), Err(_)) => Ordering::Greater,
            (Err(_), Ok(_)) => Ordering::Less,
            (Err(_), Err(_)) => Ordering::Equal,
        }
    }

    /// Equality against ordinary text: true exactly when this container
    /// decodes and the decoded text equals the given string.
    pub fn eq_str(&self, other: &str) -> (r: bool)
        ensures
            r == (decode_units(self@) matches Ok(cs) && cs == other@),
    {
        match self.decode_chars() {
            Ok(cs) => {
                let ocs = str_chars(other);
                let c = cmp_chars(&cs, &ocs);
                proof {
                    lemma_lex_cmp_eq(cs@, ocs@);
                }
                matches!(c, Ordering::Equal)
            },
            Err(_) => false,
        }
    }

    /// The decoded text, or a fixed placeholder when decoding fails.
    pub fn display_string(&self) -> (r: String)
        ensures
            decode_units(self@) matches Ok(cs) ==> r@ == cs,
            decode_units(self@) is Err ==> r@ == "<invalid UTF64>"@,
    {
        match self.to_string() {
            Ok(st) => st,
            Err(_) => "<invalid UTF64>".to_owned(),
        }
    }

    /// A diagnostic form: the decoded text between quotes inside
    /// `String64(...)`, inserted verbatim (without escaping), or a fixed
    /// placeholder when decoding fails.
    pub fn debug_string(&self) -> (r: String)
        ensures
            decode_units(self@) matches Ok(cs) ==> r@ == "String64(\""@ + cs + "\")"@,
            decode_units(self@) is Err ==> r@ == "String64(<invalid>)"@,
    {
        match self.to_string() {
            Ok(st) => {
                let mut r = "String64(\"".to_owned();
                r.append(st.as_str());
                r.append("\")");
                r
            },
            Err(_) => "String64(<invalid>)".to_owned(),
        }
    }

    /// Owning iteration: takes ownership of the unit sequence; the container
    /// is consumed.
    pub fn into_iter(self) -> (r: IntoIter)
        ensures
            r.remaining() == self@,
    {
        let r = IntoIter { units: self.data, pos: 0 };
        proof {
            assert(r.remaining() =~= r.units@);
        }
        r
    }

    /// Borrowing iteration: holds a read-only view of the units; the
    /// container remains usable afterwards.
    pub fn iter(&self) -> (r: Iter<'_>)
        ensures
            r.remaining() == self@,
    {
        let r = Iter { units: self.data.as_slice(), pos: 0 };
        proof {
            assert(r.remaining() =~= r.units@);
        }
        r
    }
}

/// Compares two character vectors lexicographically by scalar value.
fn cmp_chars(a: &Vec<char>, b: &Vec<char>) -> (r: Ordering)
    ensures
        r == lex_cmp_chars(a@, b@),
{
    let mut i: usize = 0;
    proof {
        assert(a@.skip(0) =~= a@);
        assert(b@.skip(0) =~= b@);
    }
    loop
        invariant
            i <= a@.len(),
            i <= b@.len(),
            lex_cmp_chars(a@, b@) == lex_cmp_chars(a@.skip(i as int), b@.skip(i as int)),
        ensures
            lex_cmp_chars(a@, b@) == lex_cmp_chars(a@.skip(i as int), b@.skip(i as int)),
            (i == a@.len() && i == b@.len()) || (i < a@.len() && i < b@.len() && a@[i as int]
                != b@[i as int]) || (i == a@.len() && i < b@.len()) || (i == b@.len() && i
                < a@.len()),
        decreases a@.len() - i,
    {
        if i >= a.len() || i >= b.len() {
            break ;
        }
        let ca = a[i];
        let cb = b[i];
        if ca != cb {
            break ;
        }
        proof {
            let sa = a@.skip(i as int);
            let sb = b@.skip(i as int);
            assert(sa[0] == ca && sb[0] == cb);
            assert(sa.drop_first() =~= a@.skip(i + 1 as int));
            assert(sb.drop_first() =~= b@.skip(i + 1 as int));
        }
        i += 1;
    }
    proof {
        let sa = a@.skip(i as int);
        let sb = b@.skip(i as int);
        if i < a@.len() && i < b@.len() {
            assert(sa[0] == a@[i as int] && sb[0] == b@[i as int]);
        }
    }
    if i < a.len() && i < b.len() {
        let ca = a[i];
        let cb = b[i];
        if ca < cb {
            Ordering::Less
        } else {
            Ordering::Greater
        }
    } else if i < b.len() {
        Ordering::Less
    } else if i < a.len() {
        Ordering::Greater
    } else {
        proof {
            assert(a@.skip(i as int) =~= Seq::<char>::empty());
            assert(b@.skip(i as int) =~= Seq::<char>::empty());
        }
        Ordering::Equal
    }
}

impl PartialOrd for String64 {
    /// The documented total order, wrapped in `Some`: decode both sides and
    /// compare the texts lexicographically.
    fn partial_cmp(&self, other: &Self) -> (r: Option<Ordering>) {
        Some(self.cmp(other))
    }
}

impl vstd::std_specs::cmp::PartialOrdSpecImpl for String64 {
    open spec fn obeys_partial_cmp_spec() -> bool {
        true
    }

    open spec fn partial_cmp_spec(&self, other: &Self) -> Option<Ordering> {
        Some(cmp_units(self@, other@))
    }
}

impl Default for String64 {
    /// The empty container.
    fn default() -> (r: Self)
        ensures
            r@ == Seq::<u64>::empty(),
    {
        Self::new()
    }
}

impl From<&str> for String64 {
    /// Encodes the text; never fails.
    fn from(s: &str) -> (r: Self) {
        match Self::encode(s) {
            Ok(t) => t,
            Err(_) => Self::new(),
        }
    }
}

impl vstd::std_specs::convert::FromSpecImpl<&str> for String64 {
    open spec fn obeys_from_spec() -> bool {
        false
    }

    open spec fn from_spec(s: &str) -> Self {
        choose|t: Self| t@ == encode_units(s@)
    }
}

impl From<String> for String64 {
    /// Encodes the text; never fails.
    fn from(s: String) -> (r: Self) {
        match Self::encode(s.as_str()) {
            Ok(t) => t,
            Err(_) => Self::new(),
        }
    }
}

impl vstd::std_specs::convert::FromSpecImpl<String> for String64 {
    open spec fn obeys_from_spec() -> bool {
        false
    }

    open spec fn from_spec(s: String) -> Self {
        choose|t: Self| t@ == encode_units(s@)
    }
}

impl FromStr for String64 {
    type Err = Utf64Error;

    /// Encodes the text; never fails.
    fn from_str(s: &str) -> Result<Self, Utf64Error> {
        Self::encode(s)
    }
}

/// Iterator that yields the decoded characters of a `String64` by consuming
/// it; each step decodes one unit, as strictly as whole-container decode.
pub struct IntoIter {
    units: Vec<u64>,
    pos: usize,
}

impl IntoIter {
    /// The units not yet visited, in order.
    pub closed spec fn remaining(&self) -> Seq<u64> {
        self.units@.skip(self.pos as int)
    }

    #[verifier::type_invariant]
    closed spec fn wf(&self) -> bool {
        self.pos <= self.units@.len()
    }

    /// Decodes and yields the next unit's character, or that unit's decoding
    /// error; `None` once all units are spent.
    pub fn next(&mut self) -> (r: Option<Result<char, Utf64Error>>)
        ensures
            old(self).remaining().len() == 0 ==> r is None && final(self).remaining() == old(
                self,
            ).remaining(),
            old(self).remaining().len() > 0 ==> r == Some(unit_decode(old(self).remaining()[0]))
                && final(self).remaining() == old(self).remaining().drop_first(),
    {
        proof {
            use_type_invariant(&*self);
        }
        if self.pos < self.units.len() {
            let u = self.units[self.pos];
            self.pos = self.pos + 1;
            proof {
                assert(self.remaining() =~= old(self).remaining().drop_first());
            }
            Some(decode_unit(u))
        } else {
            proof {
                assert(old(self).remaining().len() == 0);
            }
            None
        }
    }

    /// The exact number of characters left, one per remaining unit.
    pub fn len(&self) -> (r: usize)
        ensures
            r == self.remaining().len(),
    {
        proof {
            use_type_invariant(self);
        }
        self.units.len() - self.pos
    }

    /// Iterator-style size bounds: exact, since one unit yields one
    /// character.
    pub fn size_hint(&self) -> (r: (usize, Option<usize>))
        ensures
            r.0 == self.remaining().len(),
            r.1 == Some(r.0),
    {
        let n = self.len();
        (n, Some(n))
    }
}

/// Iterator that yields the decoded characters of a `String64` without
/// consuming it; each step decodes one unit, as strictly as whole-container
/// decode.
pub struct Iter<'a> {
    units: &'a [u64],
    pos: usize,
}

impl<'a> Iter<'a> {
    /// The units not yet visited, in order.
    pub closed spec fn remaining(&self) -> Seq<u64> {
        self.units@.skip(self.pos as int)
    }

    #[verifier::type_invariant]
    closed spec fn wf(&self) -> bool {
        self.pos <= self.units@.len()
    }

    /// Decodes and yields the next unit's character, or that unit's decoding
    /// error; `None` once all units are spent.
    pub fn next(&mut self) -> (r: Option<Result<char, Utf64Error>>)
        ensures
            old(self).remaining().len() == 0 ==> r is None && final(self).remaining() == old(
                self,
            ).remaining(),
            old(self).remaining().len() > 0 ==> r == Some(unit_decode(old(self).remaining()[0]))
                && final(self).remaining() == old(self).remaining().drop_first(),
    {
        proof {
            use_type_invariant(&*self);
        }
        if self.pos < self.units.len() {
            let u = *vstd::slice::slice_index_get(self.units, self.pos);
            self.pos = self.pos + 1;
            proof {
                assert(self.remaining() =~= old(self).remaining().drop_first());
            }
            Some(decode_unit(u))
        } else {
            proof {
                assert(old(self).remaining().len() == 0);
            }
            None
        }
    }

    /// The exact number of characters left, one per remaining unit.
    pub fn len(&self) -> (r: usize)
        ensures
            r == self.remaining().len(),
    {
        proof {
            use_type_invariant(self);
        }
        self.units.len() - self.pos
    }

    /// Iterator-style size bounds: exact, since one unit yields one
    /// character.
    pub fn size_hint(&self) -> (r: (usize, Option<usize>))
        ensures
            r.0 == self.remaining().len(),
            r.1 == Some(r.0),
    {
        let n = self.len();
        (n, Some(n))
    }
}

} // verus!
