//! Keys: values that tables keep in order, compared by their encodings.

use crate::types::Value;
use vstd::bytes::*;
use vstd::prelude::*;
use std::cmp::Ordering;

verus! {

/// The order of two integers.
pub open spec fn int_order(a: int, b: int) -> Ordering {
    if a < b {
        Ordering::Less
    } else if a == b {
        Ordering::Equal
    } else {
        Ordering::Greater
    }
}

/// The first order unless it is `Equal`, else the second: how two sequences of
/// fields compare, field by field.
pub open spec fn then_order(first: Ordering, second: Ordering) -> Ordering {
    match first {
        Ordering::Equal => second,
        _ => first,
    }
}

/// Byte strings in lexicographic order: the first differing byte decides, and a
/// proper prefix comes first.
pub open spec fn lex_order(a: Seq<u8>, b: Seq<u8>) -> Ordering
    decreases a.len(),
{
    if a.len() == 0 {
        if b.len() == 0 {
            Ordering::Equal
        } else {
            Ordering::Less
        }
    } else if b.len() == 0 {
        Ordering::Greater
    } else if a[0] < b[0] {
        Ordering::Less
    } else if b[0] < a[0] {
        Ordering::Greater
    } else {
        lex_order(a.drop_first(), b.drop_first())
    }
}

/// A value type whose encodings can be compared in the order of the values.
pub trait Key<'a>: Value<'a> {
    /// The order of the values that two encodings decode to.
    spec fn key_order(data1: Seq<u8>, data2: Seq<u8>) -> Ordering;

    /// The order of two values.
    spec fn value_order(a: Self, b: Self) -> Ordering;

    /// Encodings compare as the values they encode.
    proof fn lemma_order(a: Self, b: Self)
        requires
            Self::encodable(a),
            Self::encodable(b),
        ensures
            Self::key_order(Self::encoding(a), Self::encoding(b)) == Self::value_order(a, b),
    ;

    /// Compares the values that two encodings decode to.
    fn compare(data1: &[u8], data2: &[u8]) -> (o: Ordering)
        requires
            Self::decodes(data1@),
            Self::decodes(data2@),
        ensures
            o == Self::key_order(data1@, data2@),
    ;
}

/// A position as an integer.
pub open spec fn position(i: usize) -> int {
    i as int
}

/// Compares two byte strings lexicographically.
pub fn lex_compare(a: &[u8], b: &[u8]) -> (o: Ordering)
    ensures
        o == lex_order(a@, b@),
{
    let mut i: usize = 0;
    assert(a@.skip(position(i)) =~= a@);
    assert(b@.skip(position(i)) =~= b@);
    while i < a.len() && i < b.len()
        invariant
            i <= a@.len(),
            i <= b@.len(),
            lex_order(a@, b@) == lex_order(a@.skip(position(i)), b@.skip(position(i))),
        decreases a@.len() - i,
    {
        assert(a@.skip(position(i))[0] == a@[position(i)]);
        assert(b@.skip(position(i))[0] == b@[position(i)]);
        if a[i] < b[i] {
            return Ordering::Less;
        }
        if b[i] < a[i] {
            return Ordering::Greater;
        }
        assert(a@.skip(position(i)).drop_first() =~= a@.skip(i + 1));
        assert(b@.skip(position(i)).drop_first() =~= b@.skip(i + 1));
        i = i + 1;
    }
    if i == a.len() && i == b.len() {
        Ordering::Equal
    } else if i == a.len() {
        Ordering::Less
    } else {
        Ordering::Greater
    }
}

/// A `u8` as an integer.
pub open spec fn u8_int(x: u8) -> int {
    x as int
}

/// A `u16` as an integer.
pub open spec fn u16_int(x: u16) -> int {
    x as int
}

/// A `u32` as an integer.
pub open spec fn u32_int(x: u32) -> int {
    x as int
}

/// A `u64` as an integer.
pub open spec fn u64_int(x: u64) -> int {
    x as int
}

/// A `u128` as an integer.
pub open spec fn u128_int(x: u128) -> int {
    x as int
}

/// The byte a one-byte encoding holds, as an integer.
pub open spec fn byte_value(d: Seq<u8>) -> int {
    d[0] as int
}

/// The `u16` a two-byte encoding holds, as an integer.
pub open spec fn u16_value(d: Seq<u8>) -> int {
    spec_u16_from_le_bytes(d) as int
}

/// The `u32` a four-byte encoding holds, as an integer.
pub open spec fn u32_value(d: Seq<u8>) -> int {
    spec_u32_from_le_bytes(d) as int
}

/// The `u64` an eight-byte encoding holds, as an integer.
pub open spec fn u64_value(d: Seq<u8>) -> int {
    spec_u64_from_le_bytes(d) as int
}

/// The `u128` a sixteen-byte encoding holds, as an integer.
pub open spec fn u128_value(d: Seq<u8>) -> int {
    spec_u128_from_le_bytes(d) as int
}

impl<'a> Key<'a> for u8 {
    open spec fn key_order(data1: Seq<u8>, data2: Seq<u8>) -> Ordering {
        int_order(byte_value(data1), byte_value(data2))
    }

    open spec fn value_order(a: u8, b: u8) -> Ordering {
        int_order(u8_int(a), u8_int(b))
    }

    proof fn lemma_order(a: u8, b: u8) {
    }

    fn compare(data1: &[u8], data2: &[u8]) -> (o: Ordering) {
        let a = data1[0];
        let b = data2[0];
        if a < b {
            Ordering::Less
        } else if a == b {
            Ordering::Equal
        } else {
            Ordering::Greater
        }
    }
}

impl<'a> Key<'a> for u16 {
    open spec fn key_order(data1: Seq<u8>, data2: Seq<u8>) -> Ordering {
        int_order(u16_value(data1), u16_value(data2))
    }

    open spec fn value_order(a: u16, b: u16) -> Ordering {
        int_order(u16_int(a), u16_int(b))
    }

    proof fn lemma_order(a: u16, b: u16) {
        lemma_auto_spec_u16_to_from_le_bytes();
        assert(spec_u16_to_le_bytes(a).len() == 2);
        assert(spec_u16_to_le_bytes(b).len() == 2);
    }

    fn compare(data1: &[u8], data2: &[u8]) -> (o: Ordering) {
        let a = u16_from_le_bytes(data1);
        let b = u16_from_le_bytes(data2);
        if a < b {
            Ordering::Less
        } else if a == b {
            Ordering::Equal
        } else {
            Ordering::Greater
        }
    }
}

impl<'a> Key<'a> for u32 {
    open spec fn key_order(data1: Seq<u8>, data2: Seq<u8>) -> Ordering {
        int_order(u32_value(data1), u32_value(data2))
    }

    open spec fn value_order(a: u32, b: u32) -> Ordering {
        int_order(u32_int(a), u32_int(b))
    }

    proof fn lemma_order(a: u32, b: u32) {
        lemma_auto_spec_u32_to_from_le_bytes();
        assert(spec_u32_to_le_bytes(a).len() == 4);
        assert(spec_u32_to_le_bytes(b).len() == 4);
    }

    fn compare(data1: &[u8], data2: &[u8]) -> (o: Ordering) {
        let a = u32_from_le_bytes(data1);
        let b = u32_from_le_bytes(data2);
        if a < b {
            Ordering::Less
        } else if a == b {
            Ordering::Equal
        } else {
            Ordering::Greater
        }
    }
}

impl<'a> Key<'a> for u64 {
    open spec fn key_order(data1: Seq<u8>, data2: Seq<u8>) -> Ordering {
        int_order(u64_value(data1), u64_value(data2))
    }

    open spec fn value_order(a: u64, b: u64) -> Ordering {
        int_order(u64_int(a), u64_int(b))
    }

    proof fn lemma_order(a: u64, b: u64) {
        lemma_auto_spec_u64_to_from_le_bytes();
        assert(spec_u64_to_le_bytes(a).len() == 8);
        assert(spec_u64_to_le_bytes(b).len() == 8);
    }

    fn compare(data1: &[u8], data2: &[u8]) -> (o: Ordering) {
        let a = u64_from_le_bytes(data1);
        let b = u64_from_le_bytes(data2);
        if a < b {
            Ordering::Less
        } else if a == b {
            Ordering::Equal
        } else {
            Ordering::Greater
        }
    }
}

impl<'a> Key<'a> for u128 {
    open spec fn key_order(data1: Seq<u8>, data2: Seq<u8>) -> Ordering {
        int_order(u128_value(data1), u128_value(data2))
    }

    open spec fn value_order(a: u128, b: u128) -> Ordering {
        int_order(u128_int(a), u128_int(b))
    }

    proof fn lemma_order(a: u128, b: u128) {
        lemma_auto_spec_u128_to_from_le_bytes();
        assert(spec_u128_to_le_bytes(a).len() == 16);
        assert(spec_u128_to_le_bytes(b).len() == 16);
    }

    fn compare(data1: &[u8], data2: &[u8]) -> (o: Ordering) {
        let a = u128_from_le_bytes(data1);
        let b = u128_from_le_bytes(data2);
        if a < b {
            Ordering::Less
        } else if a == b {
            Ordering::Equal
        } else {
            Ordering::Greater
        }
    }
}

impl<'a> Key<'a> for &'a str {
    /// Strings compare as their UTF-8 bytes do.
    open spec fn key_order(data1: Seq<u8>, data2: Seq<u8>) -> Ordering {
        lex_order(data1, data2)
    }

    /// Strings in the order of their UTF-8 bytes.
    open spec fn value_order(a: &'a str, b: &'a str) -> Ordering {
        lex_order(vstd::utf8::encode_utf8(a@), vstd::utf8::encode_utf8(b@))
    }

    proof fn lemma_order(a: &'a str, b: &'a str) {
    }

    fn compare(data1: &[u8], data2: &[u8]) -> (o: Ordering) {
        lex_compare(data1, data2)
    }
}

impl<'a> Key<'a> for &'a [u8] {
    open spec fn key_order(data1: Seq<u8>, data2: Seq<u8>) -> Ordering {
        lex_order(data1, data2)
    }

    open spec fn value_order(a: &'a [u8], b: &'a [u8]) -> Ordering {
        lex_order(a@, b@)
    }

    proof fn lemma_order(a: &'a [u8], b: &'a [u8]) {
    }

    fn compare(data1: &[u8], data2: &[u8]) -> (o: Ordering) {
        lex_compare(data1, data2)
    }
}

} // verus!
