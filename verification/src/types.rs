//! Values that tables store: their width, their encoding and decoding, and the
//! names of their types.

use crate::codec::{append_bytes, from_le16, from_le32, le16, le32, lemma_le_roundtrip, push_u16, push_u32, read_u16, read_u32};
use crate::text::{str_from_utf8, string_from_utf8};
use vstd::bytes::*;
use vstd::prelude::*;
use vstd::slice::slice_subrange;
use vstd::utf8::*;

verus! {

/// Whether a type name belongs to a built-in type or to one defined by a user.
#[derive(Debug, Clone, Copy, PartialEq, Eq, Structural)]
enum TypeClassification {
    Internal,
    UserDefined,
}

/// The name of a value type, as stored with a table's definition.
#[derive(Debug, Clone, PartialEq, Eq)]
pub struct TypeName {
    classification: TypeClassification,
    name: String,
}

impl TypeName {
    /// The name.
    pub closed spec fn spec_name(&self) -> Seq<char> {
        self.name@
    }

    /// Whether the name belongs to a built-in type.
    pub closed spec fn is_internal(&self) -> bool {
        self.classification == TypeClassification::Internal
    }

    /// The name of a user-defined type. It should be unique among the types stored.
    pub fn new(name: &str) -> (t: Self)
        ensures
            t.spec_name() == name@,
            !t.is_internal(),
    {
        Self { classification: TypeClassification::UserDefined, name: name.to_owned() }
    }

    /// The name of a built-in type.
    pub fn internal(name: &str) -> (t: Self)
        ensures
            t.spec_name() == name@,
            t.is_internal(),
    {
        Self { classification: TypeClassification::Internal, name: name.to_owned() }
    }

    /// Returns the name.
    pub fn name(&self) -> (n: &str)
        ensures
            n@ == self.spec_name(),
    {
        self.name.as_str()
    }
}

/// A type whose values tables can store.
pub trait Value<'a>: Sized {
    /// The width of every encoding, if it is fixed.
    spec fn width() -> Option<nat>;

    /// Whether `value` can be encoded: every length its encoding records fits the
    /// field that records it.
    spec fn encodable(value: Self) -> bool;

    /// The encoding of `value`.
    spec fn encoding(value: Self) -> Seq<u8>;

    /// Whether `from_bytes` accepts `data`.
    spec fn decodes(data: Seq<u8>) -> bool;

    /// Whether `value` is what `data` decodes to.
    spec fn decodes_to(data: Seq<u8>, value: Self) -> bool;

    /// The name of the type.
    spec fn spec_type_name() -> Seq<char>;

    /// Width of a fixed-width type, or `None` for a variable-width one.
    fn fixed_width() -> (w: Option<usize>)
        ensures
            match w {
                Some(n) => Self::width() == Some(n as nat),
                None => Self::width() is None,
            },
    ;

    /// Deserializes data.
    fn from_bytes(data: &'a [u8]) -> (v: Self)
        requires
            Self::decodes(data@),
        ensures
            Self::decodes_to(data@, v),
    ;

    /// Serializes a value.
    fn as_bytes(value: &Self) -> (b: Vec<u8>)
        requires
            Self::encodable(*value),
        ensures
            b@ == Self::encoding(*value),
    ;

    /// The name of the type.
    fn value_type_name() -> (t: TypeName)
        ensures
            t.spec_name() == Self::spec_type_name(),
    ;

    /// Decoding the encoding of a value gives the value back, and a fixed-width
    /// type encodes every value to its width.
    proof fn lemma_roundtrip(value: Self)
        requires
            Self::encodable(value),
        ensures
            Self::decodes(Self::encoding(value)),
            Self::decodes_to(Self::encoding(value), value),
            Self::width() matches Some(n) ==> Self::encoding(value).len() == n,
    ;
}

impl<'a> Value<'a> for u8 {
    open spec fn width() -> Option<nat> {
        Some(1nat)
    }

    open spec fn encodable(value: u8) -> bool {
        true
    }

    open spec fn encoding(value: u8) -> Seq<u8> {
        seq![value]
    }

    open spec fn decodes(data: Seq<u8>) -> bool {
        data.len() == 1
    }

    open spec fn decodes_to(data: Seq<u8>, value: u8) -> bool {
        value == data[0]
    }

    open spec fn spec_type_name() -> Seq<char> {
        "u8"@
    }

    fn fixed_width() -> (w: Option<usize>) {
        Some(1)
    }

    fn from_bytes(data: &'a [u8]) -> (v: u8) {
        data[0]
    }

    fn as_bytes(value: &u8) -> (b: Vec<u8>) {
        let mut b: Vec<u8> = Vec::new();
        b.push(*value);
        b
    }

    fn value_type_name() -> (t: TypeName) {
        TypeName::internal("u8")
    }

    proof fn lemma_roundtrip(value: u8) {
    }
}

impl<'a> Value<'a> for i8 {
    open spec fn width() -> Option<nat> {
        Some(1nat)
    }

    open spec fn encodable(value: i8) -> bool {
        true
    }

    open spec fn encoding(value: i8) -> Seq<u8> {
        seq![value as u8]
    }

    open spec fn decodes(data: Seq<u8>) -> bool {
        data.len() == 1
    }

    open spec fn decodes_to(data: Seq<u8>, value: i8) -> bool {
        value == data[0] as i8
    }

    open spec fn spec_type_name() -> Seq<char> {
        "i8"@
    }

    fn fixed_width() -> (w: Option<usize>) {
        Some(1)
    }

    fn from_bytes(data: &'a [u8]) -> (v: i8) {
        data[0] as i8
    }

    fn as_bytes(value: &i8) -> (b: Vec<u8>) {
        let mut b: Vec<u8> = Vec::new();
        b.push(*value as u8);
        b
    }

    fn value_type_name() -> (t: TypeName) {
        TypeName::internal("i8")
    }

    proof fn lemma_roundtrip(value: i8) {
        assert(((value as u8) as i8) == value) by (bit_vector);
    }
}

impl<'a> Value<'a> for bool {
    open spec fn width() -> Option<nat> {
        Some(1nat)
    }

    open spec fn encodable(value: bool) -> bool {
        true
    }

    open spec fn encoding(value: bool) -> Seq<u8> {
        if value {
            seq![1u8]
        } else {
            seq![0u8]
        }
    }

    open spec fn decodes(data: Seq<u8>) -> bool {
        data.len() >= 1 && (data[0] == 0 || data[0] == 1)
    }

    open spec fn decodes_to(data: Seq<u8>, value: bool) -> bool {
        value == (data[0] == 1)
    }

    open spec fn spec_type_name() -> Seq<char> {
        "bool"@
    }

    fn fixed_width() -> (w: Option<usize>) {
        Some(1)
    }

    fn from_bytes(data: &'a [u8]) -> (v: bool) {
        data[0] == 1
    }

    fn as_bytes(value: &bool) -> (b: Vec<u8>) {
        let mut b: Vec<u8> = Vec::new();
        if *value {
            b.push(1);
        } else {
            b.push(0);
        }
        b
    }

    fn value_type_name() -> (t: TypeName) {
        TypeName::internal("bool")
    }

    proof fn lemma_roundtrip(value: bool) {
    }
}

impl<'a> Value<'a> for u16 {
    open spec fn width() -> Option<nat> {
        Some(2nat)
    }

    open spec fn encodable(value: u16) -> bool {
        true
    }

    open spec fn encoding(value: u16) -> Seq<u8> {
        spec_u16_to_le_bytes(value)
    }

    open spec fn decodes(data: Seq<u8>) -> bool {
        data.len() == 2
    }

    open spec fn decodes_to(data: Seq<u8>, value: u16) -> bool {
        value == spec_u16_from_le_bytes(data)
    }

    open spec fn spec_type_name() -> Seq<char> {
        "u16"@
    }

    fn fixed_width() -> (w: Option<usize>) {
        Some(2)
    }

    fn from_bytes(data: &'a [u8]) -> (v: u16) {
        u16_from_le_bytes(data)
    }

    fn as_bytes(value: &u16) -> (b: Vec<u8>) {
        u16_to_le_bytes(*value)
    }

    fn value_type_name() -> (t: TypeName) {
        TypeName::internal("u16")
    }

    proof fn lemma_roundtrip(value: u16) {
        lemma_auto_spec_u16_to_from_le_bytes();
    }
}

impl<'a> Value<'a> for u32 {
    open spec fn width() -> Option<nat> {
        Some(4nat)
    }

    open spec fn encodable(value: u32) -> bool {
        true
    }

    open spec fn encoding(value: u32) -> Seq<u8> {
        spec_u32_to_le_bytes(value)
    }

    open spec fn decodes(data: Seq<u8>) -> bool {
        data.len() == 4
    }

    open spec fn decodes_to(data: Seq<u8>, value: u32) -> bool {
        value == spec_u32_from_le_bytes(data)
    }

    open spec fn spec_type_name() -> Seq<char> {
        "u32"@
    }

    fn fixed_width() -> (w: Option<usize>) {
        Some(4)
    }

    fn from_bytes(data: &'a [u8]) -> (v: u32) {
        u32_from_le_bytes(data)
    }

    fn as_bytes(value: &u32) -> (b: Vec<u8>) {
        u32_to_le_bytes(*value)
    }

    fn value_type_name() -> (t: TypeName) {
        TypeName::internal("u32")
    }

    proof fn lemma_roundtrip(value: u32) {
        lemma_auto_spec_u32_to_from_le_bytes();
    }
}

impl<'a> Value<'a> for u64 {
    open spec fn width() -> Option<nat> {
        Some(8nat)
    }

    open spec fn encodable(value: u64) -> bool {
        true
    }

    open spec fn encoding(value: u64) -> Seq<u8> {
        spec_u64_to_le_bytes(value)
    }

    open spec fn decodes(data: Seq<u8>) -> bool {
        data.len() == 8
    }

    open spec fn decodes_to(data: Seq<u8>, value: u64) -> bool {
        value == spec_u64_from_le_bytes(data)
    }

    open spec fn spec_type_name() -> Seq<char> {
        "u64"@
    }

    fn fixed_width() -> (w: Option<usize>) {
        Some(8)
    }

    fn from_bytes(data: &'a [u8]) -> (v: u64) {
        u64_from_le_bytes(data)
    }

    fn as_bytes(value: &u64) -> (b: Vec<u8>) {
        u64_to_le_bytes(*value)
    }

    fn value_type_name() -> (t: TypeName) {
        TypeName::internal("u64")
    }

    proof fn lemma_roundtrip(value: u64) {
        lemma_auto_spec_u64_to_from_le_bytes();
    }
}

impl<'a> Value<'a> for u128 {
    open spec fn width() -> Option<nat> {
        Some(16nat)
    }

    open spec fn encodable(value: u128) -> bool {
        true
    }

    open spec fn encoding(value: u128) -> Seq<u8> {
        spec_u128_to_le_bytes(value)
    }

    open spec fn decodes(data: Seq<u8>) -> bool {
        data.len() == 16
    }

    open spec fn decodes_to(data: Seq<u8>, value: u128) -> bool {
        value == spec_u128_from_le_bytes(data)
    }

    open spec fn spec_type_name() -> Seq<char> {
        "u128"@
    }

    fn fixed_width() -> (w: Option<usize>) {
        Some(16)
    }

    fn from_bytes(data: &'a [u8]) -> (v: u128) {
        u128_from_le_bytes(data)
    }

    fn as_bytes(value: &u128) -> (b: Vec<u8>) {
        u128_to_le_bytes(*value)
    }

    fn value_type_name() -> (t: TypeName) {
        TypeName::internal("u128")
    }

    proof fn lemma_roundtrip(value: u128) {
        lemma_auto_spec_u128_to_from_le_bytes();
    }
}

impl<'a> Value<'a> for i16 {
    open spec fn width() -> Option<nat> {
        Some(2nat)
    }

    open spec fn encodable(value: i16) -> bool {
        true
    }

    open spec fn encoding(value: i16) -> Seq<u8> {
        spec_u16_to_le_bytes(value as u16)
    }

    open spec fn decodes(data: Seq<u8>) -> bool {
        data.len() == 2
    }

    open spec fn decodes_to(data: Seq<u8>, value: i16) -> bool {
        value == spec_u16_from_le_bytes(data) as i16
    }

    open spec fn spec_type_name() -> Seq<char> {
        "i16"@
    }

    fn fixed_width() -> (w: Option<usize>) {
        Some(2)
    }

    fn from_bytes(data: &'a [u8]) -> (v: i16) {
        u16_from_le_bytes(data) as i16
    }

    fn as_bytes(value: &i16) -> (b: Vec<u8>) {
        u16_to_le_bytes(*value as u16)
    }

    fn value_type_name() -> (t: TypeName) {
        TypeName::internal("i16")
    }

    proof fn lemma_roundtrip(value: i16) {
        lemma_auto_spec_u16_to_from_le_bytes();
        assert(((value as u16) as i16) == value) by (bit_vector);
    }
}

impl<'a> Value<'a> for i32 {
    open spec fn width() -> Option<nat> {
        Some(4nat)
    }

    open spec fn encodable(value: i32) -> bool {
        true
    }

    open spec fn encoding(value: i32) -> Seq<u8> {
        spec_u32_to_le_bytes(value as u32)
    }

    open spec fn decodes(data: Seq<u8>) -> bool {
        data.len() == 4
    }

    open spec fn decodes_to(data: Seq<u8>, value: i32) -> bool {
        value == spec_u32_from_le_bytes(data) as i32
    }

    open spec fn spec_type_name() -> Seq<char> {
        "i32"@
    }

    fn fixed_width() -> (w: Option<usize>) {
        Some(4)
    }

    fn from_bytes(data: &'a [u8]) -> (v: i32) {
        u32_from_le_bytes(data) as i32
    }

    fn as_bytes(value: &i32) -> (b: Vec<u8>) {
        u32_to_le_bytes(*value as u32)
    }

    fn value_type_name() -> (t: TypeName) {
        TypeName::internal("i32")
    }

    proof fn lemma_roundtrip(value: i32) {
        lemma_auto_spec_u32_to_from_le_bytes();
        assert(((value as u32) as i32) == value) by (bit_vector);
    }
}

impl<'a> Value<'a> for i64 {
    open spec fn width() -> Option<nat> {
        Some(8nat)
    }

    open spec fn encodable(value: i64) -> bool {
        true
    }

    open spec fn encoding(value: i64) -> Seq<u8> {
        spec_u64_to_le_bytes(value as u64)
    }

    open spec fn decodes(data: Seq<u8>) -> bool {
        data.len() == 8
    }

    open spec fn decodes_to(data: Seq<u8>, value: i64) -> bool {
        value == spec_u64_from_le_bytes(data) as i64
    }

    open spec fn spec_type_name() -> Seq<char> {
        "i64"@
    }

    fn fixed_width() -> (w: Option<usize>) {
        Some(8)
    }

    fn from_bytes(data: &'a [u8]) -> (v: i64) {
        u64_from_le_bytes(data) as i64
    }

    fn as_bytes(value: &i64) -> (b: Vec<u8>) {
        u64_to_le_bytes(*value as u64)
    }

    fn value_type_name() -> (t: TypeName) {
        TypeName::internal("i64")
    }

    proof fn lemma_roundtrip(value: i64) {
        lemma_auto_spec_u64_to_from_le_bytes();
        assert(((value as u64) as i64) == value) by (bit_vector);
    }
}

impl<'a> Value<'a> for i128 {
    open spec fn width() -> Option<nat> {
        Some(16nat)
    }

    open spec fn encodable(value: i128) -> bool {
        true
    }

    open spec fn encoding(value: i128) -> Seq<u8> {
        spec_u128_to_le_bytes(value as u128)
    }

    open spec fn decodes(data: Seq<u8>) -> bool {
        data.len() == 16
    }

    open spec fn decodes_to(data: Seq<u8>, value: i128) -> bool {
        value == spec_u128_from_le_bytes(data) as i128
    }

    open spec fn spec_type_name() -> Seq<char> {
        "i128"@
    }

    fn fixed_width() -> (w: Option<usize>) {
        Some(16)
    }

    fn from_bytes(data: &'a [u8]) -> (v: i128) {
        u128_from_le_bytes(data) as i128
    }

    fn as_bytes(value: &i128) -> (b: Vec<u8>) {
        u128_to_le_bytes(*value as u128)
    }

    fn value_type_name() -> (t: TypeName) {
        TypeName::internal("i128")
    }

    proof fn lemma_roundtrip(value: i128) {
        lemma_auto_spec_u128_to_from_le_bytes();
        assert(((value as u128) as i128) == value) by (bit_vector);
    }
}

impl<'a, T: Value<'a>> Value<'a> for Option<T> {
    /// One byte more than the inner type (a width past `usize::MAX` counts as
    /// variable).
    open spec fn width() -> Option<nat> {
        match T::width() {
            Some(n) => if n + 1 <= usize::MAX {
                Some(n + 1)
            } else {
                None
            },
            None => None,
        }
    }

    open spec fn encodable(value: Option<T>) -> bool {
        match value {
            Some(x) => T::encodable(x),
            None => true,
        }
    }

    open spec fn encoding(value: Option<T>) -> Seq<u8> {
        match value {
            Some(x) => seq![1u8] + T::encoding(x),
            None => seq![0u8] + match T::width() {
                Some(n) => Seq::new(n, |i: int| 0u8),
                None => Seq::empty(),
            },
        }
    }

    open spec fn decodes(data: Seq<u8>) -> bool {
        data.len() >= 1 && (data[0] == 0 || T::decodes(data.subrange(1, data.len() as int)))
    }

    open spec fn decodes_to(data: Seq<u8>, value: Option<T>) -> bool {
        if data[0] == 0 {
            value is None
        } else {
            value matches Some(x) && T::decodes_to(data.subrange(1, data.len() as int), x)
        }
    }

    open spec fn spec_type_name() -> Seq<char> {
        "Option<"@ + T::spec_type_name() + ">"@
    }

    fn fixed_width() -> (w: Option<usize>) {
        match T::fixed_width() {
            Some(n) => if n < usize::MAX {
                Some(n + 1)
            } else {
                None
            },
            None => None,
        }
    }

    fn from_bytes(data: &'a [u8]) -> (v: Option<T>) {
        if data[0] == 0 {
            None
        } else {
            Some(T::from_bytes(slice_subrange(data, 1, data.len())))
        }
    }

    fn as_bytes(value: &Option<T>) -> (b: Vec<u8>) {
        let mut result: Vec<u8> = Vec::new();
        match value {
            Some(x) => {
                result.push(1);
                let inner = T::as_bytes(x);
                let mut i: usize = 0;
                while i < inner.len()
                    invariant
                        i <= inner@.len(),
                        result@ == seq![1u8] + inner@.subrange(0, i as int),
                    decreases inner@.len() - i,
                {
                    result.push(inner[i]);
                    i = i + 1;
                    assert(result@ =~= seq![1u8] + inner@.subrange(0, i as int));
                }
                assert(inner@.subrange(0, i as int) =~= inner@);
            },
            None => {
                result.push(0);
                match T::fixed_width() {
                    Some(n) => {
                        let mut i: usize = 0;
                        while i < n
                            invariant
                                i <= n,
                                result@ == seq![0u8] + Seq::new(i as nat, |k: int| 0u8),
                            decreases n - i,
                        {
                            result.push(0);
                            i = i + 1;
                            assert(result@ =~= seq![0u8] + Seq::new(i as nat, |k: int| 0u8));
                        }
                    },
                    None => {
                        assert(result@ =~= seq![0u8] + Seq::<u8>::empty());
                    },
                }
            },
        }
        result
    }

    fn value_type_name() -> (t: TypeName) {
        let inner = T::value_type_name();
        let mut name = String::from_str("Option<");
        name.append(inner.name());
        name.append(">");
        TypeName::internal(name.as_str())
    }

    proof fn lemma_roundtrip(value: Option<T>) {
        match value {
            Some(x) => {
                T::lemma_roundtrip(x);
                let e = Self::encoding(value);
                assert(e.subrange(1, e.len() as int) =~= T::encoding(x));
            },
            None => {},
        }
    }
}

impl<'a> Value<'a> for &'a str {
    open spec fn width() -> Option<nat> {
        None
    }

    open spec fn encodable(value: &'a str) -> bool {
        true
    }

    /// The UTF-8 bytes of the string.
    open spec fn encoding(value: &'a str) -> Seq<u8> {
        encode_utf8(value@)
    }

    open spec fn decodes(data: Seq<u8>) -> bool {
        valid_utf8(data)
    }

    open spec fn decodes_to(data: Seq<u8>, value: &'a str) -> bool {
        value@ == decode_utf8(data)
    }

    open spec fn spec_type_name() -> Seq<char> {
        "&str"@
    }

    fn fixed_width() -> (w: Option<usize>) {
        None
    }

    fn from_bytes(data: &'a [u8]) -> (v: &'a str) {
        match str_from_utf8(data) {
            Some(s) => s,
            None => {
                assert(false);
                ""
            },
        }
    }

    fn as_bytes(value: &&'a str) -> (b: Vec<u8>) {
        let mut b: Vec<u8> = Vec::new();
        append_bytes(&mut b, value.as_bytes());
        assert(b@ =~= encode_utf8(value@));
        b
    }

    fn value_type_name() -> (t: TypeName) {
        TypeName::internal("&str")
    }

    proof fn lemma_roundtrip(value: &'a str) {
        broadcast use vstd::utf8::group_utf8_lib;

    }
}

impl<'a> Value<'a> for String {
    open spec fn width() -> Option<nat> {
        None
    }

    open spec fn encodable(value: String) -> bool {
        true
    }

    /// The UTF-8 bytes of the string.
    open spec fn encoding(value: String) -> Seq<u8> {
        encode_utf8(value@)
    }

    open spec fn decodes(data: Seq<u8>) -> bool {
        valid_utf8(data)
    }

    open spec fn decodes_to(data: Seq<u8>, value: String) -> bool {
        value@ == decode_utf8(data)
    }

    open spec fn spec_type_name() -> Seq<char> {
        "String"@
    }

    fn fixed_width() -> (w: Option<usize>) {
        None
    }

    fn from_bytes(data: &'a [u8]) -> (v: String) {
        match string_from_utf8(data) {
            Ok(s) => s,
            Err(_) => {
                assert(false);
                String::new()
            },
        }
    }

    fn as_bytes(value: &String) -> (b: Vec<u8>) {
        let mut b: Vec<u8> = Vec::new();
        append_bytes(&mut b, value.as_str().as_bytes());
        assert(b@ =~= encode_utf8(value@));
        b
    }

    fn value_type_name() -> (t: TypeName) {
        TypeName::internal("String")
    }

    proof fn lemma_roundtrip(value: String) {
        broadcast use vstd::utf8::group_utf8_lib;

    }
}

impl<'a> Value<'a> for &'a [u8] {
    open spec fn width() -> Option<nat> {
        None
    }

    open spec fn encodable(value: &'a [u8]) -> bool {
        true
    }

    /// The bytes themselves.
    open spec fn encoding(value: &'a [u8]) -> Seq<u8> {
        value@
    }

    open spec fn decodes(data: Seq<u8>) -> bool {
        true
    }

    open spec fn decodes_to(data: Seq<u8>, value: &'a [u8]) -> bool {
        value@ == data
    }

    open spec fn spec_type_name() -> Seq<char> {
        "&[u8]"@
    }

    fn fixed_width() -> (w: Option<usize>) {
        None
    }

    fn from_bytes(data: &'a [u8]) -> (v: &'a [u8]) {
        data
    }

    fn as_bytes(value: &&'a [u8]) -> (b: Vec<u8>) {
        let mut b: Vec<u8> = Vec::new();
        append_bytes(&mut b, *value);
        assert(b@ =~= value@);
        b
    }

    fn value_type_name() -> (t: TypeName) {
        TypeName::internal("&[u8]")
    }

    proof fn lemma_roundtrip(value: &'a [u8]) {
    }
}

/// The length prefix of the value formats: one byte for a length below 254; else
/// the byte 254 and the length as a little-endian `u16`; else the byte 255 and the
/// length as a little-endian `u32`.
pub open spec fn varint(n: nat) -> Seq<u8> {
    if n < 254 {
        seq![n as u8]
    } else if n <= u16::MAX {
        seq![254u8] + le16(n as u16)
    } else {
        seq![255u8] + le32(n as u32)
    }
}

/// The length that the prefix at `off` records and the number of bytes the prefix
/// takes, or `None` when the data ends inside it.
pub open spec fn varint_at(d: Seq<u8>, off: int) -> Option<(nat, nat)> {
    if off < 0 || off >= d.len() {
        None
    } else if d[off] < 254 {
        Some((d[off] as nat, 1nat))
    } else if d[off] == 254 {
        if off + 3 <= d.len() {
            Some((from_le16(d.subrange(off + 1, off + 3)) as nat, 3nat))
        } else {
            None
        }
    } else if off + 5 <= d.len() {
        Some((from_le32(d.subrange(off + 1, off + 5)) as nat, 5nat))
    } else {
        None
    }
}

/// A prefix written for `n` is read back as `n`.
pub proof fn lemma_varint(d: Seq<u8>, off: int, n: nat)
    requires
        n <= u32::MAX,
        0 <= off,
        off + varint(n).len() <= d.len(),
        d.subrange(off, off + varint(n).len()) == varint(n),
    ensures
        varint_at(d, off) == Some((n, varint(n).len())),
{
    lemma_le_roundtrip();
    let v = varint(n);
    assert(d[off] == v[0]);
    if n < 254 {
    } else if n <= u16::MAX {
        assert(d.subrange(off + 1, off + 3) =~= le16(n as u16)) by {
            assert forall|k: int| 0 <= k < 2 implies #[trigger] d.subrange(off + 1, off + 3)[k] == le16(n as u16)[k] by {
                assert(d[off + 1 + k] == v[1 + k]);
            }
        }
    } else {
        assert(d.subrange(off + 1, off + 5) =~= le32(n as u32)) by {
            assert forall|k: int| 0 <= k < 4 implies #[trigger] d.subrange(off + 1, off + 5)[k] == le32(n as u32)[k] by {
                assert(d[off + 1 + k] == v[1 + k]);
            }
        }
    }
}

/// Appends the length prefix for `n`.
pub(crate) fn push_varint(buf: &mut Vec<u8>, n: usize)
    requires
        n <= u32::MAX,
    ensures
        final(buf)@ == old(buf)@ + varint(n as nat),
{
    if n < 254 {
        buf.push(n as u8);
        assert(buf@ =~= old(buf)@ + varint(n as nat));
    } else if n <= 65535 {
        buf.push(254u8);
        push_u16(buf, n as u16);
        assert(buf@ =~= old(buf)@ + varint(n as nat));
    } else {
        buf.push(255u8);
        push_u32(buf, n as u32);
        assert(buf@ =~= old(buf)@ + varint(n as nat));
    }
}

/// Reads the length prefix at `off`: the length and the bytes the prefix takes.
pub(crate) fn read_varint(data: &[u8], off: usize) -> (r: (usize, usize))
    requires
        varint_at(data@, off as int) is Some,
    ensures
        varint_at(data@, off as int) == Some((r.0 as nat, r.1 as nat)),
{
    let b = data[off];
    if b < 254 {
        (b as usize, 1)
    } else if b == 254 {
        (read_u16(data, off + 1) as usize, 3)
    } else {
        (read_u32(data, off + 1) as usize, 5)
    }
}

/// The bytes of one element inside a vector: its encoding, after its length
/// unless its type has a fixed width.
pub open spec fn element_bytes<'a, T: Value<'a>>(x: T) -> Seq<u8> {
    if T::width() is Some {
        T::encoding(x)
    } else {
        varint(T::encoding(x).len()) + T::encoding(x)
    }
}

/// The bytes of a sequence of elements, one after the other.
pub open spec fn elements_bytes<'a, T: Value<'a>>(xs: Seq<T>) -> Seq<u8>
    decreases xs.len(),
{
    if xs.len() == 0 {
        Seq::empty()
    } else {
        element_bytes::<'a, T>(xs[0]) + elements_bytes::<'a, T>(xs.drop_first())
    }
}

/// The bytes of the element at `off` and where the next one starts: `w` bytes for
/// a fixed width `w`, else as many as the length prefix records; `None` when the
/// data ends first.
pub open spec fn element_at(d: Seq<u8>, off: int, w: Option<nat>) -> Option<(Seq<u8>, int)> {
    match w {
        Some(n) => if 0 <= off && off + n <= d.len() {
            Some((d.subrange(off, off + n), off + n))
        } else {
            None
        },
        None => match varint_at(d, off) {
            Some((l, h)) => if off + h + l <= d.len() {
                Some((d.subrange(off + h, off + h + l), off + h + l))
            } else {
                None
            },
            None => None,
        },
    }
}

/// The bytes of `count` elements from `off` on, or `None` when the data ends
/// first.
pub open spec fn element_chunks(d: Seq<u8>, off: int, count: nat, w: Option<nat>) -> Option<Seq<Seq<u8>>>
    decreases count,
{
    if count == 0 {
        Some(Seq::empty())
    } else {
        match element_at(d, off, w) {
            Some((c, next)) => match element_chunks(d, next, (count - 1) as nat, w) {
                Some(rest) => Some(seq![c] + rest),
                None => None,
            },
            None => None,
        }
    }
}

/// Reading `count` elements gives `count` chunks.
proof fn lemma_chunks_len(d: Seq<u8>, off: int, count: nat, w: Option<nat>)
    requires
        element_chunks(d, off, count, w) is Some,
    ensures
        element_chunks(d, off, count, w)->0.len() == count,
    decreases count,
{
    if count > 0 {
        let (chunk, next) = element_at(d, off, w)->0;
        lemma_chunks_len(d, next, (count - 1) as nat, w);
    }
}

/// The bytes of the elements of an encoded vector: its length prefix, then that
/// many elements.
pub open spec fn vec_chunks(d: Seq<u8>, w: Option<nat>) -> Option<Seq<Seq<u8>>> {
    match varint_at(d, 0) {
        Some((n, h)) => element_chunks(d, h as int, n, w),
        None => None,
    }
}

/// Whether each element can be encoded inside a vector.
pub open spec fn elements_encodable<'a, T: Value<'a>>(xs: Seq<T>) -> bool {
    forall|i: int|
        0 <= i < xs.len() ==> T::encodable(#[trigger] xs[i]) && T::encoding(xs[i]).len() <= u32::MAX
}

/// Appending an element appends its bytes.
proof fn lemma_elements_push<'a, T: Value<'a>>(xs: Seq<T>, x: T)
    ensures
        elements_bytes::<'a, T>(xs.push(x)) == elements_bytes::<'a, T>(xs) + element_bytes::<'a, T>(x),
    decreases xs.len(),
{
    if xs.len() == 0 {
        assert(xs.push(x).drop_first() =~= Seq::<T>::empty());
        assert(elements_bytes::<'a, T>(Seq::<T>::empty()) == Seq::<u8>::empty());
        assert(element_bytes::<'a, T>(x) + Seq::<u8>::empty() =~= element_bytes::<'a, T>(x));
    } else {
        assert(xs.push(x).drop_first() =~= xs.drop_first().push(x));
        lemma_elements_push::<'a, T>(xs.drop_first(), x);
        assert(xs.push(x)[0] == xs[0]);
        assert(elements_bytes::<'a, T>(xs.push(x)) =~= elements_bytes::<'a, T>(xs) + element_bytes::<'a, T>(x));
    }
}

/// The elements' bytes, written one after the other, are read back element by
/// element.
proof fn lemma_chunks<'a, T: Value<'a>>(d: Seq<u8>, off: int, xs: Seq<T>)
    requires
        0 <= off,
        off + elements_bytes::<'a, T>(xs).len() <= d.len(),
        d.subrange(off, off + elements_bytes::<'a, T>(xs).len()) == elements_bytes::<'a, T>(xs),
        elements_encodable::<'a, T>(xs),
    ensures
        element_chunks(d, off, xs.len(), T::width()) == Some(
            Seq::new(xs.len(), |i: int| T::encoding(xs[i])),
        ),
    decreases xs.len(),
{
    let target = Seq::new(xs.len(), |i: int| T::encoding(xs[i]));
    if xs.len() == 0 {
        assert(target =~= Seq::<Seq<u8>>::empty());
    } else {
        let x = xs[0];
        let rest = xs.drop_first();
        let e = T::encoding(x);
        let eb = element_bytes::<'a, T>(x);
        let all = elements_bytes::<'a, T>(xs);
        assert(all == eb + elements_bytes::<'a, T>(rest));
        assert(T::encodable(x));
        T::lemma_roundtrip(x);
        let next = off + eb.len();
        assert(d.subrange(off, next) =~= eb) by {
            assert forall|k: int| 0 <= k < eb.len() implies d.subrange(off, next)[k] == eb[k] by {
                assert(d.subrange(off, off + all.len())[k] == all[k]);
            }
        }
        match T::width() {
            Some(n) => {
                assert(element_at(d, off, T::width()) == Some((e, next)));
            },
            None => {
                let v = varint(e.len());
                assert(d.subrange(off, off + v.len()) =~= v) by {
                    assert forall|k: int| 0 <= k < v.len() implies d.subrange(off, off + v.len())[k] == v[k] by {
                        assert(d.subrange(off, next)[k] == eb[k]);
                    }
                }
                lemma_varint(d, off, e.len());
                assert(d.subrange(off + v.len(), next) =~= e) by {
                    assert forall|k: int| 0 <= k < e.len() implies d.subrange(off + v.len(), next)[k] == e[k] by {
                        assert(d.subrange(off, next)[v.len() + k] == eb[v.len() + k]);
                    }
                }
                assert(element_at(d, off, T::width()) == Some((e, next)));
            },
        }
        let rb = elements_bytes::<'a, T>(rest);
        assert(d.subrange(next, next + rb.len()) =~= rb) by {
            assert forall|k: int| 0 <= k < rb.len() implies d.subrange(next, next + rb.len())[k] == rb[k] by {
                assert(d.subrange(off, off + all.len())[eb.len() + k] == all[eb.len() + k]);
            }
        }
        assert(elements_encodable::<'a, T>(rest)) by {
            assert forall|i: int| 0 <= i < rest.len() implies T::encodable(#[trigger] rest[i])
                && T::encoding(rest[i]).len() <= u32::MAX by {
                assert(rest[i] == xs[i + 1]);
            }
        }
        lemma_chunks::<'a, T>(d, next, rest);
        let rt = Seq::new(rest.len(), |i: int| T::encoding(rest[i]));
        assert(seq![e] + rt =~= target);
    }
}

impl<'a, T: Value<'a>> Value<'a> for Vec<T> {
    open spec fn width() -> Option<nat> {
        None
    }

    /// The element count and each element's length fit in a `u32`, and each
    /// element can be encoded.
    open spec fn encodable(value: Vec<T>) -> bool {
        value@.len() <= u32::MAX && elements_encodable::<'a, T>(value@)
    }

    /// The element count, then each element (after its length, unless the element
    /// type has a fixed width).
    open spec fn encoding(value: Vec<T>) -> Seq<u8> {
        varint(value@.len()) + elements_bytes::<'a, T>(value@)
    }

    open spec fn decodes(data: Seq<u8>) -> bool {
        vec_chunks(data, T::width()) matches Some(cs) && forall|i: int| 0 <= i < cs.len() ==> T::decodes(#[trigger] cs[i])
    }

    open spec fn decodes_to(data: Seq<u8>, value: Vec<T>) -> bool {
        vec_chunks(data, T::width()) matches Some(cs) && value@.len() == cs.len() && forall|i: int|
            0 <= i < cs.len() ==> T::decodes_to(#[trigger] cs[i], value@[i])
    }

    open spec fn spec_type_name() -> Seq<char> {
        "Vec<"@ + T::spec_type_name() + ">"@
    }

    fn fixed_width() -> (w: Option<usize>) {
        None
    }

    fn from_bytes(data: &'a [u8]) -> (v: Vec<T>) {
        let ghost cs = vec_chunks(data@, T::width())->0;
        let (n, h) = read_varint(data, 0);
        proof {
            lemma_chunks_len(data@, h as int, n as nat, T::width());
        }
        let dlen = data.len();
        let w = T::fixed_width();
        let mut result: Vec<T> = Vec::new();
        let mut off: usize = h;
        let mut i: usize = 0;
        assert(cs.subrange(0, n as int) =~= cs);
        while i < n
            invariant
                vec_chunks(data@, T::width()) == Some(cs),
                dlen == data@.len(),
                forall|k: int| 0 <= k < cs.len() ==> T::decodes(#[trigger] cs[k]),
                cs.len() == n,
                i <= n,
                element_chunks(data@, off as int, (n - i) as nat, T::width()) == Some(cs.subrange(i as int, n as int)),
                result@.len() == i,
                forall|k: int| 0 <= k < i ==> T::decodes_to(#[trigger] cs[k], result@[k]),
                match w {
                    Some(m) => T::width() == Some(m as nat),
                    None => T::width() is None,
                },
            decreases n - i,
        {
            let ghost rest = cs.subrange(i as int, n as int);
            let ghost step = element_at(data@, off as int, T::width());
            assert(step is Some);
            let (start, len) = match w {
                Some(m) => (off, m),
                None => {
                    let (l, hh) = read_varint(data, off);
                    (off + hh, l)
                },
            };
            assert(step == Some((data@.subrange(start as int, start + len), start + len)));
            assert(rest[0] == cs[i as int]);
            let chunk = slice_subrange(data, start, start + len);
            let x = T::from_bytes(chunk);
            result.push(x);
            off = start + len;
            assert(cs.subrange(i + 1, n as int) =~= rest.drop_first());
            i = i + 1;
        }
        result
    }

    fn as_bytes(value: &Vec<T>) -> (b: Vec<u8>) {
        let mut b: Vec<u8> = Vec::new();
        push_varint(&mut b, value.len());
        let ghost head = b@;
        let fixed = T::fixed_width().is_some();
        let mut i: usize = 0;
        assert(value@.subrange(0, 0) =~= Seq::<T>::empty());
        while i < value.len()
            invariant
                Self::encodable(*value),
                fixed == (T::width() is Some),
                i <= value@.len(),
                b@ == head + elements_bytes::<'a, T>(value@.subrange(0, i as int)),
            decreases value@.len() - i,
        {
            let x = &value[i];
            assert(T::encodable(value@[i as int]) && T::encoding(value@[i as int]).len() <= u32::MAX);
            let e = T::as_bytes(x);
            if !fixed {
                push_varint(&mut b, e.len());
            }
            append_bytes(&mut b, e.as_slice());
            proof {
                lemma_elements_push::<'a, T>(value@.subrange(0, i as int), value@[i as int]);
                assert(value@.subrange(0, i as int).push(value@[i as int]) =~= value@.subrange(0, i + 1));
            }
            i = i + 1;
        }
        assert(value@.subrange(0, i as int) =~= value@);
        b
    }

    fn value_type_name() -> (t: TypeName) {
        let inner = T::value_type_name();
        let mut name = String::from_str("Vec<");
        name.append(inner.name());
        name.append(">");
        TypeName::internal(name.as_str())
    }

    proof fn lemma_roundtrip(value: Vec<T>) {
        let xs = value@;
        let d = Self::encoding(value);
        let v = varint(xs.len());
        let eb = elements_bytes::<'a, T>(xs);
        assert(d.subrange(0, v.len() as int) =~= v);
        lemma_varint(d, 0, xs.len());
        assert(d.subrange(v.len() as int, (v.len() + eb.len()) as int) =~= eb);
        lemma_chunks::<'a, T>(d, v.len() as int, xs);
        let cs = Seq::new(xs.len(), |i: int| T::encoding(xs[i]));
        assert(vec_chunks(d, T::width()) == Some(cs));
        assert forall|i: int| 0 <= i < cs.len() implies T::decodes(#[trigger] cs[i]) && T::decodes_to(cs[i], xs[i]) by {
            assert(T::encodable(xs[i]));
            T::lemma_roundtrip(xs[i]);
        }
    }
}

} // verus!
