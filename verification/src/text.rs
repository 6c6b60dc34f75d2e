//! Rendering of integers and of invalid UTF-8 inputs in error messages, and the
//! conversions of bytes to strings.

use vstd::prelude::*;

verus! {

/// The ASCII digit character for `d < 10`.
pub open spec fn digit_char(d: nat) -> char {
    ((d + 48) as u32) as char
}

/// The decimal representation of `n`, most significant digit first, without
/// leading zeros.
pub open spec fn decimal(n: nat) -> Seq<char>
    decreases n,
{
    if n < 10 {
        seq![digit_char(n)]
    } else {
        decimal(n / 10).push(digit_char(n % 10))
    }
}

/// The lowercase hexadecimal digit character for `d < 16`.
pub open spec fn hex_digit_char(d: nat) -> char {
    if d < 10 {
        ((d + 48) as u32) as char
    } else {
        ((d + 87) as u32) as char
    }
}

/// The lowercase hexadecimal digits of `n`, most significant first, without
/// leading zeros.
pub open spec fn hex_digits(n: nat) -> Seq<char>
    decreases n,
{
    if n < 16 {
        seq![hex_digit_char(n)]
    } else {
        hex_digits(n / 16).push(hex_digit_char(n % 16))
    }
}

/// `n` in the alternate lowercase hexadecimal form: `0x` and the digits.
pub open spec fn alt_hex(n: nat) -> Seq<char> {
    seq!['0', 'x'] + hex_digits(n)
}

/// The digit `d < 16` as a one-character string (lowercase for ten and above).
fn digit_str(d: u64) -> (t: &'static str)
    requires
        d < 16,
    ensures
        t@ == seq![hex_digit_char(d as nat)],
        d < 10 ==> t@ == seq![digit_char(d as nat)],
{
    match d {
        0 => {
            proof { reveal_strlit("0"); }
            "0"
        },
        1 => {
            proof { reveal_strlit("1"); }
            "1"
        },
        2 => {
            proof { reveal_strlit("2"); }
            "2"
        },
        3 => {
            proof { reveal_strlit("3"); }
            "3"
        },
        4 => {
            proof { reveal_strlit("4"); }
            "4"
        },
        5 => {
            proof { reveal_strlit("5"); }
            "5"
        },
        6 => {
            proof { reveal_strlit("6"); }
            "6"
        },
        7 => {
            proof { reveal_strlit("7"); }
            "7"
        },
        8 => {
            proof { reveal_strlit("8"); }
            "8"
        },
        9 => {
            proof { reveal_strlit("9"); }
            "9"
        },
        10 => {
            proof { reveal_strlit("a"); }
            "a"
        },
        11 => {
            proof { reveal_strlit("b"); }
            "b"
        },
        12 => {
            proof { reveal_strlit("c"); }
            "c"
        },
        13 => {
            proof { reveal_strlit("d"); }
            "d"
        },
        14 => {
            proof { reveal_strlit("e"); }
            "e"
        },
        _ => {
            proof { reveal_strlit("f"); }
            "f"
        },
    }
}

/// Appends `n` in decimal to `s`.
pub fn push_decimal(s: &mut String, n: u64)
    ensures
        final(s)@ == old(s)@ + decimal(n as nat),
    decreases n,
{
    if n >= 10 {
        push_decimal(s, n / 10);
    }
    s.append(digit_str(n % 10));
    assert(s@ =~= old(s)@ + decimal(n as nat));
}

/// Appends the lowercase hexadecimal digits of `n` to `s`.
fn push_hex_digits(s: &mut String, n: u64)
    ensures
        final(s)@ == old(s)@ + hex_digits(n as nat),
    decreases n,
{
    if n >= 16 {
        push_hex_digits(s, n / 16);
    }
    s.append(digit_str(n % 16));
    assert(s@ =~= old(s)@ + hex_digits(n as nat));
}

/// Appends `n` in alternate lowercase hexadecimal (`0x` and the digits) to `s`.
pub fn push_alt_hex(s: &mut String, n: u32)
    ensures
        final(s)@ == old(s)@ + alt_hex(n as nat),
{
    proof { reveal_strlit("0x"); }
    s.append("0x");
    push_hex_digits(s, n as u64);
    assert(s@ =~= old(s)@ + alt_hex(n as nat));
}

/// Where `String::from_utf8` found bytes not to be valid UTF-8: the length of the
/// longest valid prefix (`valid_up_to`) and the length of the invalid sequence
/// that follows it, or `None` when the bytes end inside a sequence (`error_len`).
pub uninterp spec fn utf8_failure(bytes: Seq<u8>) -> (usize, Option<usize>);

/// Builds a `String` from bytes with `String::from_utf8`; on invalid UTF-8, gives
/// the error's `valid_up_to` and `error_len`.
///
/// Trusted: std documents that `String::from_utf8` fails exactly when the bytes
/// are not valid UTF-8, and otherwise returns the string those bytes encode
/// (`vstd::utf8::valid_utf8` and `decode_utf8` are taken to model that check and
/// that decoding). Of the error, std documents that `valid_up_to` is the largest
/// index up to which the bytes are valid UTF-8; that `error_len` is `None` when the
/// input ends one to three bytes after it, and otherwise the length of the invalid
/// sequence starting there. Which length that is, is only named here.
#[verifier::external_body]
pub(crate) fn string_from_utf8(bytes: &[u8]) -> (r: Result<String, (usize, Option<usize>)>)
    ensures
        match r {
            Ok(s) => vstd::utf8::valid_utf8(bytes@) && s@ == vstd::utf8::decode_utf8(bytes@),
            Err(f) => {
                &&& !vstd::utf8::valid_utf8(bytes@)
                &&& f == utf8_failure(bytes@)
                &&& f.0 < bytes@.len()
                &&& vstd::utf8::valid_utf8(bytes@.subrange(0, f.0 as int))
                &&& forall|k: int| f.0 < k <= bytes@.len() ==> !vstd::utf8::valid_utf8(#[trigger] bytes@.subrange(0, k))
                &&& f.1 matches Some(n) ==> 1 <= n && f.0 + n <= bytes@.len()
                &&& f.1 is None ==> 1 <= bytes@.len() - f.0 <= 3
            },
        },
{
    match String::from_utf8(bytes.to_vec()) {
        Ok(s) => Ok(s),
        Err(e) => Err((e.utf8_error().valid_up_to(), e.utf8_error().error_len())),
    }
}

/// How an invalid UTF-8 input is described in messages: the length of the invalid
/// sequence and where it starts, or where the input ends inside a sequence.
pub open spec fn utf8_failure_text(valid_up_to: usize, error_len: Option<usize>) -> Seq<char> {
    match error_len {
        Some(n) => "invalid utf-8 sequence of "@ + decimal(n as nat) + " bytes from index "@ + decimal(
            valid_up_to as nat,
        ),
        None => "incomplete utf-8 byte sequence from index "@ + decimal(valid_up_to as nat),
    }
}

/// Appends the description of an invalid UTF-8 input to `s`.
pub fn push_utf8_failure(s: &mut String, valid_up_to: usize, error_len: Option<usize>)
    ensures
        final(s)@ == old(s)@ + utf8_failure_text(valid_up_to, error_len),
{
    proof {
        reveal_strlit("invalid utf-8 sequence of ");
        reveal_strlit(" bytes from index ");
        reveal_strlit("incomplete utf-8 byte sequence from index ");
    }
    match error_len {
        Some(n) => {
            s.append("invalid utf-8 sequence of ");
            push_decimal(s, n as u64);
            s.append(" bytes from index ");
            push_decimal(s, valid_up_to as u64);
            assert(final(s)@ =~= old(s)@ + utf8_failure_text(valid_up_to, error_len));
        },
        None => {
            s.append("incomplete utf-8 byte sequence from index ");
            push_decimal(s, valid_up_to as u64);
            assert(final(s)@ =~= old(s)@ + utf8_failure_text(valid_up_to, error_len));
        },
    }
}

/// Views bytes as a string slice with `std::str::from_utf8`, giving `None` when
/// the bytes are not valid UTF-8.
///
/// Trusted: std documents that `str::from_utf8` fails exactly when the bytes are
/// not valid UTF-8, and otherwise returns the string slice those bytes encode;
/// `vstd::utf8::valid_utf8` and `decode_utf8` are taken to model that check and
/// that decoding.
#[verifier::external_body]
pub(crate) fn str_from_utf8<'a>(bytes: &'a [u8]) -> (r: Option<&'a str>)
    ensures
        match r {
            Some(s) => vstd::utf8::valid_utf8(bytes@) && s@ == vstd::utf8::decode_utf8(bytes@),
            None => !vstd::utf8::valid_utf8(bytes@),
        },
{
    std::str::from_utf8(bytes).ok()
}

} // verus!
