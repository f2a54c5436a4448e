use vstd::prelude::*;

verus! {

/// Why a hex string failed to decode.
#[derive(Debug, Clone, Copy, PartialEq, Eq, Structural)]
pub enum HexError {
    /// The string holds an odd number of characters.
    OddLength,
    /// Some character is not a hexadecimal digit.
    InvalidDigit,
}

/// The character is a hexadecimal digit (either case).
pub open spec fn is_hex_digit(c: char) -> bool {
    ('0' <= c && c <= '9') || ('a' <= c && c <= 'f') || ('A' <= c && c <= 'F')
}

/// The numeric value of a hexadecimal digit.
pub open spec fn hex_val(c: char) -> int {
    match c {
        '0' => 0,
        '1' => 1,
        '2' => 2,
        '3' => 3,
        '4' => 4,
        '5' => 5,
        '6' => 6,
        '7' => 7,
        '8' => 8,
        '9' => 9,
        'a' | 'A' => 10,
        'b' | 'B' => 11,
        'c' | 'C' => 12,
        'd' | 'D' => 13,
        'e' | 'E' => 14,
        'f' | 'F' => 15,
        _ => 0,
    }
}

/// The lowercase hexadecimal digit for a value below sixteen.
pub open spec fn hex_digit_char(n: int) -> char {
    if n == 0 {
        '0'
    } else if n == 1 {
        '1'
    } else if n == 2 {
        '2'
    } else if n == 3 {
        '3'
    } else if n == 4 {
        '4'
    } else if n == 5 {
        '5'
    } else if n == 6 {
        '6'
    } else if n == 7 {
        '7'
    } else if n == 8 {
        '8'
    } else if n == 9 {
        '9'
    } else if n == 10 {
        'a'
    } else if n == 11 {
        'b'
    } else if n == 12 {
        'c'
    } else if n == 13 {
        'd'
    } else if n == 14 {
        'e'
    } else {
        'f'
    }
}

/// The lowercase hexadecimal rendering of a byte sequence: two digits per
/// byte, high nibble first.
pub open spec fn hex_of(bytes: Seq<u8>) -> Seq<char> {
    Seq::new(
        2 * bytes.len(),
        |i: int|
            if i % 2 == 0 {
                hex_digit_char((bytes[i / 2] as int) / 16)
            } else {
                hex_digit_char((bytes[i / 2] as int) % 16)
            },
    )
}

/// Every character of the sequence is a hexadecimal digit.
pub open spec fn all_hex_digits(s: Seq<char>) -> bool {
    forall|i: int| 0 <= i < s.len() ==> is_hex_digit(#[trigger] s[i])
}

/// The bytes encoded by an (even-length, all-digit) hex string.
pub open spec fn hex_bytes(s: Seq<char>) -> Seq<u8> {
    Seq::new(s.len() / 2, |i: int| (16 * hex_val(s[2 * i]) + hex_val(s[2 * i + 1])) as u8)
}

/// What decoding a hex string yields: the bytes, or the first applicable
/// error (odd length is reported before an invalid digit).
pub open spec fn hex_decode_spec(s: Seq<char>) -> Result<Seq<u8>, HexError> {
    if s.len() % 2 != 0 {
        Err(HexError::OddLength)
    } else if !all_hex_digits(s) {
        Err(HexError::InvalidDigit)
    } else {
        Ok(hex_bytes(s))
    }
}

/// Relies on hex::decode: an even-length string of hexadecimal digits (either
/// case) decodes pairwise into bytes; an odd byte length yields
/// `FromHexError::OddLength`, and otherwise a non-digit yields
/// `FromHexError::InvalidHexCharacter`. For an ASCII string the UTF-8 bytes
/// that hex::decode examines are exactly the characters of the view.
#[verifier::external_body]
fn hex_decode_via_crate(s: &str) -> (r: Result<Vec<u8>, HexError>)
    requires
        s.is_ascii(),
    ensures
        (match r {
            Ok(v) => hex_decode_spec(s@) == Ok::<Seq<u8>, HexError>(v@),
            Err(e) => hex_decode_spec(s@) == Err::<Seq<u8>, HexError>(e),
        }),
{
    match hex::decode(s) {
        Ok(v) => Ok(v),
        Err(hex::FromHexError::OddLength) => Err(HexError::OddLength),
        Err(hex::FromHexError::InvalidHexCharacter { .. }) => Err(HexError::InvalidDigit),
        Err(hex::FromHexError::InvalidStringLength) => Err(HexError::InvalidDigit),
    }
}

/// A single lowercase hexadecimal digit as a string slice.
fn hex_char_str(n: u8) -> (r: &'static str)
    requires
        n < 16,
    ensures
        r@ == seq![hex_digit_char(n as int)],
{
    let r: &'static str = if n == 0 {
        "0"
    } else if n == 1 {
        "1"
    } else if n == 2 {
        "2"
    } else if n == 3 {
        "3"
    } else if n == 4 {
        "4"
    } else if n == 5 {
        "5"
    } else if n == 6 {
        "6"
    } else if n == 7 {
        "7"
    } else if n == 8 {
        "8"
    } else if n == 9 {
        "9"
    } else if n == 10 {
        "a"
    } else if n == 11 {
        "b"
    } else if n == 12 {
        "c"
    } else if n == 13 {
        "d"
    } else if n == 14 {
        "e"
    } else {
        "f"
    };
    proof {
        reveal_strlit("0");
        reveal_strlit("1");
        reveal_strlit("2");
        reveal_strlit("3");
        reveal_strlit("4");
        reveal_strlit("5");
        reveal_strlit("6");
        reveal_strlit("7");
        reveal_strlit("8");
        reveal_strlit("9");
        reveal_strlit("a");
        reveal_strlit("b");
        reveal_strlit("c");
        reveal_strlit("d");
        reveal_strlit("e");
        reveal_strlit("f");
        assert(r@ =~= seq![hex_digit_char(n as int)]);
    }
    r
}

/// The hexadecimal rendering of a byte sequence is valid hex and decodes
/// back to exactly that sequence.
pub proof fn lemma_hex_round_trip(bytes: Seq<u8>)
    ensures
        hex_of(bytes).len() == 2 * bytes.len(),
        all_hex_digits(hex_of(bytes)),
        hex_decode_spec(hex_of(bytes)) == Ok::<Seq<u8>, HexError>(bytes),
{
    let s = hex_of(bytes);
    assert forall|i: int| 0 <= i < s.len() implies is_hex_digit(#[trigger] s[i]) by {
        let b = bytes[i / 2] as int;
        assert(0 <= b / 16 < 16);
        assert(0 <= b % 16 < 16);
    }
    assert(hex_bytes(s) =~= bytes) by {
        assert forall|i: int| 0 <= i < bytes.len() implies hex_bytes(s)[i] == bytes[i] by {
            let b = bytes[i] as int;
            assert(s[2 * i] == hex_digit_char(b / 16));
            assert(s[2 * i + 1] == hex_digit_char(b % 16));
            assert(hex_val(hex_digit_char(b / 16)) == b / 16);
            assert(hex_val(hex_digit_char(b % 16)) == b % 16);
        }
    }
}

/// Renders bytes as their lowercase two-digit-per-byte hexadecimal string.
pub fn to_hex(bytes: &[u8]) -> (r: String)
    ensures
        r@ == hex_of(bytes@),
{
    let mut r = String::new();
    let mut i: usize = 0;
    while i < bytes.len()
        invariant
            i <= bytes.len(),
            r@ =~= hex_of(bytes@.take(i as int)),
        decreases bytes.len() - i,
    {
        let b = bytes[i];
        r.append(hex_char_str(b / 16));
        r.append(hex_char_str(b % 16));
        proof {
            assert(r@ =~= hex_of(bytes@.take(i + 1 as int)));
        }
        i += 1;
    }
    proof {
        assert(bytes@.take(bytes@.len() as int) =~= bytes@);
    }
    r
}

/// Decodes a hexadecimal string into bytes, reporting an odd length or an
/// invalid digit.
pub fn hex_to_bytes(hex: &str) -> (r: Result<Vec<u8>, HexError>)
    ensures
        r matches Ok(v) ==> hex_decode_spec(hex@) == Ok::<Seq<u8>, HexError>(v@),
        r matches Err(e) ==> hex_decode_spec(hex@) == Err::<Seq<u8>, HexError>(e),
{
    if hex.is_ascii() {
        hex_decode_via_crate(hex)
    } else {
        // A string with a character beyond ASCII cannot be all hexadecimal
        // digits; only the length decides which error applies.
        let n = hex.unicode_len();
        proof {
            let witness = choose|i: int|
                0 <= i < hex@.len() && !('\0' <= #[trigger] hex@[i] <= '\u{7f}');
            assert(!is_hex_digit(hex@[witness]));
        }
        if n % 2 != 0 {
            Err(HexError::OddLength)
        } else {
            Err(HexError::InvalidDigit)
        }
    }
}

} // verus!
