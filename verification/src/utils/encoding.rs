//! Reversible mapping between a provider name and the token that stands for
//! it in a file name.
//!
//! A token is the percent-encoding of the name's UTF-8 bytes. Every byte that
//! is not plain ASCII text, every reserved byte and the percent sign itself
//! are written as `%XX` with upper-case hexadecimal digits, so a token never
//! holds a path separator and decodes to exactly one name.

use vstd::prelude::*;
use vstd::string::*;
use vstd::utf8::*;

verus! {

/// Why a token is not the encoding of any name.
#[derive(Debug, Clone, Copy, PartialEq, Eq, Structural)]
pub enum DecodeError {
    /// A percent sign is not followed by two hexadecimal digits.
    MalformedEscape,
    /// The unescaped bytes are not UTF-8.
    InvalidUtf8,
}

/// The printable ASCII bytes that a token never holds literally:
/// `/ : * ? " < > | \` and `%`.
pub open spec fn is_reserved(b: u8) -> bool {
    b == 0x2f || b == 0x3a || b == 0x2a || b == 0x3f || b == 0x22 || b == 0x3c || b == 0x3e || b
        == 0x7c || b == 0x5c || b == 0x25
}

/// Whether a byte of a name is written as an escape: control bytes, DEL,
/// every byte outside ASCII, and the reserved bytes.
pub open spec fn must_escape(b: u8) -> bool {
    b < 0x20 || b >= 0x7f || is_reserved(b)
}

/// The upper-case hexadecimal digit for a value below sixteen.
pub open spec fn hex_upper(d: u8) -> char {
    if d < 10 {
        (0x30 + d) as char
    } else {
        (0x37 + d) as char
    }
}

/// The three characters `%XX` that stand for one byte.
pub open spec fn escape_of(b: u8) -> Seq<char> {
    seq!['%', hex_upper(b / 16), hex_upper(b % 16)]
}

/// What one byte of a name contributes to the token.
pub open spec fn token_piece(b: u8) -> Seq<char> {
    if must_escape(b) {
        escape_of(b)
    } else {
        seq![b as char]
    }
}

/// The token for a sequence of bytes: the pieces of its bytes, in order.
pub open spec fn token_of_bytes(bytes: Seq<u8>) -> Seq<char>
    decreases bytes.len(),
{
    if bytes.len() == 0 {
        Seq::empty()
    } else {
        token_piece(bytes[0]) + token_of_bytes(bytes.skip(1))
    }
}

/// The token for a name.
pub open spec fn encoded_name(name: Seq<char>) -> Seq<char> {
    token_of_bytes(encode_utf8(name))
}

/// `percent_encoding::percent_encode_byte`: the escape for one byte, which the
/// crate reads from a table of all 256 escapes, `%00` to `%FF`, in upper case.
#[verifier::external_body]
fn escape_byte(b: u8) -> (r: &'static str)
    ensures
        r@ == escape_of(b),
{
    percent_encoding::percent_encode_byte(b)
}

/// `String::push`: appends one character.
#[verifier::external_body]
pub(crate) fn push_char(s: &mut String, c: char)
    ensures
        final(s)@ == old(s)@.push(c),
{
    s.push(c)
}

fn needs_escape(b: u8) -> (r: bool)
    ensures
        r == must_escape(b),
{
    b < 0x20 || b >= 0x7f || b == 0x2f || b == 0x3a || b == 0x2a || b == 0x3f || b == 0x22 || b
        == 0x3c || b == 0x3e || b == 0x7c || b == 0x5c || b == 0x25
}

/// Encodes a provider name as a file-name token.
pub fn encode_config_name(name: &str) -> (token: String)
    ensures
        token@ == encoded_name(name@),
{
    let bytes = name.as_bytes();
    let mut token = String::new();
    let mut i: usize = 0;
    assert(bytes@.skip(0) =~= bytes@);
    while i < bytes.len()
        invariant
            i <= bytes.len(),
            bytes@ == encode_utf8(name@),
            encoded_name(name@) == token@ + token_of_bytes(bytes@.skip(i as int)),
        decreases bytes.len() - i,
    {
        let b = bytes[i];
        proof {
            let rest = bytes@.skip(i as int);
            assert(rest[0] == b);
            assert(rest.skip(1) =~= bytes@.skip(i + 1));
            assert(token@ + (token_piece(b) + token_of_bytes(rest.skip(1))) =~= (token@
                + token_piece(b)) + token_of_bytes(rest.skip(1)));
        }
        let ghost before = token@;
        if needs_escape(b) {
            token.append(escape_byte(b));
        } else {
            push_char(&mut token, b as char);
            assert(token@ =~= before + seq![b as char]);
        }
        i += 1;
    }
    token
}

/// Whether a byte is a hexadecimal digit, of either case.
pub open spec fn is_hex_digit(b: u8) -> bool {
    (0x30 <= b <= 0x39) || (0x41 <= b <= 0x46) || (0x61 <= b <= 0x66)
}

/// The value of a hexadecimal digit.
pub open spec fn hex_value(b: u8) -> int {
    if 0x30 <= b <= 0x39 {
        b - 0x30
    } else if 0x41 <= b <= 0x46 {
        b - 0x37
    } else {
        b - 0x57
    }
}

/// Whether the bytes begin with a percent sign and two hexadecimal digits.
pub open spec fn starts_with_escape(bytes: Seq<u8>) -> bool {
    bytes.len() >= 3 && bytes[0] == 0x25 && is_hex_digit(bytes[1]) && is_hex_digit(bytes[2])
}

/// The bytes of a token with every escape replaced by the byte it stands for.
/// A percent sign that starts no escape stands for itself.
pub open spec fn unescaped(bytes: Seq<u8>) -> Seq<u8>
    decreases bytes.len(),
{
    if bytes.len() == 0 {
        Seq::empty()
    } else if starts_with_escape(bytes) {
        seq![(hex_value(bytes[1]) * 16 + hex_value(bytes[2])) as u8] + unescaped(bytes.skip(3))
    } else {
        seq![bytes[0]] + unescaped(bytes.skip(1))
    }
}

/// Whether every percent sign in the bytes is followed by two hexadecimal
/// digits.
pub open spec fn well_escaped(bytes: Seq<u8>) -> bool {
    forall|i: int|
        0 <= i < bytes.len() && #[trigger] bytes[i] == 0x25 ==> i + 2 < bytes.len() && is_hex_digit(
            bytes[i + 1],
        ) && is_hex_digit(bytes[i + 2])
}

/// What a token decodes to: the name whose UTF-8 bytes are the token's
/// unescaped bytes, or the reason why there is none.
pub open spec fn decoded_name(token: Seq<char>) -> Result<Seq<char>, DecodeError> {
    let bytes = encode_utf8(token);
    if !well_escaped(bytes) {
        Err(DecodeError::MalformedEscape)
    } else if !valid_utf8(unescaped(bytes)) {
        Err(DecodeError::InvalidUtf8)
    } else {
        Ok(decode_utf8(unescaped(bytes)))
    }
}

/// `percent_encoding::percent_decode_str` followed by
/// `PercentDecode::decode_utf8`: the crate replaces each percent sign that is
/// followed by two hexadecimal digits, together with them, by the byte they
/// spell, leaves every other byte as it is, and then returns the bytes as text
/// exactly when they are UTF-8.
#[verifier::external_body]
fn percent_decode_utf8(token: &str) -> (r: Option<String>)
    ensures
        r is Some <==> valid_utf8(unescaped(encode_utf8(token@))),
        r matches Some(s) ==> s@ == decode_utf8(unescaped(encode_utf8(token@))),
{
    match percent_encoding::percent_decode_str(token).decode_utf8() {
        Ok(text) => Some(text.into_owned()),
        Err(_) => None,
    }
}

fn hex_digit(b: u8) -> (r: bool)
    ensures
        r == is_hex_digit(b),
{
    (0x30 <= b && b <= 0x39) || (0x41 <= b && b <= 0x46) || (0x61 <= b && b <= 0x66)
}

fn escapes_complete(bytes: &[u8]) -> (r: bool)
    ensures
        r == well_escaped(bytes@),
{
    let n = bytes.len();
    let mut i: usize = 0;
    while i < n
        invariant
            i <= n,
            n == bytes.len(),
            forall|j: int|
                0 <= j < i && #[trigger] bytes@[j] == 0x25 ==> j + 2 < n && is_hex_digit(
                    bytes@[j + 1],
                ) && is_hex_digit(bytes@[j + 2]),
        decreases n - i,
    {
        if bytes[i] == 0x25 {
            if n - i < 3 || !hex_digit(bytes[i + 1]) || !hex_digit(bytes[i + 2]) {
                return false;
            }
        }
        i += 1;
    }
    true
}

/// Decodes a file-name token back into the provider name.
///
/// Fails when a percent sign in the token does not start an escape, or when
/// the unescaped bytes are not UTF-8.
pub fn decode_config_name(encoded: &str) -> (name: Result<String, DecodeError>)
    ensures
        match name {
            Ok(s) => decoded_name(encoded@) == Ok::<Seq<char>, DecodeError>(s@),
            Err(e) => decoded_name(encoded@) == Err::<Seq<char>, DecodeError>(e),
        },
{
    if !escapes_complete(encoded.as_bytes()) {
        return Err(DecodeError::MalformedEscape);
    }
    match percent_decode_utf8(encoded) {
        Some(s) => Ok(s),
        None => Err(DecodeError::InvalidUtf8),
    }
}

/// The bytes of a sequence of ASCII characters.
pub open spec fn ascii_bytes(chars: Seq<char>) -> Seq<u8> {
    Seq::new(chars.len(), |i: int| chars[i] as u8)
}

proof fn lemma_piece_is_ascii(b: u8)
    ensures
        is_ascii_chars(token_piece(b)),
        must_escape(b) ==> starts_with_escape(ascii_bytes(token_piece(b))) && hex_value(
            ascii_bytes(token_piece(b))[1],
        ) * 16 + hex_value(ascii_bytes(token_piece(b))[2]) == b,
        !must_escape(b) ==> ascii_bytes(token_piece(b)) == seq![b],
{
    if must_escape(b) {
        let hi = (b / 16) as u8;
        let lo = (b % 16) as u8;
        assert(hi < 16 && lo < 16 && hi * 16 + lo == b);
        assert(token_piece(b)[0] == '%');
        assert(token_piece(b)[1] == hex_upper(hi));
        assert(token_piece(b)[2] == hex_upper(lo));
    } else {
        assert(token_piece(b)[0] == b as char);
        assert(ascii_bytes(token_piece(b)) =~= seq![b]);
    }
}

proof fn lemma_token_is_ascii(bytes: Seq<u8>)
    ensures
        is_ascii_chars(token_of_bytes(bytes)),
    decreases bytes.len(),
{
    if bytes.len() > 0 {
        lemma_piece_is_ascii(bytes[0]);
        lemma_token_is_ascii(bytes.skip(1));
    }
}

proof fn lemma_token_unescapes(bytes: Seq<u8>)
    ensures
        well_escaped(ascii_bytes(token_of_bytes(bytes))),
        unescaped(ascii_bytes(token_of_bytes(bytes))) == bytes,
    decreases bytes.len(),
{
    if bytes.len() > 0 {
        let b = bytes[0];
        let rest = bytes.skip(1);
        let head = ascii_bytes(token_piece(b));
        let tail = ascii_bytes(token_of_bytes(rest));
        let all = ascii_bytes(token_of_bytes(bytes));
        lemma_piece_is_ascii(b);
        lemma_token_unescapes(rest);
        assert(all =~= head + tail);
        assert(all.skip(head.len() as int) =~= tail);
        assert(bytes =~= seq![b] + rest);
        assert forall|i: int| 0 <= i < all.len() && #[trigger] all[i] == 0x25 implies i + 2
            < all.len() && is_hex_digit(all[i + 1]) && is_hex_digit(all[i + 2]) by {
            if i >= head.len() {
                let k = i - head.len();
                assert(tail[k] == 0x25);
                assert(all[i + 1] == tail[k + 1]);
                assert(all[i + 2] == tail[k + 2]);
            } else if must_escape(b) {
                assert(i == 0);
                assert(all[1] == head[1] && all[2] == head[2]);
            }
        }
        if must_escape(b) {
            assert(starts_with_escape(all)) by {
                assert(all[0] == head[0] && all[1] == head[1] && all[2] == head[2]);
            }
        } else {
            assert(all[0] == b);
        }
    } else {
        assert(ascii_bytes(token_of_bytes(bytes)) =~= Seq::<u8>::empty());
    }
}

/// A token holds printable ASCII only, and none of the characters
/// `/ : * ? " < > | \`: it can stand in a file name on every platform.
pub proof fn lemma_token_is_file_name_safe(name: Seq<char>, i: int)
    requires
        0 <= i < encoded_name(name).len(),
    ensures
        0x20 <= encoded_name(name)[i] as u32 <= 0x7e,
        encoded_name(name)[i] == '%' || !is_reserved(encoded_name(name)[i] as u8),
{
    lemma_token_chars(encode_utf8(name), i);
}

proof fn lemma_token_chars(bytes: Seq<u8>, i: int)
    requires
        0 <= i < token_of_bytes(bytes).len(),
    ensures
        0x20 <= token_of_bytes(bytes)[i] as u32 <= 0x7e,
        token_of_bytes(bytes)[i] == '%' || !is_reserved(token_of_bytes(bytes)[i] as u8),
    decreases bytes.len(),
{
    let b = bytes[0];
    let piece = token_piece(b);
    if i < piece.len() {
        if must_escape(b) {
            let hi = (b / 16) as u8;
            let lo = (b % 16) as u8;
            assert(hi < 16 && lo < 16);
            assert(piece[0] == '%' && piece[1] == hex_upper(hi) && piece[2] == hex_upper(lo));
        } else {
            assert(piece[0] == b as char);
        }
    } else {
        lemma_token_chars(bytes.skip(1), i - piece.len());
    }
}

/// Decoding the token of a name gives the name back, whatever characters the
/// name holds.
pub proof fn lemma_decode_inverts_encode(name: Seq<char>)
    ensures
        decoded_name(encoded_name(name)) == Ok::<Seq<char>, DecodeError>(name),
{
    let raw = encode_utf8(name);
    let token = encoded_name(name);
    lemma_token_is_ascii(raw);
    is_ascii_chars_encode_utf8(token);
    assert(encode_utf8(token) =~= ascii_bytes(token));
    lemma_token_unescapes(raw);
    encode_utf8_valid_utf8(name);
    encode_utf8_decode_utf8(name);
}

/// Two names with the same token are the same name.
pub proof fn lemma_encode_is_injective(a: Seq<char>, b: Seq<char>)
    requires
        encoded_name(a) == encoded_name(b),
    ensures
        a == b,
{
    lemma_decode_inverts_encode(a);
    lemma_decode_inverts_encode(b);
}

} // verus!
